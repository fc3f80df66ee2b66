//! Display preparation: the caller sorts project names, image lists and
//! harvested class names in lexicographic byte order before rendering.
//! Each sort returns a permutation of its input (the same multiset of
//! values) in non-decreasing order of its sort key.

use vstd::prelude::*;

use crate::scan::{images_view, projects_view, ImageAsset, ImageAssetView, ProjectEntry, ProjectEntryView};
use crate::text::{lex_le, lemma_lex_total, lemma_lex_trans};

verus! {

/// Byte strings in non-decreasing lexicographic order.
pub open spec fn strings_sorted(s: Seq<Seq<u8>>) -> bool {
    forall|i: int, j: int| 0 <= i <= j < s.len() ==> lex_le(#[trigger] s[i], #[trigger] s[j])
}

/// The base names of a list of image assets.
pub open spec fn image_keys(s: Seq<ImageAssetView>) -> Seq<Seq<u8>> {
    s.map_values(|a: ImageAssetView| a.base_name)
}

/// The names of a list of projects.
pub open spec fn project_keys(s: Seq<ProjectEntryView>) -> Seq<Seq<u8>> {
    s.map_values(|p: ProjectEntryView| p.name)
}

/// Image assets in non-decreasing order of base name.
pub open spec fn images_sorted(s: Seq<ImageAssetView>) -> bool {
    strings_sorted(image_keys(s))
}

/// Projects in non-decreasing order of name.
pub open spec fn projects_sorted(s: Seq<ProjectEntryView>) -> bool {
    strings_sorted(project_keys(s))
}

/// The views of a list of byte strings.
pub open spec fn deep_of(s: Seq<Vec<u8>>) -> Seq<Seq<u8>> {
    s.map_values(|b: Vec<u8>| b@)
}

/// Inserting an element anywhere adds exactly it to the sequence's
/// multiset of values.
proof fn lemma_insert_to_multiset<A>(s: Seq<A>, p: int, x: A)
    requires
        0 <= p <= s.len(),
    ensures
        s.insert(p, x).to_multiset() == s.to_multiset().insert(x),
{
    broadcast use vstd::seq_lib::group_to_multiset_ensures;
    broadcast use vstd::multiset::group_multiset_axioms;

    let s2 = s.insert(p, x);
    assert(s2.remove(p) =~= s);
    assert(s2[p] == x);
    assert(s.to_multiset() == s2.to_multiset().remove(x));
    assert(s2.contains(x));
    assert(s2.to_multiset().count(x) > 0);
    assert(s2.to_multiset() =~= s.to_multiset().insert(x));
}

/// A sorted key sequence stays sorted when a key is inserted where the
/// first key not below it stood.
proof fn lemma_sorted_after_insert(s: Seq<Seq<u8>>, p: int, x: Seq<u8>)
    requires
        strings_sorted(s),
        0 <= p <= s.len(),
        forall|q: int| 0 <= q < p ==> lex_le(#[trigger] s[q], x),
        p < s.len() ==> !lex_le(s[p], x),
    ensures
        strings_sorted(s.insert(p, x)),
{
    let s2 = s.insert(p, x);
    if p < s.len() {
        lemma_lex_total(s[p], x);
    }
    assert forall|i: int, j: int| 0 <= i <= j < s2.len() implies lex_le(
        #[trigger] s2[i],
        #[trigger] s2[j],
    ) by {
        if i == j {
            lemma_lex_total(s2[i], s2[i]);
        } else if j < p {
            assert(s2[i] == s[i] && s2[j] == s[j]);
        } else if i > p {
            assert(s2[i] == s[i - 1] && s2[j] == s[j - 1]);
        } else if i < p && j == p {
            assert(s2[i] == s[i] && s2[j] == x);
        } else if i == p && j > p {
            assert(s2[i] == x && s2[j] == s[j - 1]);
            assert(lex_le(x, s[p]));
            assert(lex_le(s[p], s[j - 1]));
            lemma_lex_trans(x, s[p], s[j - 1]);
        } else {
            assert(i < p && j > p);
            assert(s2[i] == s[i] && s2[j] == s[j - 1]);
            assert(lex_le(s[i], s[j - 1]));
        }
    }
}

/// The position before the first string of `out` that does not come at or
/// below `x` in lexicographic order.
fn string_insert_position(out: &Vec<Vec<u8>>, x: &[u8]) -> (p: usize)
    ensures
        0 <= p <= out@.len(),
        forall|q: int| 0 <= q < p ==> lex_le(#[trigger] out.deep_view()[q], x@),
        p < out@.len() ==> !lex_le(out.deep_view()[p as int], x@),
{
    let mut p: usize = 0;
    while p < out.len()
        invariant
            0 <= p <= out@.len(),
            out.deep_view().len() == out@.len(),
            forall|q: int| 0 <= q < p ==> lex_le(#[trigger] out.deep_view()[q], x@),
        decreases out@.len() - p,
    {
        assert(out.deep_view()[p as int] == out@[p as int]@);
        if !crate::text::lex_le_bytes(out[p].as_slice(), x) {
            return p;
        }
        p = p + 1;
    }
    p
}

/// Sorts byte strings in lexicographic order; the result holds the same
/// strings, each as often as the input does.
pub fn sort_strings(v: Vec<Vec<u8>>) -> (r: Vec<Vec<u8>>)
    ensures
        strings_sorted(r.deep_view()),
        r.deep_view().to_multiset() == v.deep_view().to_multiset(),
{
    let ghost orig = v@;
    proof {
        assert(v.deep_view() =~~= deep_of(orig));
    }
    let total: usize = v.len();
    let mut src = v;
    let mut out: Vec<Vec<u8>> = Vec::new();
    let mut i: usize = 0;
    proof {
        assert(src@ =~= orig.skip(0));
        assert(out.deep_view() =~~= deep_of(orig.take(0)));
    }
    while src.len() > 0
        invariant
            0 <= i <= total,
            total == orig.len(),
            src@ == orig.skip(i as int),
            strings_sorted(out.deep_view()),
            out.deep_view().to_multiset() == deep_of(orig.take(i as int)).to_multiset(),
        decreases src@.len(),
    {
        let x = src.remove(0);
        let ghost gx = x@;
        assert(x == orig[i as int]);
        assert(src@ =~= orig.skip(i + 1));
        let ghost out_before = out.deep_view();
        let p = string_insert_position(&out, x.as_slice());
        out.insert(p, x);
        proof {
            assert(out.deep_view() =~~= out_before.insert(p as int, gx));
            lemma_sorted_after_insert(out_before, p as int, gx);
            lemma_insert_to_multiset(out_before, p as int, gx);
            assert(deep_of(orig.take(i + 1)) =~~= deep_of(orig.take(i as int)).push(gx));
            broadcast use vstd::seq_lib::group_to_multiset_ensures;

            assert(out.deep_view().to_multiset() == deep_of(orig.take(i + 1)).to_multiset());
        }
        i = i + 1;
    }
    assert(orig.take(total as int) =~= orig);
    out
}

/// The position before the first image of `out` whose base name does not
/// come at or below `x` in lexicographic order.
fn image_insert_position(out: &Vec<ImageAsset>, x: &[u8]) -> (p: usize)
    ensures
        0 <= p <= out@.len(),
        forall|q: int| 0 <= q < p ==> lex_le(#[trigger] image_keys(images_view(out@))[q], x@),
        p < out@.len() ==> !lex_le(image_keys(images_view(out@))[p as int], x@),
{
    let mut p: usize = 0;
    while p < out.len()
        invariant
            0 <= p <= out@.len(),
            image_keys(images_view(out@)).len() == out@.len(),
            forall|q: int| 0 <= q < p ==> lex_le(#[trigger] image_keys(images_view(out@))[q], x@),
        decreases out@.len() - p,
    {
        assert(image_keys(images_view(out@))[p as int] == out@[p as int].base_name@);
        if !crate::text::lex_le_bytes(out[p].base_name.as_slice(), x) {
            return p;
        }
        p = p + 1;
    }
    p
}

/// Sorts image assets by base name, the order the report lists a
/// project's images in; the result holds the same assets, each as often
/// as the input does.
pub fn sort_images_by_name(v: Vec<ImageAsset>) -> (r: Vec<ImageAsset>)
    ensures
        images_sorted(images_view(r@)),
        images_view(r@).to_multiset() == images_view(v@).to_multiset(),
{
    let ghost orig = v@;
    let total: usize = v.len();
    let mut src = v;
    let mut out: Vec<ImageAsset> = Vec::new();
    let mut i: usize = 0;
    proof {
        assert(src@ =~= orig.skip(0));
        assert(images_view(out@) =~= images_view(orig.take(0)));
    }
    while src.len() > 0
        invariant
            0 <= i <= total,
            total == orig.len(),
            src@ == orig.skip(i as int),
            images_sorted(images_view(out@)),
            images_view(out@).to_multiset() == images_view(orig.take(i as int)).to_multiset(),
        decreases src@.len(),
    {
        let x = src.remove(0);
        let ghost gx = x@;
        assert(x == orig[i as int]);
        assert(src@ =~= orig.skip(i + 1));
        let ghost out_before = images_view(out@);
        let p = image_insert_position(&out, x.base_name.as_slice());
        out.insert(p, x);
        proof {
            assert(images_view(out@) =~= out_before.insert(p as int, gx));
            assert(image_keys(out_before.insert(p as int, gx)) =~= image_keys(
                out_before,
            ).insert(p as int, gx.base_name));
            lemma_sorted_after_insert(image_keys(out_before), p as int, gx.base_name);
            lemma_insert_to_multiset(out_before, p as int, gx);
            assert(images_view(orig.take(i + 1)) =~= images_view(orig.take(i as int)).push(gx));
            broadcast use vstd::seq_lib::group_to_multiset_ensures;

            assert(images_view(out@).to_multiset() == images_view(orig.take(i + 1)).to_multiset());
        }
        i = i + 1;
    }
    assert(orig.take(total as int) =~= orig);
    out
}

/// The position before the first project of `out` whose name does not
/// come at or below `x` in lexicographic order.
fn project_insert_position(out: &Vec<ProjectEntry>, x: &[u8]) -> (p: usize)
    ensures
        0 <= p <= out@.len(),
        forall|q: int| 0 <= q < p ==> lex_le(#[trigger] project_keys(projects_view(out@))[q], x@),
        p < out@.len() ==> !lex_le(project_keys(projects_view(out@))[p as int], x@),
{
    let mut p: usize = 0;
    while p < out.len()
        invariant
            0 <= p <= out@.len(),
            project_keys(projects_view(out@)).len() == out@.len(),
            forall|q: int| 0 <= q < p ==> lex_le(#[trigger] project_keys(projects_view(out@))[q], x@),
        decreases out@.len() - p,
    {
        assert(project_keys(projects_view(out@))[p as int] == out@[p as int].name@);
        if !crate::text::lex_le_bytes(out[p].name.as_slice(), x) {
            return p;
        }
        p = p + 1;
    }
    p
}

/// Sorts projects by name, the deterministic order in which the locator
/// searches them and the report lists them; the result holds the same
/// projects, each as often as the input does.
pub fn sort_projects_by_name(v: Vec<ProjectEntry>) -> (r: Vec<ProjectEntry>)
    ensures
        projects_sorted(projects_view(r@)),
        projects_view(r@).to_multiset() == projects_view(v@).to_multiset(),
{
    let ghost orig = v@;
    let total: usize = v.len();
    let mut src = v;
    let mut out: Vec<ProjectEntry> = Vec::new();
    let mut i: usize = 0;
    proof {
        assert(src@ =~= orig.skip(0));
        assert(projects_view(out@) =~= projects_view(orig.take(0)));
    }
    while src.len() > 0
        invariant
            0 <= i <= total,
            total == orig.len(),
            src@ == orig.skip(i as int),
            projects_sorted(projects_view(out@)),
            projects_view(out@).to_multiset() == projects_view(orig.take(i as int)).to_multiset(),
        decreases src@.len(),
    {
        let x = src.remove(0);
        let ghost gx = x@;
        assert(x == orig[i as int]);
        assert(src@ =~= orig.skip(i + 1));
        let ghost out_before = projects_view(out@);
        let p = project_insert_position(&out, x.name.as_slice());
        out.insert(p, x);
        proof {
            assert(projects_view(out@) =~= out_before.insert(p as int, gx));
            assert(project_keys(out_before.insert(p as int, gx)) =~= project_keys(
                out_before,
            ).insert(p as int, gx.name));
            lemma_sorted_after_insert(project_keys(out_before), p as int, gx.name);
            lemma_insert_to_multiset(out_before, p as int, gx);
            assert(projects_view(orig.take(i + 1)) =~= projects_view(orig.take(i as int)).push(gx));
            broadcast use vstd::seq_lib::group_to_multiset_ensures;

            assert(projects_view(out@).to_multiset() == projects_view(orig.take(i + 1)).to_multiset());
        }
        i = i + 1;
    }
    assert(orig.take(total as int) =~= orig);
    out
}

} // verus!
