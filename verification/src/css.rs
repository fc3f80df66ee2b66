//! Stylesheet extraction: per line, embedded relative asset references of
//! the form `url('...')` are rewritten to absolute, forward-slash paths
//! under a resolved directory, and icon class names are harvested from
//! selector lines that end in `:before {`.

use vstd::prelude::*;

use crate::paths::{joined, norm, slash_seq, SLASH};
use crate::text::{find_from, matches_at, trimmed, lemma_find_from_some};

verus! {

/// The marker that opens an embedded asset reference: `url('`.
pub open spec fn url_marker() -> Seq<u8> {
    seq![117u8, 114u8, 108u8, 40u8, 39u8]
}

/// The marker that closes an embedded asset reference: `')`.
pub open spec fn close_marker() -> Seq<u8> {
    seq![39u8, 41u8]
}

/// The suffix of a selector line that defines an icon class: `:before {`.
pub open spec fn before_suffix() -> Seq<u8> {
    seq![58u8, 98u8, 101u8, 102u8, 111u8, 114u8, 101u8, 32u8, 123u8]
}

/// The marker `url('`, as bytes.
pub fn url_marker_bytes() -> (r: Vec<u8>)
    ensures
        r@ == url_marker(),
{
    let mut v: Vec<u8> = Vec::new();
    v.push(117);
    v.push(114);
    v.push(108);
    v.push(40);
    v.push(39);
    assert(v@ =~= url_marker());
    v
}

/// The marker `')`, as bytes.
pub fn close_marker_bytes() -> (r: Vec<u8>)
    ensures
        r@ == close_marker(),
{
    let mut v: Vec<u8> = Vec::new();
    v.push(39);
    v.push(41);
    assert(v@ =~= close_marker());
    v
}

/// The suffix `:before {`, as bytes.
pub fn before_suffix_bytes() -> (r: Vec<u8>)
    ensures
        r@ == before_suffix(),
{
    let mut v: Vec<u8> = Vec::new();
    v.push(58);
    v.push(98);
    v.push(101);
    v.push(102);
    v.push(111);
    v.push(114);
    v.push(101);
    v.push(32);
    v.push(123);
    assert(v@ =~= before_suffix());
    v
}

/// The rewritten form of `line` from position `pos` on: each `url('`
/// marker that is followed by a closing `')` has the path between the two
/// replaced by that path joined onto `dir`; scanning resumes right after
/// the closing marker, and an unterminated marker leaves the rest of the
/// line untouched.
pub open spec fn rewrite_from(line: Seq<u8>, dir: Seq<u8>, pos: int) -> Seq<u8>
    decreases line.len() - pos,
        via rewrite_from_decreases
{
    match find_from(line, url_marker(), pos) {
        None => line.skip(pos),
        Some(m) => match find_from(line, close_marker(), m + 5) {
            None => line.skip(pos),
            Some(e) => line.subrange(pos, m + 5) + joined(dir, line.subrange(m + 5, e), slash_seq())
                + close_marker() + rewrite_from(line, dir, e + 2),
        },
    }
}

#[via_fn]
proof fn rewrite_from_decreases(line: Seq<u8>, dir: Seq<u8>, pos: int) {
    match find_from(line, url_marker(), pos) {
        None => {},
        Some(m) => {
            lemma_find_from_some(line, url_marker(), pos, m);
            match find_from(line, close_marker(), m + 5) {
                None => {},
                Some(e) => {
                    lemma_find_from_some(line, close_marker(), m + 5, e);
                },
            }
        },
    }
}

/// The rewritten form of a whole line.
pub open spec fn rewrite_line_seq(line: Seq<u8>, dir: Seq<u8>) -> Seq<u8> {
    rewrite_from(line, dir, 0)
}

/// Whether `line` holds, at or after `pos`, a `url('` marker that is
/// terminated by a closing `')`. Only such a marker makes the rewrite
/// change anything.
pub open spec fn has_terminated_marker_from(line: Seq<u8>, pos: int) -> bool {
    match find_from(line, url_marker(), pos) {
        None => false,
        Some(m) => find_from(line, close_marker(), m + 5) is Some,
    }
}

/// Rewrites one stylesheet line: every terminated `url('...')` reference
/// has its path replaced by the path joined onto `dir`, left to right,
/// without reprocessing already-rewritten text; an unterminated marker
/// leaves the rest of the line untouched.
pub fn rewrite_line(line: &[u8], dir: &[u8]) -> (r: Vec<u8>)
    ensures
        r@ == rewrite_line_seq(line@, dir@),
{
    let url = url_marker_bytes();
    let close = close_marker_bytes();
    let line_len: usize = line.len();
    let mut out: Vec<u8> = Vec::new();
    let mut i: usize = 0;
    assert(out@ + rewrite_from(line@, dir@, 0) =~= rewrite_from(line@, dir@, 0));
    loop
        invariant
            0 <= i <= line@.len(),
            line_len == line@.len(),
            url@ == url_marker(),
            close@ == close_marker(),
            rewrite_from(line@, dir@, 0) == out@ + rewrite_from(line@, dir@, i as int),
        decreases line@.len() - i,
    {
        let m = match crate::text::find_sub_from(line, url.as_slice(), i) {
            None => {
                let rest = crate::text::subvec(line, i, line.len());
                assert(rest@ =~= line@.skip(i as int));
                crate::text::extend_from(&mut out, rest.as_slice());
                return out;
            },
            Some(m) => m,
        };
        proof {
            lemma_find_from_some(line@, url_marker(), i as int, m as int);
        }
        let p = m + 5;
        let e = match crate::text::find_sub_from(line, close.as_slice(), p) {
            None => {
                let rest = crate::text::subvec(line, i, line.len());
                assert(rest@ =~= line@.skip(i as int));
                crate::text::extend_from(&mut out, rest.as_slice());
                return out;
            },
            Some(e) => e,
        };
        proof {
            lemma_find_from_some(line@, close_marker(), p as int, e as int);
        }
        let head = crate::text::subvec(line, i, p);
        crate::text::extend_from(&mut out, head.as_slice());
        let rel = crate::text::subvec(line, p, e);
        let mut sl: Vec<u8> = Vec::new();
        sl.push(SLASH);
        assert(sl@ =~= slash_seq());
        let abs = crate::paths::join_paths(dir, rel.as_slice(), sl.as_slice());
        crate::text::extend_from(&mut out, abs.as_slice());
        let cm = crate::text::subvec(line, e, e + 2);
        assert(cm@ =~= close_marker()) by {
            assert(matches_at(line@, close_marker(), e as int));
            assert(cm@[0] == line@[e as int] && cm@[1] == line@[e + 1]);
        }
        crate::text::extend_from(&mut out, cm.as_slice());
        assert(rewrite_from(line@, dir@, 0) == out@ + rewrite_from(line@, dir@, e + 2)) by {
            assert(rewrite_from(line@, dir@, i as int) == line@.subrange(i as int, p as int)
                + joined(dir@, line@.subrange(p as int, e as int), slash_seq()) + close_marker()
                + rewrite_from(line@, dir@, e + 2));
        }
        i = e + 2;
    }
}

/// The rewrite never shrinks what remains of a line, and rewriting a
/// terminated marker strictly lengthens it (the joined directory and the
/// slash come in).
proof fn lemma_rewrite_from_grows(line: Seq<u8>, dir: Seq<u8>, pos: int)
    requires
        0 <= pos <= line.len(),
    ensures
        rewrite_from(line, dir, pos).len() >= line.len() - pos,
        has_terminated_marker_from(line, pos) ==> rewrite_from(line, dir, pos).len() > line.len()
            - pos,
    decreases line.len() - pos,
{
    match find_from(line, url_marker(), pos) {
        None => {},
        Some(m) => {
            lemma_find_from_some(line, url_marker(), pos, m);
            match find_from(line, close_marker(), m + 5) {
                None => {},
                Some(e) => {
                    lemma_find_from_some(line, close_marker(), m + 5, e);
                    lemma_rewrite_from_grows(line, dir, e + 2);
                },
            }
        },
    }
}

/// Rewrite idempotence, and exactly where it holds: the rewrite leaves a
/// line unchanged if and only if the line holds no terminated `url('`
/// marker, and on such a line a second rewrite changes nothing either. (A
/// line with a terminated marker is always lengthened, so no line with
/// one is a fixed point.)
pub proof fn lemma_rewrite_identity_without_marker(line: Seq<u8>, dir: Seq<u8>)
    ensures
        (rewrite_line_seq(line, dir) == line) <==> !has_terminated_marker_from(line, 0),
        !has_terminated_marker_from(line, 0) ==> rewrite_line_seq(rewrite_line_seq(line, dir), dir)
            == rewrite_line_seq(line, dir),
{
    assert(line.skip(0) =~= line);
    if has_terminated_marker_from(line, 0) {
        lemma_rewrite_from_grows(line, dir, 0);
    }
}

/// The icon class name a selector line yields, if any: the line, trimmed,
/// must end in `:before {`; the class name is what remains when that
/// suffix and then one leading byte (the `.` of the selector) are removed,
/// trimmed of surrounding whitespace. A line whose selector is empty
/// yields nothing.
pub open spec fn class_of_line_seq(line: Seq<u8>) -> Option<Seq<u8>> {
    let t = trimmed(line);
    if before_suffix().is_suffix_of(t) {
        let v = trimmed(t.take(t.len() - 9));
        if v.len() > 0 {
            Some(trimmed(v.skip(1)))
        } else {
            None
        }
    } else {
        None
    }
}

/// Harvests the icon class name from one (already rewritten) line, if the
/// line defines one.
pub fn class_of_line(line: &[u8]) -> (r: Option<Vec<u8>>)
    ensures
        match r {
            Some(c) => class_of_line_seq(line@) == Some(c@),
            None => class_of_line_seq(line@) is None,
        },
{
    let t = crate::text::trim_bytes(line);
    let suffix = before_suffix_bytes();
    if t.len() < 9 {
        assert(!before_suffix().is_suffix_of(trimmed(line@)));
        return None;
    }
    let tail = crate::text::subvec(t.as_slice(), t.len() - 9, t.len());
    if !crate::text::bytes_eq(tail.as_slice(), suffix.as_slice()) {
        assert(!before_suffix().is_suffix_of(trimmed(line@))) by {
            if before_suffix().is_suffix_of(t@) {
                assert(tail@ =~= before_suffix());
            }
        }
        return None;
    }
    assert(before_suffix().is_suffix_of(t@)) by {
        assert(t@.skip(t@.len() - 9) =~= tail@);
    }
    let stem = crate::text::subvec(t.as_slice(), 0, t.len() - 9);
    assert(stem@ =~= t@.take(t@.len() - 9));
    let v = crate::text::trim_bytes(stem.as_slice());
    if v.len() == 0 {
        return None;
    }
    let dropped = crate::text::subvec(v.as_slice(), 1, v.len());
    assert(dropped@ =~= trimmed(t@.take(t@.len() - 9)).skip(1));
    let c = crate::text::trim_bytes(dropped.as_slice());
    Some(c)
}

/// What stylesheet extraction yields for one located file: the icon class
/// names in discovery order (duplicates possible), and the whole text with
/// every embedded relative reference rewritten, one line per input line,
/// each followed by a newline.
pub struct ExtractionResult {
    /// The harvested icon class names, in the order their lines appear.
    pub class_names: Vec<Vec<u8>>,
    /// The rewritten stylesheet text.
    pub rewritten_text: Vec<u8>,
}

/// The rewritten text of a whole stylesheet: each line rewritten, with a
/// newline after every line.
pub open spec fn extracted_text(lines: Seq<Seq<u8>>, dir: Seq<u8>) -> Seq<u8>
    decreases lines.len(),
{
    if lines.len() == 0 {
        Seq::empty()
    } else {
        extracted_text(lines.drop_last(), dir) + rewrite_line_seq(lines.last(), dir) + seq![10u8]
    }
}

/// The class names of a whole stylesheet, in line order: each rewritten
/// line contributes its class name, if it has one.
pub open spec fn extracted_classes(lines: Seq<Seq<u8>>, dir: Seq<u8>) -> Seq<Seq<u8>>
    decreases lines.len(),
{
    if lines.len() == 0 {
        Seq::empty()
    } else {
        extracted_classes(lines.drop_last(), dir) + match class_of_line_seq(
            rewrite_line_seq(lines.last(), dir),
        ) {
            Some(c) => seq![c],
            None => Seq::empty(),
        }
    }
}

/// Streams a located stylesheet line by line: rewrites each line's
/// embedded relative references against the resolved directory `dir`,
/// accumulates the rewritten text, and harvests the icon class names.
pub fn extract(lines: &Vec<Vec<u8>>, dir: &[u8]) -> (r: ExtractionResult)
    ensures
        r.rewritten_text@ == extracted_text(lines.deep_view(), dir@),
        r.class_names.deep_view() == extracted_classes(lines.deep_view(), dir@),
{
    let mut text: Vec<u8> = Vec::new();
    let mut classes: Vec<Vec<u8>> = Vec::new();
    let mut i: usize = 0;
    assert(lines.deep_view().take(0) =~= Seq::<Seq<u8>>::empty());
    assert(text@ =~= extracted_text(lines.deep_view().take(0), dir@));
    assert(classes.deep_view() =~= extracted_classes(lines.deep_view().take(0), dir@));
    while i < lines.len()
        invariant
            0 <= i <= lines@.len(),
            lines.deep_view().len() == lines@.len(),
            text@ == extracted_text(lines.deep_view().take(i as int), dir@),
            classes.deep_view() == extracted_classes(lines.deep_view().take(i as int), dir@),
        decreases lines@.len() - i,
    {
        let line = &lines[i];
        assert(line@ == lines.deep_view()[i as int]);
        let rewritten = rewrite_line(line.as_slice(), dir);
        match class_of_line(rewritten.as_slice()) {
            Some(c) => {
                classes.push(c);
            },
            None => {},
        }
        crate::text::extend_from(&mut text, rewritten.as_slice());
        text.push(10);
        proof {
            let dv = lines.deep_view();
            assert(dv.take(i + 1).drop_last() =~= dv.take(i as int));
            assert(dv.take(i + 1).last() == dv[i as int]);
            assert(text@ =~= extracted_text(dv.take(i + 1), dir@));
            assert(classes.deep_view() =~~= extracted_classes(dv.take(i + 1), dir@));
        }
        i = i + 1;
    }
    assert(lines.deep_view().take(lines@.len() as int) =~= lines.deep_view());
    ExtractionResult { class_names: classes, rewritten_text: text }
}

} // verus!
