//! Directory-scan grouping: the walk of the root directory is given as a
//! sequence of entries (path segments relative to the root, plus whether
//! the entry is a directory), and the scanner applies the traversal
//! filters and groups the admitted image files into per-project
//! collections.
//!
//! Filtering rules: an entry any of whose path segments starts with `.`
//! or equals an ignored name is excluded together with its subtree; at
//! depth 1 only directories are admitted, and each becomes a project;
//! files at depth 2 or deeper whose extension, ASCII-lower-cased (see
//! `text::lower`), is in the allowed list become image assets of the
//! project named by their first segment.

use vstd::prelude::*;

use crate::paths::{norm, slash_seq};
use crate::text::lower;

verus! {

/// The byte `.`.
pub const DOT: u8 = 46;

/// One discovered image file.
pub struct ImageAsset {
    /// The file name without its extension.
    pub base_name: Vec<u8>,
    /// The absolute path of the file, forward-slashed.
    pub absolute_path: Vec<u8>,
    /// The file's extension, lower-cased.
    pub extension: Vec<u8>,
}

/// The mathematical value of an `ImageAsset`.
pub struct ImageAssetView {
    pub base_name: Seq<u8>,
    pub absolute_path: Seq<u8>,
    pub extension: Seq<u8>,
}

impl View for ImageAsset {
    type V = ImageAssetView;

    open spec fn view(&self) -> ImageAssetView {
        ImageAssetView {
            base_name: self.base_name@,
            absolute_path: self.absolute_path@,
            extension: self.extension@,
        }
    }
}

/// One project: a top-level directory under the scan root, with the image
/// assets discovered in its subtree, in discovery order.
pub struct ProjectEntry {
    /// The directory's name; the project's identity.
    pub name: Vec<u8>,
    /// The directory's absolute path, forward-slashed.
    pub absolute_path: Vec<u8>,
    /// The images of the project's subtree, in discovery order.
    pub images: Vec<ImageAsset>,
}

/// The mathematical value of a `ProjectEntry`.
pub struct ProjectEntryView {
    pub name: Seq<u8>,
    pub absolute_path: Seq<u8>,
    pub images: Seq<ImageAssetView>,
}

impl View for ProjectEntry {
    type V = ProjectEntryView;

    open spec fn view(&self) -> ProjectEntryView {
        ProjectEntryView {
            name: self.name@,
            absolute_path: self.absolute_path@,
            images: self.images@.map_values(|a: ImageAsset| a@),
        }
    }
}

/// One entry of the directory walk, as the unverified walker reports it:
/// the path segments relative to the scan root (so the entry's depth is
/// the number of segments), and whether the entry is a directory.
pub struct WalkEntry {
    /// The path segments relative to the root; never empty for a walked
    /// entry (the root itself is not reported).
    pub segments: Vec<Vec<u8>>,
    /// Whether the entry is a directory (after following links).
    pub is_dir: bool,
}

/// The mathematical value of a `WalkEntry`.
pub struct WalkEntryView {
    pub segments: Seq<Seq<u8>>,
    pub is_dir: bool,
}

impl View for WalkEntry {
    type V = WalkEntryView;

    open spec fn view(&self) -> WalkEntryView {
        WalkEntryView { segments: self.segments.deep_view(), is_dir: self.is_dir }
    }
}

/// The views of a list of projects.
pub open spec fn projects_view(m: Seq<ProjectEntry>) -> Seq<ProjectEntryView> {
    m.map_values(|p: ProjectEntry| p@)
}

/// The views of a list of image assets.
pub open spec fn images_view(s: Seq<ImageAsset>) -> Seq<ImageAssetView> {
    s.map_values(|a: ImageAsset| a@)
}

/// The views of a list of walk entries.
pub open spec fn entries_view(es: Seq<WalkEntry>) -> Seq<WalkEntryView> {
    es.map_values(|e: WalkEntry| e@)
}

/// A path segment that excludes its whole subtree from the scan: a name
/// starting with `.`, or one of the ignored names.
pub open spec fn segment_excluded(seg: Seq<u8>, ignored: Seq<Seq<u8>>) -> bool {
    (seg.len() > 0 && seg[0] == DOT) || ignored.contains(seg)
}

/// No segment of the path excludes the entry.
pub open spec fn entry_clean(segments: Seq<Seq<u8>>, ignored: Seq<Seq<u8>>) -> bool {
    forall|i: int| 0 <= i < segments.len() ==> !segment_excluded(#[trigger] segments[i], ignored)
}

/// An entry that becomes (or reuses) a project: an admitted directory at
/// depth 1.
pub open spec fn is_project_entry(e: WalkEntryView, ignored: Seq<Seq<u8>>) -> bool {
    e.segments.len() == 1 && e.is_dir && entry_clean(e.segments, ignored)
}

/// The position of the last `.` in a file name, if any.
pub open spec fn last_dot(name: Seq<u8>) -> Option<int>
    decreases name.len(),
{
    if name.len() == 0 {
        None
    } else if name[name.len() - 1] == DOT {
        Some(name.len() - 1)
    } else {
        last_dot(name.take(name.len() - 1))
    }
}

/// The extension of a file name: what follows the last `.`, provided that
/// dot is neither absent nor the leading byte.
pub open spec fn ext_of(name: Seq<u8>) -> Option<Seq<u8>> {
    match last_dot(name) {
        Some(i) => if i > 0 {
            Some(name.skip(i + 1))
        } else {
            None
        },
        None => None,
    }
}

/// The stem of a file name: what precedes the extension's dot, or the
/// whole name when there is no extension.
pub open spec fn stem_of(name: Seq<u8>) -> Seq<u8> {
    match last_dot(name) {
        Some(i) => if i > 0 {
            name.take(i)
        } else {
            name
        },
        None => name,
    }
}

/// An entry that becomes an image asset: an admitted file at depth 2 or
/// deeper whose extension, ASCII-lower-cased, is allowed.
pub open spec fn is_image_entry(
    e: WalkEntryView,
    ignored: Seq<Seq<u8>>,
    allowed: Seq<Seq<u8>>,
) -> bool {
    &&& !e.is_dir
    &&& e.segments.len() >= 2
    &&& entry_clean(e.segments, ignored)
    &&& match ext_of(e.segments.last()) {
        Some(x) => allowed.contains(lower(x)),
        None => false,
    }
}

/// The path of an entry relative to the scan root, with `/` between the
/// segments.
pub open spec fn rel_path(segments: Seq<Seq<u8>>) -> Seq<u8>
    decreases segments.len(),
{
    if segments.len() == 0 {
        Seq::empty()
    } else if segments.len() == 1 {
        segments[0]
    } else {
        rel_path(segments.drop_last()) + slash_seq() + segments.last()
    }
}

/// The absolute, forward-slashed path of an entry under `root`.
pub open spec fn entry_path(root: Seq<u8>, segments: Seq<Seq<u8>>) -> Seq<u8> {
    norm(root + slash_seq() + rel_path(segments))
}

/// The absolute, forward-slashed path of the project named `name`.
pub open spec fn project_path(root: Seq<u8>, name: Seq<u8>) -> Seq<u8> {
    norm(root + slash_seq() + name)
}

/// The image asset an image entry yields.
pub open spec fn image_of(root: Seq<u8>, e: WalkEntryView) -> ImageAssetView {
    ImageAssetView {
        base_name: stem_of(e.segments.last()),
        absolute_path: entry_path(root, e.segments),
        extension: lower(ext_of(e.segments.last()) ->Some_0),
    }
}

/// The first project with the given name, if any.
pub open spec fn find_proj(m: Seq<ProjectEntryView>, name: Seq<u8>) -> Option<int>
    decreases m.len(),
{
    if m.len() == 0 {
        None
    } else if m[0].name == name {
        Some(0int)
    } else {
        match find_proj(m.skip(1), name) {
            Some(i) => Some(i + 1),
            None => None,
        }
    }
}

/// What a successful lookup means: a project with the name at the result,
/// none earlier.
pub proof fn lemma_find_proj_some(m: Seq<ProjectEntryView>, name: Seq<u8>, i: int)
    requires
        find_proj(m, name) == Some(i),
    ensures
        0 <= i < m.len(),
        m[i].name == name,
        forall|j: int| 0 <= j < i ==> m[j].name != name,
    decreases m.len(),
{
    if m.len() > 0 && m[0].name != name {
        match find_proj(m.skip(1), name) {
            Some(k) => {
                lemma_find_proj_some(m.skip(1), name, k);
                assert(forall|j: int| 1 <= j < i ==> m[j] == m.skip(1)[j - 1]);
            },
            None => {},
        }
    }
}

/// What a failed lookup means: no project bears the name.
pub proof fn lemma_find_proj_none(m: Seq<ProjectEntryView>, name: Seq<u8>)
    requires
        find_proj(m, name) is None,
    ensures
        forall|j: int| 0 <= j < m.len() ==> m[j].name != name,
    decreases m.len(),
{
    if m.len() > 0 {
        lemma_find_proj_none(m.skip(1), name);
        assert(forall|j: int| 1 <= j < m.len() ==> m[j] == m.skip(1)[j - 1]);
    }
}

/// How one walk entry changes the accumulated project list: a depth-1
/// directory ensures a project exists; an admitted image file is appended
/// to the images of the project named by its first segment, which is
/// created if the walk has not named it yet; every other entry changes
/// nothing.
pub open spec fn scan_step(
    root: Seq<u8>,
    ignored: Seq<Seq<u8>>,
    allowed: Seq<Seq<u8>>,
    m: Seq<ProjectEntryView>,
    e: WalkEntryView,
) -> Seq<ProjectEntryView> {
    if is_project_entry(e, ignored) {
        match find_proj(m, e.segments[0]) {
            Some(_) => m,
            None => m.push(
                ProjectEntryView {
                    name: e.segments[0],
                    absolute_path: project_path(root, e.segments[0]),
                    images: Seq::empty(),
                },
            ),
        }
    } else if is_image_entry(e, ignored, allowed) {
        let img = image_of(root, e);
        match find_proj(m, e.segments[0]) {
            Some(i) => m.update(
                i,
                ProjectEntryView {
                    name: m[i].name,
                    absolute_path: m[i].absolute_path,
                    images: m[i].images.push(img),
                },
            ),
            None => m.push(
                ProjectEntryView {
                    name: e.segments[0],
                    absolute_path: project_path(root, e.segments[0]),
                    images: seq![img],
                },
            ),
        }
    } else {
        m
    }
}

/// The project list a whole walk yields, entry by entry.
pub open spec fn scan_spec(
    root: Seq<u8>,
    ignored: Seq<Seq<u8>>,
    allowed: Seq<Seq<u8>>,
    entries: Seq<WalkEntryView>,
) -> Seq<ProjectEntryView>
    decreases entries.len(),
{
    if entries.len() == 0 {
        Seq::empty()
    } else {
        scan_step(
            root,
            ignored,
            allowed,
            scan_spec(root, ignored, allowed, entries.drop_last()),
            entries.last(),
        )
    }
}

/// Whether `name` is one of the byte strings in `list`.
pub fn contains_name(list: &Vec<Vec<u8>>, name: &[u8]) -> (r: bool)
    ensures
        r == list.deep_view().contains(name@),
{
    let mut i: usize = 0;
    while i < list.len()
        invariant
            0 <= i <= list@.len(),
            list.deep_view().len() == list@.len(),
            forall|j: int| 0 <= j < i ==> list.deep_view()[j] != name@,
        decreases list@.len() - i,
    {
        assert(list.deep_view()[i as int] == list@[i as int]@);
        if crate::text::bytes_eq(list[i].as_slice(), name) {
            assert(list.deep_view().contains(name@));
            return true;
        }
        i = i + 1;
    }
    assert(!list.deep_view().contains(name@));
    false
}

/// Whether one path segment excludes its subtree from the scan.
pub fn segment_excluded_exec(seg: &[u8], ignored: &Vec<Vec<u8>>) -> (r: bool)
    ensures
        r == segment_excluded(seg@, ignored.deep_view()),
{
    if seg.len() > 0 && seg[0] == DOT {
        true
    } else {
        contains_name(ignored, seg)
    }
}

/// Whether no segment of the path excludes the entry.
pub fn entry_clean_exec(segments: &Vec<Vec<u8>>, ignored: &Vec<Vec<u8>>) -> (r: bool)
    ensures
        r == entry_clean(segments.deep_view(), ignored.deep_view()),
{
    let mut i: usize = 0;
    while i < segments.len()
        invariant
            0 <= i <= segments@.len(),
            segments.deep_view().len() == segments@.len(),
            forall|j: int| 0 <= j < i ==> !segment_excluded(
                #[trigger] segments.deep_view()[j],
                ignored.deep_view(),
            ),
        decreases segments@.len() - i,
    {
        assert(segments.deep_view()[i as int] == segments@[i as int]@);
        if segment_excluded_exec(segments[i].as_slice(), ignored) {
            return false;
        }
        i = i + 1;
    }
    true
}

/// Where the last `.` of a file name stands: at the result, with none
/// after it.
pub proof fn lemma_last_dot_some(name: Seq<u8>, i: int)
    requires
        last_dot(name) == Some(i),
    ensures
        0 <= i < name.len(),
        name[i] == DOT,
    decreases name.len(),
{
    if name.len() > 0 && name[name.len() - 1] != DOT {
        lemma_last_dot_some(name.take(name.len() - 1), i);
        assert(name.take(name.len() - 1)[i] == name[i]);
    }
}

/// The position of the last `.` in a file name, if any.
pub fn last_dot_exec(name: &[u8]) -> (r: Option<usize>)
    ensures
        match r {
            Some(i) => last_dot(name@) == Some(i as int),
            None => last_dot(name@) is None,
        },
{
    let mut i: usize = name.len();
    assert(name@.take(name@.len() as int) =~= name@);
    while i > 0
        invariant
            0 <= i <= name@.len(),
            last_dot(name@) == last_dot(name@.take(i as int)),
        decreases i,
    {
        assert(name@.take(i as int).take(i - 1) =~= name@.take(i - 1));
        if name[i - 1] == DOT {
            assert(name@.take(i as int)[i - 1] == name@[i - 1]);
            return Some(i - 1);
        }
        assert(name@.take(i as int)[i - 1] == name@[i - 1]);
        i = i - 1;
    }
    assert(name@.take(0).len() == 0);
    None
}

/// The absolute, forward-slashed path of a walk entry under `root`.
pub fn entry_path_exec(root: &[u8], segments: &Vec<Vec<u8>>) -> (r: Vec<u8>)
    ensures
        r@ == entry_path(root@, segments.deep_view()),
{
    let mut cat: Vec<u8> = Vec::new();
    crate::text::extend_from(&mut cat, root);
    cat.push(crate::paths::SLASH);
    let mut i: usize = 0;
    assert(cat@ =~= root@ + slash_seq());
    while i < segments.len()
        invariant
            0 <= i <= segments@.len(),
            segments.deep_view().len() == segments@.len(),
            i == 0 ==> cat@ == root@ + slash_seq(),
            i > 0 ==> cat@ == root@ + slash_seq() + rel_path(segments.deep_view().take(i as int)),
        decreases segments@.len() - i,
    {
        let seg = &segments[i];
        assert(seg@ == segments.deep_view()[i as int]);
        if i > 0 {
            cat.push(crate::paths::SLASH);
        }
        crate::text::extend_from(&mut cat, seg.as_slice());
        proof {
            let dv = segments.deep_view();
            if i == 0 {
                assert(rel_path(dv.take(1)) == dv.take(1)[0]);
                assert(cat@ =~= root@ + slash_seq() + rel_path(dv.take(1)));
            } else {
                assert(dv.take(i + 1).drop_last() =~= dv.take(i as int));
                assert(dv.take(i + 1).last() == dv[i as int]);
                assert(rel_path(dv.take(i + 1)) == rel_path(dv.take(i as int)) + slash_seq()
                    + dv[i as int]);
                assert(cat@ =~= root@ + slash_seq() + rel_path(dv.take(i + 1)));
            }
        }
        i = i + 1;
    }
    proof {
        let dv = segments.deep_view();
        assert(dv.take(dv.len() as int) =~= dv);
        if segments@.len() == 0 {
            assert(rel_path(dv) == Seq::<u8>::empty());
            assert(cat@ =~= root@ + slash_seq() + rel_path(dv));
        }
    }
    crate::paths::normalize_separators(cat.as_slice())
}

/// The first project with the given name, if any.
pub fn find_project(m: &Vec<ProjectEntry>, name: &[u8]) -> (r: Option<usize>)
    ensures
        match r {
            Some(i) => find_proj(projects_view(m@), name@) == Some(i as int),
            None => find_proj(projects_view(m@), name@) is None,
        },
{
    let ghost pv = projects_view(m@);
    let mut i: usize = 0;
    assert(pv.skip(0) =~= pv);
    while i < m.len()
        invariant
            0 <= i <= m@.len(),
            pv == projects_view(m@),
            pv.len() == m@.len(),
            forall|j: int| 0 <= j < i ==> pv[j].name != name@,
            find_proj(pv, name@) == match find_proj(pv.skip(i as int), name@) {
                Some(k) => Some(k + i),
                None => None::<int>,
            },
        decreases m@.len() - i,
    {
        assert(pv[i as int] == m@[i as int]@);
        assert(pv.skip(i as int)[0] == pv[i as int]);
        if crate::text::bytes_eq(m[i].name.as_slice(), name) {
            return Some(i);
        }
        assert(pv.skip(i as int).skip(1) =~= pv.skip(i + 1));
        i = i + 1;
    }
    assert(pv.skip(i as int).len() == 0);
    None
}

/// Walks the given entries and groups the admitted image files into
/// per-project collections, applying the traversal filters: hidden and
/// ignored path segments exclude their subtree, depth-1 files are not
/// admitted, and a file's extension must, ASCII-lower-cased, be in the
/// allowed list. The resulting list holds the raw map: projects in
/// discovery order, each with its images in discovery order, possibly
/// empty.
pub fn scan(
    root: &[u8],
    entries: &Vec<WalkEntry>,
    allowed_extensions: &Vec<Vec<u8>>,
    ignored_names: &Vec<Vec<u8>>,
) -> (m: Vec<ProjectEntry>)
    ensures
        projects_view(m@) == scan_spec(
            root@,
            ignored_names.deep_view(),
            allowed_extensions.deep_view(),
            entries_view(entries@),
        ),
        names_unique(projects_view(m@)),
{
    let ghost ig = ignored_names.deep_view();
    let ghost al = allowed_extensions.deep_view();
    let ghost ev = entries_view(entries@);
    let mut m: Vec<ProjectEntry> = Vec::new();
    let mut idx: usize = 0;
    assert(projects_view(m@) =~= scan_spec(root@, ig, al, ev.take(0)));
    while idx < entries.len()
        invariant
            0 <= idx <= entries@.len(),
            ig == ignored_names.deep_view(),
            al == allowed_extensions.deep_view(),
            ev == entries_view(entries@),
            ev.len() == entries@.len(),
            projects_view(m@) == scan_spec(root@, ig, al, ev.take(idx as int)),
        decreases entries@.len() - idx,
    {
        let e = &entries[idx];
        assert(e@ == ev[idx as int]);
        let ghost before = projects_view(m@);
        let depth = e.segments.len();
        let clean = entry_clean_exec(&e.segments, ignored_names);
        if depth == 1 && e.is_dir && clean {
            assert(is_project_entry(e@, ig));
            let name = &e.segments[0];
            assert(name@ == e@.segments[0]);
            match find_project(&m, name.as_slice()) {
                Some(_) => {
                    assert(scan_step(root@, ig, al, before, e@) == before);
                },
                None => {
                    let path = entry_path_exec(root, &e.segments);
                    assert(path@ == project_path(root@, e@.segments[0])) by {
                        assert(rel_path(e@.segments) == e@.segments[0]);
                    }
                    let owned_name = crate::text::subvec(name.as_slice(), 0, name.len());
                    assert(owned_name@ =~= name@);
                    let entry = ProjectEntry {
                        name: owned_name,
                        absolute_path: path,
                        images: Vec::new(),
                    };
                    assert(entry@.images =~= Seq::<ImageAssetView>::empty());
                    m.push(entry);
                    assert(projects_view(m@) =~= scan_step(root@, ig, al, before, e@));
                },
            }
        } else if depth >= 2 && !e.is_dir && clean {
            let file_name = &e.segments[depth - 1];
            assert(file_name@ == e@.segments.last());
            let file_name_len: usize = file_name.len();
            match last_dot_exec(file_name.as_slice()) {
                Some(d) if d > 0 => {
                    proof {
                        lemma_last_dot_some(file_name@, d as int);
                    }
                    let ext = crate::text::subvec(file_name.as_slice(), d + 1, file_name_len);
                    assert(ext@ =~= file_name@.skip(d + 1));
                    assert(ext_of(e@.segments.last()) == Some(ext@));
                    let lowered = crate::text::to_ascii_lower(ext.as_slice());
                    if contains_name(allowed_extensions, lowered.as_slice()) {
                        assert(is_image_entry(e@, ig, al));
                        let stem = crate::text::subvec(file_name.as_slice(), 0, d);
                        assert(stem@ =~= file_name@.take(d as int));
                        let path = entry_path_exec(root, &e.segments);
                        let img = ImageAsset {
                            base_name: stem,
                            absolute_path: path,
                            extension: lowered,
                        };
                        assert(img@ == image_of(root@, e@));
                        let name = &e.segments[0];
                        assert(name@ == e@.segments[0]);
                        match find_project(&m, name.as_slice()) {
                            Some(i) => {
                                proof {
                                    lemma_find_proj_some(before, name@, i as int);
                                }
                                let ghost mv = m@;
                                let ghost imgv = img@;
                                let mut entry = m.remove(i);
                                entry.images.push(img);
                                let ghost entry1 = entry;
                                m.insert(i, entry);
                                proof {
                                    let pv_new = ProjectEntryView {
                                        name: before[i as int].name,
                                        absolute_path: before[i as int].absolute_path,
                                        images: before[i as int].images.push(imgv),
                                    };
                                    assert(entry1@.images =~= mv[i as int]@.images.push(imgv));
                                    assert(entry1@ == pv_new);
                                    assert(m@ == mv.remove(i as int).insert(i as int, entry1));
                                    assert forall|j: int| 0 <= j < m@.len() && j != i implies m@[j]
                                        == mv[j] by {
                                        if j < i {
                                            assert(mv.remove(i as int)[j] == mv[j]);
                                        } else {
                                            assert(mv.remove(i as int)[j - 1] == mv[j]);
                                        }
                                    }
                                    assert(projects_view(m@) =~= scan_step(
                                        root@,
                                        ig,
                                        al,
                                        before,
                                        e@,
                                    ));
                                }
                            },
                            None => {
                                let ppath = entry_path_exec_single(root, name.as_slice());
                                let ghost imgv = img@;
                                let mut images: Vec<ImageAsset> = Vec::new();
                                images.push(img);
                                let owned_name = crate::text::subvec(name.as_slice(), 0, name.len());
                                assert(owned_name@ =~= name@);
                                let entry = ProjectEntry {
                                    name: owned_name,
                                    absolute_path: ppath,
                                    images,
                                };
                                assert(entry@.images =~= seq![imgv]);
                                m.push(entry);
                                assert(projects_view(m@) =~= scan_step(root@, ig, al, before, e@));
                            },
                        }
                    } else {
                        assert(scan_step(root@, ig, al, before, e@) == before);
                    }
                },
                _ => {
                    assert(scan_step(root@, ig, al, before, e@) == before);
                },
            }
        } else {
            assert(scan_step(root@, ig, al, before, e@) == before) by {
                assert(!is_project_entry(e@, ig));
                assert(!is_image_entry(e@, ig, al));
            }
        }
        proof {
            assert(ev.take(idx + 1).drop_last() =~= ev.take(idx as int));
            assert(ev.take(idx + 1).last() == ev[idx as int]);
        }
        idx = idx + 1;
    }
    assert(ev.take(ev.len() as int) =~= ev);
    proof {
        lemma_scan_wf(root@, ig, al, ev);
    }
    m
}

/// The absolute, forward-slashed path of the project named `name`.
fn entry_path_exec_single(root: &[u8], name: &[u8]) -> (r: Vec<u8>)
    ensures
        r@ == project_path(root@, name@),
{
    let mut cat: Vec<u8> = Vec::new();
    crate::text::extend_from(&mut cat, root);
    cat.push(crate::paths::SLASH);
    crate::text::extend_from(&mut cat, name);
    assert(cat@ =~= root@ + slash_seq() + name@);
    crate::paths::normalize_separators(cat.as_slice())
}

/// No two projects bear the same name.
pub open spec fn names_unique(m: Seq<ProjectEntryView>) -> bool {
    forall|i: int, j: int| 0 <= i < j < m.len() ==> (#[trigger] m[i].name) != (#[trigger] m[j].name)
}

/// The shape every scan result has: unique names, each project's path the
/// root joined with its name, and no project named by an excluded segment.
pub open spec fn projects_wf(root: Seq<u8>, ignored: Seq<Seq<u8>>, m: Seq<ProjectEntryView>) -> bool {
    &&& names_unique(m)
    &&& forall|i: int| 0 <= i < m.len() ==> (#[trigger] m[i]).absolute_path == project_path(
        root,
        m[i].name,
    )
    &&& forall|i: int| 0 <= i < m.len() ==> !segment_excluded((#[trigger] m[i]).name, ignored)
}

/// Some image entry of the walk accounts for the image at `(i, j)` of the
/// result: its first segment names the project, and it yields the image.
pub open spec fn image_witnessed(
    root: Seq<u8>,
    ignored: Seq<Seq<u8>>,
    allowed: Seq<Seq<u8>>,
    entries: Seq<WalkEntryView>,
    m: Seq<ProjectEntryView>,
    i: int,
    j: int,
) -> bool {
    exists|k: int|
        {
            &&& 0 <= k < entries.len()
            &&& is_image_entry(#[trigger] entries[k], ignored, allowed)
            &&& entries[k].segments[0] == m[i].name
            &&& m[i].images[j] == image_of(root, entries[k])
        }
}

/// Every image of the result stems from an image entry of the walk whose
/// first segment names the image's project.
pub open spec fn scan_complete(
    root: Seq<u8>,
    ignored: Seq<Seq<u8>>,
    allowed: Seq<Seq<u8>>,
    entries: Seq<WalkEntryView>,
    m: Seq<ProjectEntryView>,
) -> bool {
    forall|i: int, j: int|
        0 <= i < m.len() && 0 <= j < m[i].images.len() ==> #[trigger] image_witnessed(
            root,
            ignored,
            allowed,
            entries,
            m,
            i,
            j,
        )
}

/// Picks, for an image the result holds, the walk entry it stems from.
proof fn complete_witness(
    root: Seq<u8>,
    ignored: Seq<Seq<u8>>,
    allowed: Seq<Seq<u8>>,
    entries: Seq<WalkEntryView>,
    m: Seq<ProjectEntryView>,
    i: int,
    j: int,
) -> (k: int)
    requires
        scan_complete(root, ignored, allowed, entries, m),
        0 <= i < m.len(),
        0 <= j < m[i].images.len(),
    ensures
        0 <= k < entries.len(),
        is_image_entry(entries[k], ignored, allowed),
        entries[k].segments[0] == m[i].name,
        m[i].images[j] == image_of(root, entries[k]),
{
    assert(image_witnessed(root, ignored, allowed, entries, m, i, j));
    choose|k: int|
        {
            &&& 0 <= k < entries.len()
            &&& is_image_entry(#[trigger] entries[k], ignored, allowed)
            &&& entries[k].segments[0] == m[i].name
            &&& m[i].images[j] == image_of(root, entries[k])
        }
}

/// The scan's result is well-shaped and holds only images the walk shows.
pub proof fn lemma_scan_wf(
    root: Seq<u8>,
    ignored: Seq<Seq<u8>>,
    allowed: Seq<Seq<u8>>,
    entries: Seq<WalkEntryView>,
)
    ensures
        projects_wf(root, ignored, scan_spec(root, ignored, allowed, entries)),
        scan_complete(root, ignored, allowed, entries, scan_spec(root, ignored, allowed, entries)),
    decreases entries.len(),
{
    if entries.len() == 0 {
    } else {
        let prev = entries.drop_last();
        let e = entries.last();
        let mp = scan_spec(root, ignored, allowed, prev);
        let m = scan_step(root, ignored, allowed, mp, e);
        lemma_scan_wf(root, ignored, allowed, prev);
        assert(forall|k: int| 0 <= k < prev.len() ==> prev[k] == entries[k]);

        // well-shapedness is preserved by the step
        if is_project_entry(e, ignored) {
            match find_proj(mp, e.segments[0]) {
                Some(_) => {},
                None => {
                    lemma_find_proj_none(mp, e.segments[0]);
                },
            }
        } else if is_image_entry(e, ignored, allowed) {
            match find_proj(mp, e.segments[0]) {
                Some(i) => {
                    lemma_find_proj_some(mp, e.segments[0], i);
                },
                None => {
                    lemma_find_proj_none(mp, e.segments[0]);
                },
            }
        }
        assert(projects_wf(root, ignored, m));

        // completeness is preserved: old images keep their witnesses, and
        // a new image has the last entry as its witness
        assert forall|i: int, j: int|
            0 <= i < m.len() && 0 <= j < m[i].images.len() implies image_witnessed(
            root,
            ignored,
            allowed,
            entries,
            m,
            i,
            j,
        ) by {
            let from_prev = i < mp.len() && m[i].name == mp[i].name && j < mp[i].images.len()
                && m[i].images[j] == mp[i].images[j];
            if from_prev {
                let k = complete_witness(root, ignored, allowed, prev, mp, i, j);
                assert(entries[k] == prev[k]);
                assert({
                    &&& 0 <= k < entries.len()
                    &&& is_image_entry(entries[k], ignored, allowed)
                    &&& entries[k].segments[0] == m[i].name
                    &&& m[i].images[j] == image_of(root, entries[k])
                });
            } else {
                // the image is the one the last entry contributed
                assert(is_image_entry(e, ignored, allowed));
                let klast = entries.len() - 1;
                assert(entries[klast] == e);
                match find_proj(mp, e.segments[0]) {
                    Some(p) => {
                        lemma_find_proj_some(mp, e.segments[0], p);
                        assert(i == p && j == mp[i].images.len());
                        assert(m[i].images[j] == image_of(root, e));
                        assert(m[i].name == e.segments[0]);
                    },
                    None => {
                        assert(i == mp.len() && j == 0);
                        assert(m[i].images[j] == image_of(root, e));
                        assert(m[i].name == e.segments[0]);
                    },
                }
                assert(is_image_entry(entries[klast], ignored, allowed));
            }
        }
    }
}

/// One scan step never drops an image: the project at `i` keeps its name,
/// and the image at `(i, j)` stays where it is.
pub proof fn lemma_step_preserves_image(
    root: Seq<u8>,
    ignored: Seq<Seq<u8>>,
    allowed: Seq<Seq<u8>>,
    m: Seq<ProjectEntryView>,
    e: WalkEntryView,
    i: int,
    j: int,
)
    requires
        0 <= i < m.len(),
        0 <= j < m[i].images.len(),
    ensures
        ({
            let m2 = scan_step(root, ignored, allowed, m, e);
            &&& m.len() <= m2.len()
            &&& m2[i].name == m[i].name
            &&& 0 <= j < m2[i].images.len()
            &&& m2[i].images[j] == m[i].images[j]
        }),
{
    if is_project_entry(e, ignored) {
    } else if is_image_entry(e, ignored, allowed) {
        match find_proj(m, e.segments[0]) {
            Some(p) => {
                lemma_find_proj_some(m, e.segments[0], p);
            },
            None => {},
        }
    }
}

/// An admitted image file of the walk appears among its project's images.
pub proof fn lemma_scan_includes_image(
    root: Seq<u8>,
    ignored: Seq<Seq<u8>>,
    allowed: Seq<Seq<u8>>,
    entries: Seq<WalkEntryView>,
    k: int,
)
    requires
        0 <= k < entries.len(),
        is_image_entry(entries[k], ignored, allowed),
    ensures
        ({
            let m = scan_spec(root, ignored, allowed, entries);
            exists|i: int, j: int|
                {
                    &&& 0 <= i < m.len()
                    &&& (#[trigger] m[i]).name == entries[k].segments[0]
                    &&& 0 <= j < m[i].images.len()
                    &&& (#[trigger] m[i].images[j]) == image_of(root, entries[k])
                }
        }),
    decreases entries.len(),
{
    let prev = entries.drop_last();
    let e = entries.last();
    let mp = scan_spec(root, ignored, allowed, prev);
    let m = scan_spec(root, ignored, allowed, entries);
    if k == entries.len() - 1 {
        match find_proj(mp, e.segments[0]) {
            Some(p) => {
                lemma_find_proj_some(mp, e.segments[0], p);
                assert(m[p].name == e.segments[0]);
                assert(m[p].images[mp[p].images.len() as int] == image_of(root, e));
            },
            None => {
                assert(m[mp.len() as int].name == e.segments[0]);
                assert(m[mp.len() as int].images[0] == image_of(root, e));
            },
        }
    } else {
        assert(prev[k] == entries[k]);
        lemma_scan_includes_image(root, ignored, allowed, prev, k);
        let (i, j): (int, int) = choose|i: int, j: int|
            {
                &&& 0 <= i < mp.len()
                &&& (#[trigger] mp[i]).name == entries[k].segments[0]
                &&& 0 <= j < mp[i].images.len()
                &&& (#[trigger] mp[i].images[j]) == image_of(root, entries[k])
            };
        lemma_step_preserves_image(root, ignored, allowed, mp, e, i, j);
        assert(m[i].name == entries[k].segments[0]);
        assert(m[i].images[j] == image_of(root, entries[k]));
    }
}

/// Extension filtering: a clean file of the walk, at depth 2 or deeper and
/// with extension `x`, appears as an image asset of the project named by
/// its first segment exactly when `x`, lower-cased, is in the allowed
/// list.
pub proof fn lemma_extension_filtering(
    root: Seq<u8>,
    ignored: Seq<Seq<u8>>,
    allowed: Seq<Seq<u8>>,
    entries: Seq<WalkEntryView>,
    k: int,
    x: Seq<u8>,
)
    requires
        0 <= k < entries.len(),
        !entries[k].is_dir,
        entries[k].segments.len() >= 2,
        entry_clean(entries[k].segments, ignored),
        ext_of(entries[k].segments.last()) == Some(x),
    ensures
        ({
            let m = scan_spec(root, ignored, allowed, entries);
            (exists|i: int, j: int|
                {
                    &&& 0 <= i < m.len()
                    &&& (#[trigger] m[i]).name == entries[k].segments[0]
                    &&& 0 <= j < m[i].images.len()
                    &&& (#[trigger] m[i].images[j]) == image_of(root, entries[k])
                }) <==> allowed.contains(lower(x))
        }),
{
    let m = scan_spec(root, ignored, allowed, entries);
    if allowed.contains(lower(x)) {
        assert(is_image_entry(entries[k], ignored, allowed));
        lemma_scan_includes_image(root, ignored, allowed, entries, k);
    }
    if exists|i: int, j: int|
        {
            &&& 0 <= i < m.len()
            &&& (#[trigger] m[i]).name == entries[k].segments[0]
            &&& 0 <= j < m[i].images.len()
            &&& (#[trigger] m[i].images[j]) == image_of(root, entries[k])
        } {
        let (i, j): (int, int) = choose|i: int, j: int|
            {
                &&& 0 <= i < m.len()
                &&& (#[trigger] m[i]).name == entries[k].segments[0]
                &&& 0 <= j < m[i].images.len()
                &&& (#[trigger] m[i].images[j]) == image_of(root, entries[k])
            };
        lemma_scan_wf(root, ignored, allowed, entries);
        let k2 = complete_witness(root, ignored, allowed, entries, m, i, j);
        assert(image_of(root, entries[k2]).extension == image_of(root, entries[k]).extension);
        assert(allowed.contains(lower(ext_of(entries[k2].segments.last()) ->Some_0)));
    }
}

/// Some entry of the walk, all of whose path segments are clean, accounts
/// for the image at `(i, j)` of the result.
pub open spec fn image_from_clean_entry(
    root: Seq<u8>,
    ignored: Seq<Seq<u8>>,
    entries: Seq<WalkEntryView>,
    m: Seq<ProjectEntryView>,
    i: int,
    j: int,
) -> bool {
    exists|k: int|
        {
            &&& 0 <= k < entries.len()
            &&& entry_clean((#[trigger] entries[k]).segments, ignored)
            &&& m[i].images[j] == image_of(root, entries[k])
        }
}

/// Hidden/ignored exclusion: nothing the scan returns stems from a path
/// with an excluded segment — every project's name is a clean segment of
/// the walk, and every image comes from an entry all of whose segments are
/// clean.
pub proof fn lemma_hidden_ignored_excluded(
    root: Seq<u8>,
    ignored: Seq<Seq<u8>>,
    allowed: Seq<Seq<u8>>,
    entries: Seq<WalkEntryView>,
)
    ensures
        ({
            let m = scan_spec(root, ignored, allowed, entries);
            &&& forall|i: int| 0 <= i < m.len() ==> !segment_excluded(
                (#[trigger] m[i]).name,
                ignored,
            )
            &&& forall|i: int, j: int|
                0 <= i < m.len() && 0 <= j < m[i].images.len() ==> #[trigger] image_from_clean_entry(
                    root,
                    ignored,
                    entries,
                    m,
                    i,
                    j,
                )
        }),
{
    let m = scan_spec(root, ignored, allowed, entries);
    lemma_scan_wf(root, ignored, allowed, entries);
    assert forall|i: int, j: int|
        0 <= i < m.len() && 0 <= j < m[i].images.len() implies image_from_clean_entry(
        root,
        ignored,
        entries,
        m,
        i,
        j,
    ) by {
        let k = complete_witness(root, ignored, allowed, entries, m, i, j);
        assert(entry_clean(entries[k].segments, ignored));
    }
}

/// A path of two or more segments starts with its first segment: the
/// relative path decomposes into head, slash and tail.
proof fn lemma_rel_path_head(segments: Seq<Seq<u8>>)
    requires
        segments.len() >= 2,
    ensures
        rel_path(segments) == segments[0] + slash_seq() + rel_path(segments.skip(1)),
    decreases segments.len(),
{
    if segments.len() == 2 {
        assert(segments.drop_last() =~= seq![segments[0]]);
        assert(segments.skip(1) =~= seq![segments[1]]);
        assert(rel_path(segments) == segments[0] + slash_seq() + segments[1]);
    } else {
        lemma_rel_path_head(segments.drop_last());
        assert(segments.drop_last()[0] == segments[0]);
        assert(segments.drop_last().skip(1) =~= segments.skip(1).drop_last());
        assert(segments.skip(1).last() == segments.last());
        assert(segments.skip(1).len() >= 2);
        assert(rel_path(segments.skip(1)) == rel_path(segments.skip(1).drop_last()) + slash_seq()
            + segments.skip(1).last());
        assert(rel_path(segments) == rel_path(segments.drop_last()) + slash_seq()
            + segments.last());
        assert(rel_path(segments) =~= segments[0] + slash_seq() + rel_path(segments.skip(1)));
    }
}

/// The project's path plus `/` opens the absolute path of every entry in
/// its subtree.
pub proof fn lemma_project_path_prefix(root: Seq<u8>, segments: Seq<Seq<u8>>)
    requires
        segments.len() >= 2,
    ensures
        (project_path(root, segments[0]) + slash_seq()).is_prefix_of(entry_path(root, segments)),
{
    lemma_rel_path_head(segments);
    let head = root + slash_seq() + segments[0] + slash_seq();
    let tail = rel_path(segments.skip(1));
    assert(root + slash_seq() + rel_path(segments) =~= head + tail);
    crate::paths::lemma_norm_concat(head, tail);
    assert(norm(head) =~= norm(root + slash_seq() + segments[0]) + slash_seq()) by {
        crate::paths::lemma_norm_concat(root + slash_seq() + segments[0], slash_seq());
        assert(norm(slash_seq()) =~= slash_seq());
        assert(root + slash_seq() + segments[0] + slash_seq() =~= (root + slash_seq()
            + segments[0]) + slash_seq());
    }
    assert(entry_path(root, segments) == (project_path(root, segments[0]) + slash_seq()) + norm(
        tail,
    ));
    assert((project_path(root, segments[0]) + slash_seq()).is_prefix_of(
        (project_path(root, segments[0]) + slash_seq()) + norm(tail),
    )) by {
        assert(((project_path(root, segments[0]) + slash_seq()) + norm(tail)).take(
            (project_path(root, segments[0]) + slash_seq()).len() as int,
        ) =~= project_path(root, segments[0]) + slash_seq());
    }
}

/// Project grouping: project names are unique, each project's absolute
/// path is the root joined with its name, and every image asset lies in
/// the subtree of the one project that holds it: the project's path plus
/// `/` opens the image's absolute path.
pub proof fn lemma_project_grouping(
    root: Seq<u8>,
    ignored: Seq<Seq<u8>>,
    allowed: Seq<Seq<u8>>,
    entries: Seq<WalkEntryView>,
)
    ensures
        ({
            let m = scan_spec(root, ignored, allowed, entries);
            &&& names_unique(m)
            &&& forall|i: int| 0 <= i < m.len() ==> (#[trigger] m[i]).absolute_path
                == project_path(root, m[i].name)
            &&& forall|i: int, j: int|
                0 <= i < m.len() && 0 <= j < m[i].images.len() ==> (m[i].absolute_path
                    + slash_seq()).is_prefix_of((#[trigger] m[i].images[j]).absolute_path)
        }),
{
    let m = scan_spec(root, ignored, allowed, entries);
    lemma_scan_wf(root, ignored, allowed, entries);
    assert forall|i: int, j: int| 0 <= i < m.len() && 0 <= j < m[i].images.len() implies (
    m[i].absolute_path + slash_seq()).is_prefix_of(
        (#[trigger] m[i].images[j]).absolute_path,
    ) by {
        let k = complete_witness(root, ignored, allowed, entries, m, i, j);
        lemma_project_path_prefix(root, entries[k].segments);
    }
}

/// The projects of `m` that hold at least one image, in order.
pub open spec fn keep_nonempty(m: Seq<ProjectEntryView>) -> Seq<ProjectEntryView>
    decreases m.len(),
{
    if m.len() == 0 {
        Seq::empty()
    } else {
        keep_nonempty(m.drop_last()) + if m.last().images.len() > 0 {
            seq![m.last()]
        } else {
            Seq::empty()
        }
    }
}

/// Empty-project pruning: what remains are exactly the projects with at
/// least one image — a project is kept, unchanged, if and only if its
/// image list is not empty.
pub proof fn lemma_keep_nonempty(m: Seq<ProjectEntryView>)
    ensures
        forall|i: int| 0 <= i < keep_nonempty(m).len() ==> (#[trigger] keep_nonempty(
            m,
        )[i]).images.len() > 0,
        forall|p: ProjectEntryView| #[trigger]
            keep_nonempty(m).contains(p) <==> m.contains(p) && p.images.len() > 0,
    decreases m.len(),
{
    if m.len() > 0 {
        let prev = m.drop_last();
        lemma_keep_nonempty(prev);
        assert forall|p: ProjectEntryView| #[trigger]
            keep_nonempty(m).contains(p) <==> m.contains(p) && p.images.len() > 0 by {
            if keep_nonempty(m).contains(p) {
                let i = choose|i: int|
                    0 <= i < keep_nonempty(m).len() && keep_nonempty(m)[i] == p;
                if i < keep_nonempty(prev).len() {
                    assert(keep_nonempty(prev)[i] == p);
                    assert(keep_nonempty(prev).contains(p));
                    let k = choose|k: int| 0 <= k < prev.len() && prev[k] == p;
                    assert(m[k] == p);
                } else {
                    assert(p == m.last());
                    assert(m[m.len() - 1] == p);
                }
                assert(m.contains(p));
            }
            if m.contains(p) && p.images.len() > 0 {
                let k = choose|k: int| 0 <= k < m.len() && m[k] == p;
                if k < m.len() - 1 {
                    assert(prev[k] == p);
                    assert(prev.contains(p));
                    assert(keep_nonempty(prev).contains(p));
                    let i = choose|i: int|
                        0 <= i < keep_nonempty(prev).len() && keep_nonempty(prev)[i] == p;
                    assert(keep_nonempty(m)[i] == p);
                } else {
                    assert(keep_nonempty(m)[keep_nonempty(m).len() - 1] == p);
                }
                assert(keep_nonempty(m).contains(p));
            }
        }
    }
}

/// Removes the projects that hold no image. The scanner returns the raw
/// map; this separate step is the caller's, applied once the traversal is
/// done.
pub fn prune_empty(m: Vec<ProjectEntry>) -> (r: Vec<ProjectEntry>)
    ensures
        projects_view(r@) == keep_nonempty(projects_view(m@)),
        forall|i: int| 0 <= i < r@.len() ==> (#[trigger] r@[i]@).images.len() > 0,
{
    let ghost orig = m@;
    let ghost mv = projects_view(m@);
    let total: usize = m.len();
    let mut src = m;
    let mut r: Vec<ProjectEntry> = Vec::new();
    let mut i: usize = 0;
    assert(projects_view(r@) =~= keep_nonempty(mv.take(0)));
    assert(src@ =~= orig.skip(0));
    while src.len() > 0
        invariant
            0 <= i <= total,
            total == orig.len(),
            mv == projects_view(orig),
            mv.len() == orig.len(),
            src@ == orig.skip(i as int),
            projects_view(r@) == keep_nonempty(mv.take(i as int)),
        decreases src@.len(),
    {
        let x = src.remove(0);
        assert(x == orig[i as int]);
        let ghost r_before = projects_view(r@);
        if x.images.len() > 0 {
            r.push(x);
        }
        proof {
            assert(mv.take(i + 1).drop_last() =~= mv.take(i as int));
            assert(mv.take(i + 1).last() == mv[i as int]);
            assert(mv[i as int] == orig[i as int]@);
            assert(projects_view(r@) =~= keep_nonempty(mv.take(i + 1)));
            assert(src@ =~= orig.skip(i + 1));
        }
        i = i + 1;
    }
    proof {
        assert(i == orig.len());
        assert(mv.take(mv.len() as int) =~= mv);
        lemma_keep_nonempty(mv);
        assert forall|k: int| 0 <= k < r@.len() implies (#[trigger] r@[k]@).images.len() > 0 by {
            assert(projects_view(r@)[k] == r@[k]@);
            assert(keep_nonempty(mv)[k].images.len() > 0);
        }
    }
    r
}

} // verus!
