//! Two-phase location of an auxiliary stylesheet: the conventional default
//! directory is tried first, unconditionally; only when no file is there,
//! and a relative search suffix is configured, the discovered projects are
//! searched, in the order given (the caller passes them sorted by name for
//! deterministic results), at that fixed offset.
//!
//! The library computes the candidate locations and picks the first that
//! exists; testing existence on disk is the caller's part.

use vstd::prelude::*;

use crate::paths::SLASH;
use crate::scan::{ProjectEntry, DOT};

verus! {

/// A descriptor of one auxiliary stylesheet: where it conventionally
/// lives, what it is called, and where else it may be found relative to a
/// project.
pub struct SpecialFileDescriptor {
    /// A descriptive title for messages and the report.
    pub title: Vec<u8>,
    /// The file name without its extension.
    pub name_stem: Vec<u8>,
    /// The file's extension, without the dot.
    pub extension: Vec<u8>,
    /// The directory tried first, unconditionally.
    pub default_directory: Vec<u8>,
    /// Appended to a project's path to form a fallback directory; absent
    /// when the file can live only at the default directory.
    pub relative_search_suffix: Option<Vec<u8>>,
    /// The directory where the file was found; set exactly once, by
    /// `resolve`, and only when a file was found.
    pub resolved_directory: Option<Vec<u8>>,
}

/// The file name a descriptor looks for: `stem.extension`.
pub open spec fn descriptor_file_name(stem: Seq<u8>, extension: Seq<u8>) -> Seq<u8> {
    stem + seq![DOT] + extension
}

/// The file path a directory and a descriptor's name yield:
/// `directory/stem.extension`.
pub open spec fn file_path_in(directory: Seq<u8>, stem: Seq<u8>, extension: Seq<u8>) -> Seq<u8> {
    directory + seq![SLASH] + descriptor_file_name(stem, extension)
}

impl SpecialFileDescriptor {
    /// Builds a descriptor; nothing is resolved yet.
    pub fn new(
        title: Vec<u8>,
        name_stem: Vec<u8>,
        extension: Vec<u8>,
        default_directory: Vec<u8>,
        relative_search_suffix: Option<Vec<u8>>,
    ) -> (d: SpecialFileDescriptor)
        ensures
            d.title == title,
            d.name_stem == name_stem,
            d.extension == extension,
            d.default_directory == default_directory,
            d.relative_search_suffix == relative_search_suffix,
            d.resolved_directory is None,
    {
        SpecialFileDescriptor {
            title,
            name_stem,
            extension,
            default_directory,
            relative_search_suffix,
            resolved_directory: None,
        }
    }

    /// The file name this descriptor looks for.
    pub fn file_name(&self) -> (r: Vec<u8>)
        ensures
            r@ == descriptor_file_name(self.name_stem@, self.extension@),
    {
        let mut v: Vec<u8> = Vec::new();
        crate::text::extend_from(&mut v, self.name_stem.as_slice());
        v.push(DOT);
        crate::text::extend_from(&mut v, self.extension.as_slice());
        assert(v@ =~= descriptor_file_name(self.name_stem@, self.extension@));
        v
    }

    /// The path tried first: the file at the default directory.
    pub fn default_file_path(&self) -> (r: Vec<u8>)
        ensures
            r@ == file_path_in(self.default_directory@, self.name_stem@, self.extension@),
    {
        let mut v: Vec<u8> = Vec::new();
        crate::text::extend_from(&mut v, self.default_directory.as_slice());
        v.push(SLASH);
        let name = self.file_name();
        crate::text::extend_from(&mut v, name.as_slice());
        assert(v@ =~= file_path_in(self.default_directory@, self.name_stem@, self.extension@));
        v
    }
}

/// One place a descriptor's file may live: the directory, and the full
/// path of the file in it.
pub struct CandidateLocation {
    /// The directory, recorded as the resolved directory when the file is
    /// found here.
    pub directory: Vec<u8>,
    /// The full path of the file in the directory.
    pub file_path: Vec<u8>,
}

/// The directory of the fallback candidate a project yields: the project's
/// path with the search suffix appended.
pub open spec fn fallback_directory(project_path: Seq<u8>, suffix: Seq<u8>) -> Seq<u8> {
    project_path + suffix
}

/// The places to try, in order: the default directory first; then, when a
/// search suffix is configured, each project's fallback directory, in the
/// order the projects are given.
pub fn candidate_locations(d: &SpecialFileDescriptor, projects: &Vec<ProjectEntry>) -> (r: Vec<
    CandidateLocation,
>)
    ensures
        r@.len() == 1 + if d.relative_search_suffix is Some {
            projects@.len()
        } else {
            0
        },
        r@[0].directory@ == d.default_directory@,
        r@[0].file_path@ == file_path_in(d.default_directory@, d.name_stem@, d.extension@),
        forall|i: int|
            1 <= i < r@.len() ==> {
                &&& (#[trigger] r@[i]).directory@ == fallback_directory(
                    projects@[i - 1]@.absolute_path,
                    d.relative_search_suffix->Some_0@,
                )
                &&& r@[i].file_path@ == file_path_in(
                    fallback_directory(
                        projects@[i - 1]@.absolute_path,
                        d.relative_search_suffix->Some_0@,
                    ),
                    d.name_stem@,
                    d.extension@,
                )
            },
{
    let mut r: Vec<CandidateLocation> = Vec::new();
    let default_dir = crate::text::subvec(
        d.default_directory.as_slice(),
        0,
        d.default_directory.len(),
    );
    assert(default_dir@ =~= d.default_directory@);
    let default_path = d.default_file_path();
    r.push(CandidateLocation { directory: default_dir, file_path: default_path });
    let name = d.file_name();
    match &d.relative_search_suffix {
        None => r,
        Some(suffix) => {
            let mut i: usize = 0;
            while i < projects.len()
                invariant
                    0 <= i <= projects@.len(),
                    d.relative_search_suffix matches Some(s) && s == suffix,
                    name@ == descriptor_file_name(d.name_stem@, d.extension@),
                    r@.len() == 1 + i,
                    r@[0].directory@ == d.default_directory@,
                    r@[0].file_path@ == file_path_in(
                        d.default_directory@,
                        d.name_stem@,
                        d.extension@,
                    ),
                    forall|k: int|
                        1 <= k < r@.len() ==> {
                            &&& (#[trigger] r@[k]).directory@ == fallback_directory(
                                projects@[k - 1]@.absolute_path,
                                suffix@,
                            )
                            &&& r@[k].file_path@ == file_path_in(
                                fallback_directory(projects@[k - 1]@.absolute_path, suffix@),
                                d.name_stem@,
                                d.extension@,
                            )
                        },
                decreases projects@.len() - i,
            {
                let project = &projects[i];
                let mut dir: Vec<u8> = Vec::new();
                crate::text::extend_from(&mut dir, project.absolute_path.as_slice());
                crate::text::extend_from(&mut dir, suffix.as_slice());
                assert(dir@ =~= fallback_directory(projects@[i as int]@.absolute_path, suffix@));
                let mut path: Vec<u8> = Vec::new();
                crate::text::extend_from(&mut path, dir.as_slice());
                path.push(SLASH);
                crate::text::extend_from(&mut path, name.as_slice());
                assert(path@ =~= file_path_in(dir@, d.name_stem@, d.extension@));
                r.push(CandidateLocation { directory: dir, file_path: path });
                i = i + 1;
            }
            r
        },
    }
}

/// The least index at which a flag is set, if any.
pub open spec fn first_true(flags: Seq<bool>) -> Option<int>
    decreases flags.len(),
{
    if flags.len() == 0 {
        None
    } else if flags[0] {
        Some(0int)
    } else {
        match first_true(flags.skip(1)) {
            Some(i) => Some(i + 1),
            None => None,
        }
    }
}

/// Locator fallback order: when a file exists at the first candidate —
/// the default directory — that candidate is chosen, whatever exists at
/// the fallback locations inside the projects.
pub proof fn lemma_default_location_wins(flags: Seq<bool>)
    requires
        flags.len() >= 1,
        flags[0],
    ensures
        first_true(flags) == Some(0int),
{
}

/// Picks the first candidate location where a file exists (`exists_flags`
/// reports, for each candidate, whether its file path exists on disk),
/// records its directory as the descriptor's resolved directory, and
/// returns the index of the chosen candidate. When no candidate exists,
/// nothing is recorded and nothing is returned: a missing optional
/// stylesheet is not an error.
pub fn resolve(
    d: &mut SpecialFileDescriptor,
    candidates: &Vec<CandidateLocation>,
    exists_flags: &Vec<bool>,
) -> (r: Option<usize>)
    requires
        exists_flags@.len() == candidates@.len(),
        old(d).resolved_directory is None,
    ensures
        final(d).title == old(d).title,
        final(d).name_stem == old(d).name_stem,
        final(d).extension == old(d).extension,
        final(d).default_directory == old(d).default_directory,
        final(d).relative_search_suffix == old(d).relative_search_suffix,
        match r {
            Some(i) => {
                &&& first_true(exists_flags@) == Some(i as int)
                &&& final(d).resolved_directory matches Some(dir) && dir@ == candidates@[i as int].directory@
            },
            None => {
                &&& first_true(exists_flags@) is None
                &&& final(d).resolved_directory is None
            },
        },
{
    let ghost flags = exists_flags@;
    let mut i: usize = 0;
    assert(flags.skip(0) =~= flags);
    while i < exists_flags.len()
        invariant
            0 <= i <= flags.len(),
            flags == exists_flags@,
            flags.len() == candidates@.len(),
            d == old(d),
            first_true(flags) == match first_true(flags.skip(i as int)) {
                Some(k) => Some(k + i),
                None => None::<int>,
            },
        decreases flags.len() - i,
    {
        assert(flags.skip(i as int)[0] == flags[i as int]);
        if exists_flags[i] {
            let dir = crate::text::subvec(
                candidates[i].directory.as_slice(),
                0,
                candidates[i].directory.len(),
            );
            assert(dir@ =~= candidates@[i as int].directory@);
            d.resolved_directory = Some(dir);
            return Some(i);
        }
        assert(flags.skip(i as int).skip(1) =~= flags.skip(i + 1));
        i = i + 1;
    }
    assert(flags.skip(i as int).len() == 0);
    None
}

} // verus!
