use img_dumper::locate::{candidate_locations, resolve, SpecialFileDescriptor};
use img_dumper::scan::ProjectEntry;

fn bytes(s: &str) -> Vec<u8> {
    s.as_bytes().to_vec()
}

fn descriptor(with_suffix: bool) -> SpecialFileDescriptor {
    SpecialFileDescriptor::new(
        bytes("font-awesome"),
        bytes("font-awesome"),
        bytes("css"),
        bytes("/root/mega-commons/css"),
        if with_suffix { Some(bytes("/bower_components/css")) } else { None },
    )
}

fn project(name: &str, path: &str) -> ProjectEntry {
    ProjectEntry { name: bytes(name), absolute_path: bytes(path), images: Vec::new() }
}

#[test]
fn descriptor_starts_unresolved() {
    let d = descriptor(true);
    assert_eq!(d.title, bytes("font-awesome"));
    assert_eq!(d.name_stem, bytes("font-awesome"));
    assert_eq!(d.extension, bytes("css"));
    assert_eq!(d.default_directory, bytes("/root/mega-commons/css"));
    assert!(d.resolved_directory.is_none());
    assert_eq!(d.default_file_path(), bytes("/root/mega-commons/css/font-awesome.css"));
}

#[test]
fn candidates_start_with_the_default_location() {
    let d = descriptor(true);
    let projects = vec![project("a", "/root/a"), project("b", "/root/b")];
    let c = candidate_locations(&d, &projects);
    assert_eq!(c.len(), 3);
    assert_eq!(c[0].directory, bytes("/root/mega-commons/css"));
    assert_eq!(c[0].file_path, bytes("/root/mega-commons/css/font-awesome.css"));
    assert_eq!(c[1].directory, bytes("/root/a/bower_components/css"));
    assert_eq!(c[1].file_path, bytes("/root/a/bower_components/css/font-awesome.css"));
    assert_eq!(c[2].directory, bytes("/root/b/bower_components/css"));
}

#[test]
fn no_suffix_means_only_the_default_location() {
    let d = descriptor(false);
    let projects = vec![project("a", "/root/a")];
    let c = candidate_locations(&d, &projects);
    assert_eq!(c.len(), 1);
    assert_eq!(c[0].file_path, bytes("/root/mega-commons/css/font-awesome.css"));
}

#[test]
fn default_location_wins_even_when_fallbacks_exist() {
    let mut d = descriptor(true);
    let projects = vec![project("a", "/root/a")];
    let c = candidate_locations(&d, &projects);
    // files exist both at the default location and inside the project
    let exists = vec![true, true];
    let chosen = resolve(&mut d, &c, &exists);
    assert_eq!(chosen, Some(0));
    assert_eq!(d.resolved_directory, Some(bytes("/root/mega-commons/css")));
}

#[test]
fn fallback_is_searched_in_project_order() {
    let mut d = descriptor(true);
    let projects = vec![project("a", "/root/a"), project("b", "/root/b")];
    let c = candidate_locations(&d, &projects);
    let exists = vec![false, false, true];
    let chosen = resolve(&mut d, &c, &exists);
    assert_eq!(chosen, Some(2));
    assert_eq!(d.resolved_directory, Some(bytes("/root/b/bower_components/css")));
}

#[test]
fn missing_everywhere_resolves_to_nothing() {
    let mut d = descriptor(true);
    let projects = vec![project("a", "/root/a")];
    let c = candidate_locations(&d, &projects);
    let exists = vec![false, false];
    let chosen = resolve(&mut d, &c, &exists);
    assert_eq!(chosen, None);
    assert!(d.resolved_directory.is_none());
}
