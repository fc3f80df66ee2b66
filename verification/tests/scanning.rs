use img_dumper::scan::{prune_empty, scan, ImageAsset, ProjectEntry, WalkEntry};
use img_dumper::sort::{sort_images_by_name, sort_projects_by_name, sort_strings};

fn bytes(s: &str) -> Vec<u8> {
    s.as_bytes().to_vec()
}

fn seg(parts: &[&str]) -> Vec<Vec<u8>> {
    parts.iter().map(|p| bytes(p)).collect()
}

fn dir_entry(parts: &[&str]) -> WalkEntry {
    WalkEntry { segments: seg(parts), is_dir: true }
}

fn file_entry(parts: &[&str]) -> WalkEntry {
    WalkEntry { segments: seg(parts), is_dir: false }
}

fn default_extensions() -> Vec<Vec<u8>> {
    vec![bytes("svg"), bytes("png"), bytes("jpg"), bytes("jpeg"), bytes("gif"), bytes("bmp"), bytes("ico")]
}

#[test]
fn scan_concrete_scenario_hidden_and_ignored() {
    // root "/root" holding proj1/icon.SVG, proj1/.git/ignored.svg and
    // node_modules/x.svg; only proj1 with the one icon survives
    let entries = vec![
        dir_entry(&["proj1"]),
        file_entry(&["proj1", "icon.SVG"]),
        dir_entry(&["proj1", ".git"]),
        file_entry(&["proj1", ".git", "ignored.svg"]),
        dir_entry(&["node_modules"]),
        file_entry(&["node_modules", "x.svg"]),
    ];
    let allowed = vec![bytes("svg")];
    let ignored = vec![bytes("node_modules")];
    let m = scan(b"/root", &entries, &allowed, &ignored);
    let m = prune_empty(m);
    assert_eq!(m.len(), 1);
    assert_eq!(m[0].name, bytes("proj1"));
    assert_eq!(m[0].absolute_path, bytes("/root/proj1"));
    assert_eq!(m[0].images.len(), 1);
    assert_eq!(m[0].images[0].base_name, bytes("icon"));
    assert_eq!(m[0].images[0].extension, bytes("svg"));
    assert_eq!(m[0].images[0].absolute_path, bytes("/root/proj1/icon.SVG"));
}

#[test]
fn scan_extension_allow_list_is_case_insensitive() {
    let entries = vec![
        dir_entry(&["p"]),
        file_entry(&["p", "a.SVG"]),
        file_entry(&["p", "b.Png"]),
        file_entry(&["p", "c.txt"]),
        file_entry(&["p", "noext"]),
    ];
    let m = scan(b"/r", &entries, &default_extensions(), &Vec::new());
    assert_eq!(m.len(), 1);
    let exts: Vec<&[u8]> = m[0].images.iter().map(|i| i.extension.as_slice()).collect();
    assert_eq!(exts, vec![b"svg".as_slice(), b"png".as_slice()]);
}

#[test]
fn scan_depth_one_file_is_not_a_project() {
    let entries = vec![file_entry(&["loose.svg"]), dir_entry(&["real"])];
    let m = scan(b"/r", &entries, &default_extensions(), &Vec::new());
    assert_eq!(m.len(), 1);
    assert_eq!(m[0].name, bytes("real"));
    assert!(m[0].images.is_empty());
}

#[test]
fn scan_ignored_name_excludes_at_any_depth() {
    let entries = vec![
        dir_entry(&["p"]),
        dir_entry(&["p", "vendor"]),
        file_entry(&["p", "vendor", "deep.svg"]),
        file_entry(&["p", "ok.svg"]),
    ];
    let m = scan(b"/r", &entries, &default_extensions(), &vec![bytes("vendor")]);
    assert_eq!(m.len(), 1);
    assert_eq!(m[0].images.len(), 1);
    assert_eq!(m[0].images[0].base_name, bytes("ok"));
}

#[test]
fn scan_hidden_segment_excludes_file_itself() {
    let entries = vec![dir_entry(&["p"]), file_entry(&["p", ".hidden.svg"])];
    let m = scan(b"/r", &entries, &default_extensions(), &Vec::new());
    assert_eq!(m.len(), 1);
    assert!(m[0].images.is_empty());
}

#[test]
fn scan_groups_images_under_first_segment() {
    let entries = vec![
        dir_entry(&["a"]),
        dir_entry(&["b"]),
        file_entry(&["a", "x", "one.svg"]),
        file_entry(&["b", "two.svg"]),
        file_entry(&["a", "three.svg"]),
    ];
    let m = scan(b"/r", &entries, &default_extensions(), &Vec::new());
    assert_eq!(m.len(), 2);
    assert_eq!(m[0].name, bytes("a"));
    assert_eq!(m[0].images.len(), 2);
    assert_eq!(m[0].images[0].base_name, bytes("one"));
    assert_eq!(m[0].images[0].absolute_path, bytes("/r/a/x/one.svg"));
    assert_eq!(m[0].images[1].base_name, bytes("three"));
    assert_eq!(m[1].name, bytes("b"));
    assert_eq!(m[1].images.len(), 1);
}

#[test]
fn scan_backslashes_in_root_are_normalized() {
    let entries = vec![dir_entry(&["p"]), file_entry(&["p", "i.svg"])];
    let m = scan(b"C:\\www\\htdocs", &entries, &default_extensions(), &Vec::new());
    assert_eq!(m[0].absolute_path, bytes("C:/www/htdocs/p"));
    assert_eq!(m[0].images[0].absolute_path, bytes("C:/www/htdocs/p/i.svg"));
}

#[test]
fn prune_drops_only_empty_projects() {
    let entries = vec![
        dir_entry(&["empty"]),
        dir_entry(&["full"]),
        file_entry(&["full", "i.svg"]),
    ];
    let m = scan(b"/r", &entries, &default_extensions(), &Vec::new());
    assert_eq!(m.len(), 2);
    let m = prune_empty(m);
    assert_eq!(m.len(), 1);
    assert_eq!(m[0].name, bytes("full"));
}

#[test]
fn scan_of_empty_walk_is_empty() {
    let m = scan(b"/r", &Vec::new(), &default_extensions(), &Vec::new());
    assert!(m.is_empty());
}

#[test]
fn scan_trailing_dot_gives_empty_extension() {
    // "name." has the empty extension, which is never in the allow list
    let entries = vec![dir_entry(&["p"]), file_entry(&["p", "odd."])];
    let m = scan(b"/r", &entries, &default_extensions(), &Vec::new());
    assert!(m[0].images.is_empty());
}

#[test]
fn scan_directory_with_image_extension_is_no_image() {
    let entries = vec![dir_entry(&["p"]), dir_entry(&["p", "folder.svg"])];
    let m = scan(b"/r", &entries, &default_extensions(), &Vec::new());
    assert_eq!(m.len(), 1);
    assert!(m[0].images.is_empty());
}

#[test]
fn scan_reuses_project_on_name_collision() {
    let entries = vec![
        dir_entry(&["p"]),
        file_entry(&["p", "a.svg"]),
        dir_entry(&["p"]),
        file_entry(&["p", "b.svg"]),
    ];
    let m = scan(b"/r", &entries, &default_extensions(), &Vec::new());
    assert_eq!(m.len(), 1);
    assert_eq!(m[0].images.len(), 2);
}

#[test]
fn find_project_locates_by_name() {
    let entries = vec![dir_entry(&["alpha"]), dir_entry(&["beta"])];
    let m = scan(b"/r", &entries, &default_extensions(), &Vec::new());
    assert_eq!(img_dumper::scan::find_project(&m, b"beta"), Some(1));
    assert_eq!(img_dumper::scan::find_project(&m, b"gamma"), None);
}

#[test]
fn sort_strings_orders_lexicographically() {
    let v = vec![bytes("pear"), bytes("apple"), bytes("peach"), bytes("apple")];
    let r = sort_strings(v);
    let want = vec![bytes("apple"), bytes("apple"), bytes("peach"), bytes("pear")];
    assert_eq!(r, want);
}

#[test]
fn sort_images_by_base_name() {
    let mk = |n: &str| ImageAsset {
        base_name: bytes(n),
        absolute_path: bytes("/r/p/x"),
        extension: bytes("svg"),
    };
    let r = sort_images_by_name(vec![mk("zeta"), mk("alpha"), mk("Beta")]);
    let names: Vec<Vec<u8>> = r.into_iter().map(|i| i.base_name).collect();
    // byte order: upper case before lower case
    assert_eq!(names, vec![bytes("Beta"), bytes("alpha"), bytes("zeta")]);
}

#[test]
fn sort_projects_by_name_is_by_byte_order() {
    let mk = |n: &str| ProjectEntry {
        name: bytes(n),
        absolute_path: bytes("/r"),
        images: Vec::new(),
    };
    let r = sort_projects_by_name(vec![mk("c"), mk("a"), mk("b")]);
    let names: Vec<Vec<u8>> = r.into_iter().map(|p| p.name).collect();
    assert_eq!(names, vec![bytes("a"), bytes("b"), bytes("c")]);
}
