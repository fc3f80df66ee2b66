use img_dumper::cli::{get_trimmed_if_not_empty, whole_help_message, Argument};
use img_dumper::paths::{join_paths, normalize_separators, strip_extended_length_prefix};
use img_dumper::text::{lex_le_bytes, to_ascii_lower, trim_bytes};

fn bytes(s: &str) -> Vec<u8> {
    s.as_bytes().to_vec()
}

#[test]
fn argument_names() {
    assert_eq!(Argument::Dir.get_name(), "dir");
    assert_eq!(Argument::Target.get_name(), "target");
    assert_eq!(Argument::Name.get_name(), "name");
    assert_eq!(Argument::Basic.get_name(), "basic");
    assert_eq!(Argument::NoBrowser.get_name(), "no-browser");
    assert_eq!(Argument::Help.get_name(), "help");
}

#[test]
fn argument_help_texts() {
    assert!(Argument::Dir.get_help_msg().starts_with("--dir"));
    assert!(Argument::Target.get_help_msg().starts_with("--target"));
    assert!(Argument::Name.get_help_msg().starts_with("--name"));
    assert!(Argument::Basic.get_help_msg().starts_with("--basic"));
    assert!(Argument::NoBrowser.get_help_msg().starts_with("--no-browser"));
    assert_eq!(Argument::Help.get_help_msg(), "");
}

#[test]
fn whole_help_lists_every_argument() {
    let msg = whole_help_message();
    assert!(msg.starts_with("Running the program without arguments"));
    assert!(msg.contains("--dir"));
    assert!(msg.contains("--target"));
    assert!(msg.contains("--name"));
    assert!(msg.contains("--basic"));
    assert!(msg.contains("--no-browser"));
}

#[test]
fn trimmed_if_not_empty_trims() {
    assert_eq!(get_trimmed_if_not_empty("  hello world \t"), Some("hello world".to_owned()));
    assert_eq!(get_trimmed_if_not_empty("plain"), Some("plain".to_owned()));
}

#[test]
fn trimmed_if_not_empty_rejects_blank() {
    assert_eq!(get_trimmed_if_not_empty(""), None);
    assert_eq!(get_trimmed_if_not_empty("   \t  "), None);
}

#[test]
fn trimmed_if_not_empty_trims_unicode_whitespace() {
    // no-break space and ideographic space carry the White_Space property
    assert_eq!(get_trimmed_if_not_empty("\u{a0}"), None);
    assert_eq!(get_trimmed_if_not_empty("\u{a0}x\u{3000}"), Some("x".to_owned()));
    assert_eq!(get_trimmed_if_not_empty("\u{2028}\u{2009} \u{85}"), None);
}

#[test]
fn separators_are_normalized() {
    assert_eq!(normalize_separators(b"a\\b\\c"), bytes("a/b/c"));
    assert_eq!(normalize_separators(b"/already/fine"), bytes("/already/fine"));
}

#[test]
fn join_paths_concatenates_and_normalizes() {
    assert_eq!(join_paths(b"/base", b"rel\\x", b"/"), bytes("/base/rel/x"));
    assert_eq!(join_paths(b"C:\\root", b"file.css", b"/"), bytes("C:/root/file.css"));
}

#[test]
fn extended_length_prefix_is_stripped() {
    assert_eq!(strip_extended_length_prefix(b"\\\\?\\C:\\x"), bytes("C:\\x"));
    assert_eq!(strip_extended_length_prefix(b"C:\\x"), bytes("C:\\x"));
}

#[test]
fn ascii_lowering() {
    assert_eq!(to_ascii_lower(b"SVG"), bytes("svg"));
    assert_eq!(to_ascii_lower(b"MiXeD-09"), bytes("mixed-09"));
}

#[test]
fn lexicographic_byte_order() {
    assert!(lex_le_bytes(b"", b"a"));
    assert!(lex_le_bytes(b"a", b"a"));
    assert!(lex_le_bytes(b"a", b"ab"));
    assert!(!lex_le_bytes(b"ab", b"a"));
    assert!(lex_le_bytes(b"Zoo", b"apple"));
    assert!(!lex_le_bytes(b"b", b"ab"));
}

#[test]
fn byte_trimming() {
    assert_eq!(trim_bytes(b"  x y\t\n"), bytes("x y"));
    assert_eq!(trim_bytes(b"\r\n"), Vec::<u8>::new());
}
