use img_dumper::css::{class_of_line, extract, rewrite_line};

fn bytes(s: &str) -> Vec<u8> {
    s.as_bytes().to_vec()
}

#[test]
fn rewrite_concrete_scenario() {
    // the embedded relative reference becomes absolute under the resolved
    // directory
    let line = bytes(".fa-home:before { background: url('../fonts/fa.woff'); }");
    let rewritten = rewrite_line(&line, b"/x/css");
    assert_eq!(
        rewritten,
        bytes(".fa-home:before { background: url('/x/css/../fonts/fa.woff'); }")
    );
    // a one-line rule with a body does not end in the `:before {` rule
    // header, so it names no class; the bare header form does
    assert!(class_of_line(&rewritten).is_none());
    let class = class_of_line(b".fa-home:before {").expect("rule header yields a class");
    assert_eq!(class, bytes("fa-home"));
}

#[test]
fn class_extraction_concrete_scenario() {
    let class = class_of_line(b"  .sp-icons-home:before {").expect("class expected");
    assert_eq!(class, bytes("sp-icons-home"));
}

#[test]
fn class_extraction_rejects_other_lines() {
    assert!(class_of_line(b"body { color: red; }").is_none());
    assert!(class_of_line(b".x:after {").is_none());
    // a lone suffix leaves an empty selector: degraded, no class
    assert!(class_of_line(b":before {").is_none());
}

#[test]
fn class_extraction_trims_around_selector() {
    let class = class_of_line(b"   .pad :before {").expect("class expected");
    assert_eq!(class, bytes("pad"));
}

#[test]
fn class_extraction_trims_after_dot_removal() {
    // whitespace between the dot and the name goes: the dot and the suffix
    // are removed, then the name is trimmed
    let class = class_of_line(b". pad:before {").expect("class expected");
    assert_eq!(class, bytes("pad"));
}

#[test]
fn rewrite_handles_multiple_references_left_to_right() {
    let line = bytes("a url('one.png') b url('two.png') c");
    let rewritten = rewrite_line(&line, b"/d");
    assert_eq!(rewritten, bytes("a url('/d/one.png') b url('/d/two.png') c"));
}

#[test]
fn rewrite_leaves_unterminated_marker_untouched() {
    let line = bytes("x url('broken.png no close");
    let rewritten = rewrite_line(&line, b"/d");
    assert_eq!(rewritten, line);
}

#[test]
fn rewrite_without_marker_changes_nothing_twice() {
    // a line with no terminated marker is a fixed point of the rewrite
    let line = bytes(".icon:before { content: '\\e001'; }");
    let once = rewrite_line(&line, b"/d");
    assert_eq!(once, line);
    let twice = rewrite_line(&once, b"/d");
    assert_eq!(twice, once);
}

#[test]
fn rewrite_normalizes_backslashes_in_joined_path() {
    let line = bytes("url('fonts\\fa.woff')");
    let rewritten = rewrite_line(&line, b"C:\\css");
    assert_eq!(rewritten, bytes("url('C:/css/fonts/fa.woff')"));
}

#[test]
fn extract_collects_classes_and_rewritten_text() {
    let lines = vec![
        bytes(".a:before {"),
        bytes("  content: url('x.png');"),
        bytes("}"),
        bytes(".b:before {"),
    ];
    let r = extract(&lines, b"/base");
    let classes: Vec<Vec<u8>> = r.class_names;
    assert_eq!(classes, vec![bytes("a"), bytes("b")]);
    assert_eq!(
        r.rewritten_text,
        bytes(".a:before {\n  content: url('/base/x.png');\n}\n.b:before {\n")
    );
}

#[test]
fn extract_of_nothing_is_empty() {
    let r = extract(&Vec::new(), b"/base");
    assert!(r.class_names.is_empty());
    assert!(r.rewritten_text.is_empty());
}

#[test]
fn extract_keeps_duplicate_classes_in_order() {
    let lines = vec![bytes(".dup:before {"), bytes(".dup:before {")];
    let r = extract(&lines, b"/base");
    assert_eq!(r.class_names, vec![bytes("dup"), bytes("dup")]);
}
