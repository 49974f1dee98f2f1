//! Tests of the verified helpers: byte utilities, decimal parsing,
//! path normalization and matching, and flattening a hand-built tree.

use epub_core::bytes::bytes_eq;
use epub_core::bytes::bytes_has_suffix;
use epub_core::bytes::parse_dec_u64;
use epub_core::bytes::str_eq;
use epub_core::nav::flatten;
use epub_core::nav::NavNode;
use epub_core::path::name_matches;
use epub_core::path::normalize_path;

fn node(label: &str, path: &str, order: u64, children: Vec<NavNode>) -> NavNode {
    NavNode {
        label: label.to_string(),
        content_path: path.to_string(),
        play_order: order,
        children,
    }
}

#[test]
fn byte_helpers() {
    assert!(bytes_eq(b"abc", b"abc"));
    assert!(!bytes_eq(b"abc", b"abd"));
    assert!(!bytes_eq(b"abc", b"ab"));
    assert!(bytes_has_suffix(&b"OEBPS/content.opf".to_vec(), &b"content.opf".to_vec()));
    assert!(!bytes_has_suffix(&b"content.op".to_vec(), &b"content.opf".to_vec()));
    assert!(str_eq("navPoint", "navPoint"));
    assert!(!str_eq("navPoint", "navMap"));
}

#[test]
fn decimal_parsing() {
    assert_eq!(parse_dec_u64(b"0"), Some(0));
    assert_eq!(parse_dec_u64(b"42"), Some(42));
    assert_eq!(parse_dec_u64(b"18446744073709551615"), Some(u64::MAX));
    assert_eq!(parse_dec_u64(b"18446744073709551616"), None);
    assert_eq!(parse_dec_u64(b""), None);
    assert_eq!(parse_dec_u64(b"12a"), None);
    assert_eq!(parse_dec_u64(b"-3"), None);
}

#[test]
fn path_normalization() {
    assert_eq!(normalize_path(b"a/b/c"), b"a/b/c".to_vec());
    assert_eq!(normalize_path(b"/a/b"), b"a/b".to_vec());
    assert_eq!(normalize_path(b"a//b"), b"a/b".to_vec());
    assert_eq!(normalize_path(b"a/./b"), b"a/b".to_vec());
    assert_eq!(normalize_path(b"a/x/../b"), b"a/b".to_vec());
    assert_eq!(normalize_path(b"../../etc/passwd"), b"etc/passwd".to_vec());
    assert_eq!(normalize_path(b"ch1.xhtml#s1"), b"ch1.xhtml".to_vec());
    assert_eq!(normalize_path(b".."), Vec::<u8>::new());
    assert_eq!(normalize_path(b""), Vec::<u8>::new());
}

#[test]
fn entry_name_matching() {
    assert!(name_matches(&b"OEBPS/ch1.xhtml".to_vec(), &b"ch1.xhtml".to_vec()));
    assert!(name_matches(&b"ch1.xhtml".to_vec(), &b"ch1.xhtml".to_vec()));
    assert!(!name_matches(&b"OEBPS/xch1.xhtml".to_vec(), &b"ch1.xhtml".to_vec()));
    assert!(!name_matches(&b"OEBPS/ch1.xhtml".to_vec(), &b"".to_vec()));
    assert!(!name_matches(&b"ch1.xhtm".to_vec(), &b"ch1.xhtml".to_vec()));
}

#[test]
fn flatten_hand_built_forest() {
    let forest = vec![
        node(
            "B",
            "b.xhtml",
            2,
            vec![node("D", "d.xhtml", 4, Vec::new()), node("A", "a.xhtml", 1, Vec::new())],
        ),
        node("C", "c.xhtml", 3, Vec::new()),
    ];
    let flat = flatten(&forest);
    assert_eq!(flat.len(), 4);
    let labels: Vec<&str> = flat.iter().map(|e| e.label.as_str()).collect();
    assert_eq!(labels, vec!["A", "B", "C", "D"]);
    for i in 1..flat.len() {
        assert!(flat[i - 1].play_order <= flat[i].play_order);
    }
}

#[test]
fn flatten_empty_forest() {
    let forest: Vec<NavNode> = Vec::new();
    assert_eq!(flatten(&forest).len(), 0);
}
