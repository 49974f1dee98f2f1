//! Tests of opening a container, flattening its navigation tree and
//! resolving logical paths, against in-memory archive fixtures.

use std::io::Write;

use epub_core::container::DocumentHandle;
use epub_core::errors::LoadError;
use epub_core::errors::ResolveError;

const OPF: &str = r#"<?xml version="1.0"?>
<package xmlns="http://www.idpf.org/2007/opf" version="2.0">
  <metadata><title>Test Book</title></metadata>
  <manifest>
    <item id="ncx" href="toc.ncx" media-type="application/x-dtbncx+xml"/>
    <item id="c1" href="ch1.xhtml" media-type="application/xhtml+xml"/>
    <item id="c2" href="ch2.xhtml" media-type="application/xhtml+xml"/>
  </manifest>
</package>"#;

const NCX: &str = r#"<?xml version="1.0"?>
<ncx xmlns="http://www.daisy.org/z3986/2005/ncx/" version="2005-1">
  <navMap>
    <navPoint id="n2" playOrder="2">
      <navLabel><text>Chapter Two</text></navLabel>
      <content src="ch2.xhtml"/>
    </navPoint>
    <navPoint id="n1" playOrder="1">
      <navLabel><text>Chapter One</text></navLabel>
      <content src="ch1.xhtml"/>
      <navPoint id="n3" playOrder="3">
        <navLabel><text>Section One One</text></navLabel>
        <content src="ch1.xhtml#s1"/>
      </navPoint>
    </navPoint>
  </navMap>
</ncx>"#;

const CH1: &str = "<html><body><h1>Chapter One</h1><p id=\"s1\">First things.</p></body></html>";
const CH2: &str = "<html><body><h1>Chapter Two</h1><p>Second things.</p></body></html>";

fn archive_of(entries: &[(&str, &[u8])]) -> Vec<u8> {
    let mut w = zip::ZipWriter::new(std::io::Cursor::new(Vec::new()));
    let opts = zip::write::SimpleFileOptions::default();
    for (name, data) in entries {
        w.start_file(*name, opts).unwrap();
        w.write_all(data).unwrap();
    }
    w.finish().unwrap().into_inner()
}

fn fixture() -> Vec<u8> {
    archive_of(&[
        ("OEBPS/content.opf", OPF.as_bytes()),
        ("OEBPS/toc.ncx", NCX.as_bytes()),
        ("OEBPS/ch1.xhtml", CH1.as_bytes()),
        ("OEBPS/ch2.xhtml", CH2.as_bytes()),
    ])
}

#[test]
fn open_well_formed_fixture() {
    let handle = DocumentHandle::open(fixture());
    assert!(handle.is_ok());
}

#[test]
fn flatten_counts_every_node() {
    let handle = DocumentHandle::open(fixture()).unwrap();
    let flat = handle.flatten();
    assert_eq!(flat.len(), 3);
}

#[test]
fn flatten_sorted_by_play_order() {
    let handle = DocumentHandle::open(fixture()).unwrap();
    let flat = handle.flatten();
    for i in 1..flat.len() {
        assert!(flat[i - 1].play_order <= flat[i].play_order);
    }
    assert_eq!(flat[0].label, "Chapter One");
    assert_eq!(flat[0].content_path, "ch1.xhtml");
    assert_eq!(flat[0].play_order, 1);
    assert_eq!(flat[1].label, "Chapter Two");
    assert_eq!(flat[1].content_path, "ch2.xhtml");
    assert_eq!(flat[1].play_order, 2);
    assert_eq!(flat[2].label, "Section One One");
    assert_eq!(flat[2].content_path, "ch1.xhtml#s1");
    assert_eq!(flat[2].play_order, 3);
}

#[test]
fn flatten_twice_identical() {
    let handle = DocumentHandle::open(fixture()).unwrap();
    let first = handle.flatten();
    let second = handle.flatten();
    assert_eq!(first, second);
}

#[test]
fn two_loads_of_same_bytes_agree() {
    let bytes = fixture();
    let h1 = DocumentHandle::open(bytes.clone()).unwrap();
    let h2 = DocumentHandle::open(bytes).unwrap();
    assert_eq!(h1.flatten(), h2.flatten());
}

#[test]
fn resolve_each_flattened_entry() {
    let mut handle = DocumentHandle::open(fixture()).unwrap();
    let flat = handle.flatten();
    for entry in &flat {
        let text = handle.resolve(&entry.content_path).unwrap();
        assert!(!text.is_empty());
    }
}

#[test]
fn resolve_cuts_the_fragment() {
    let mut handle = DocumentHandle::open(fixture()).unwrap();
    let text = handle.resolve("ch1.xhtml#s1").unwrap();
    assert_eq!(text, CH1);
}

#[test]
fn resolve_exact_internal_path() {
    let mut handle = DocumentHandle::open(fixture()).unwrap();
    let text = handle.resolve("OEBPS/ch2.xhtml").unwrap();
    assert_eq!(text, CH2);
}

#[test]
fn resolve_normalizes_dot_segments() {
    let mut handle = DocumentHandle::open(fixture()).unwrap();
    assert_eq!(handle.resolve("./OEBPS//ch1.xhtml").unwrap(), CH1);
    assert_eq!(handle.resolve("extra/../ch2.xhtml").unwrap(), CH2);
    assert_eq!(handle.resolve("/OEBPS/ch1.xhtml").unwrap(), CH1);
}

#[test]
fn resolve_traversal_returns_not_found() {
    let mut handle = DocumentHandle::open(fixture()).unwrap();
    let r = handle.resolve("../../etc/passwd");
    assert_eq!(r, Err(ResolveError::NotFound));
    let r = handle.resolve("..%2F..%2Fetc/shadow");
    assert_eq!(r, Err(ResolveError::NotFound));
}

#[test]
fn resolve_unknown_path_returns_not_found() {
    let mut handle = DocumentHandle::open(fixture()).unwrap();
    assert_eq!(handle.resolve("nothing.xhtml"), Err(ResolveError::NotFound));
    assert_eq!(handle.resolve(""), Err(ResolveError::NotFound));
}

#[test]
fn two_resolves_on_one_handle() {
    let mut handle = DocumentHandle::open(fixture()).unwrap();
    let one = handle.resolve("ch1.xhtml").unwrap();
    let two = handle.resolve("ch2.xhtml").unwrap();
    assert_eq!(one, CH1);
    assert_eq!(two, CH2);
    assert_eq!(handle.resolve("ch1.xhtml").unwrap(), CH1);
}

#[test]
fn missing_metadata_fixture() {
    let bytes = archive_of(&[("chapter.xhtml", CH1.as_bytes())]);
    let r = DocumentHandle::open(bytes);
    assert!(matches!(r, Err(LoadError::MissingMetadata)));
}

#[test]
fn missing_navigation_item_is_missing_metadata() {
    let opf = r#"<?xml version="1.0"?>
<package><manifest>
  <item id="c1" href="ch1.xhtml" media-type="application/xhtml+xml"/>
</manifest></package>"#;
    let bytes = archive_of(&[
        ("OEBPS/content.opf", opf.as_bytes()),
        ("OEBPS/ch1.xhtml", CH1.as_bytes()),
    ]);
    let r = DocumentHandle::open(bytes);
    assert!(matches!(r, Err(LoadError::MissingMetadata)));
}

#[test]
fn corrupt_archive_is_reported() {
    let r = DocumentHandle::open(b"this is not an archive".to_vec());
    assert!(matches!(r, Err(LoadError::CorruptArchive)));
}

#[test]
fn malformed_package_xml_is_reported() {
    let bytes = archive_of(&[("OEBPS/content.opf", b"<package><oops".as_ref())]);
    let r = DocumentHandle::open(bytes);
    assert!(matches!(r, Err(LoadError::MalformedXml)));
}

#[test]
fn malformed_navigation_xml_is_reported() {
    let bytes = archive_of(&[
        ("OEBPS/content.opf", OPF.as_bytes()),
        ("OEBPS/toc.ncx", b"<ncx><navMap".as_ref()),
    ]);
    let r = DocumentHandle::open(bytes);
    assert!(matches!(r, Err(LoadError::MalformedXml)));
}

#[test]
fn lossy_decoding_replaces_invalid_bytes() {
    let mut content = b"before ".to_vec();
    content.push(0xFF);
    content.extend_from_slice(b" after");
    let bytes = archive_of(&[
        ("OEBPS/content.opf", OPF.as_bytes()),
        ("OEBPS/toc.ncx", NCX.as_bytes()),
        ("OEBPS/ch1.xhtml", content.as_slice()),
        ("OEBPS/ch2.xhtml", CH2.as_bytes()),
    ]);
    let mut handle = DocumentHandle::open(bytes).unwrap();
    let text = handle.resolve("ch1.xhtml").unwrap();
    assert_eq!(text, "before \u{FFFD} after");
}

#[test]
fn empty_nav_map_flattens_to_nothing() {
    let ncx = r#"<?xml version="1.0"?><ncx><navMap></navMap></ncx>"#;
    let bytes = archive_of(&[
        ("OEBPS/content.opf", OPF.as_bytes()),
        ("OEBPS/toc.ncx", ncx.as_bytes()),
    ]);
    let handle = DocumentHandle::open(bytes).unwrap();
    assert_eq!(handle.flatten().len(), 0);
}

#[test]
fn missing_play_order_defaults_to_zero() {
    let ncx = r#"<?xml version="1.0"?><ncx><navMap>
      <navPoint id="a" playOrder="5">
        <navLabel><text>Later</text></navLabel><content src="ch2.xhtml"/>
      </navPoint>
      <navPoint id="b">
        <navLabel><text>Unnumbered</text></navLabel><content src="ch1.xhtml"/>
      </navPoint>
    </navMap></ncx>"#;
    let bytes = archive_of(&[
        ("OEBPS/content.opf", OPF.as_bytes()),
        ("OEBPS/toc.ncx", ncx.as_bytes()),
        ("OEBPS/ch1.xhtml", CH1.as_bytes()),
        ("OEBPS/ch2.xhtml", CH2.as_bytes()),
    ]);
    let handle = DocumentHandle::open(bytes).unwrap();
    let flat = handle.flatten();
    assert_eq!(flat.len(), 2);
    assert_eq!(flat[0].label, "Unnumbered");
    assert_eq!(flat[0].play_order, 0);
    assert_eq!(flat[1].label, "Later");
    assert_eq!(flat[1].play_order, 5);
}

#[test]
fn equal_play_orders_keep_traversal_order() {
    let ncx = r#"<?xml version="1.0"?><ncx><navMap>
      <navPoint id="a" playOrder="1">
        <navLabel><text>First In Document</text></navLabel><content src="ch1.xhtml"/>
      </navPoint>
      <navPoint id="b" playOrder="1">
        <navLabel><text>Second In Document</text></navLabel><content src="ch2.xhtml"/>
      </navPoint>
    </navMap></ncx>"#;
    let bytes = archive_of(&[
        ("OEBPS/content.opf", OPF.as_bytes()),
        ("OEBPS/toc.ncx", ncx.as_bytes()),
    ]);
    let handle = DocumentHandle::open(bytes).unwrap();
    let flat = handle.flatten();
    assert_eq!(flat.len(), 2);
    assert_eq!(flat[0].label, "First In Document");
    assert_eq!(flat[1].label, "Second In Document");
}
