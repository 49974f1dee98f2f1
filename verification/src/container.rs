//! The document handle: opening a container from archive bytes,
//! flattening its navigation tree, and resolving logical paths to
//! entry text.
//!
//! The archive reader embedded in the handle seeks while it reads, so
//! every resolution takes the handle exclusively through `&mut`;
//! ownership returns on every exit path. Flattening only reads the
//! already-materialized tree.

use vstd::prelude::*;

use crate::bytes::bytes_has_suffix;
use crate::bytes::has_suffix;
use crate::bytes::str_eq;
use crate::errors::LoadError;
use crate::errors::ResolveError;
use crate::nav::FlatEntry;
use crate::nav::NavModel;
use crate::nav::NavNode;
use crate::nav::entries_view;
use crate::nav::flatten_spec;
use crate::nav::forest_view;
use crate::ncx::attr_of;
use crate::ncx::build_toc;
use crate::ncx::find_attr;
use crate::ncx::toc_spec;
use crate::path::find_first_match;
use crate::path::first_match;
use crate::path::lemma_first_match;
use crate::path::normalize_path;
use crate::path::normalized_path;
use crate::path::segs_view;
use crate::text::decode_lossy;
use crate::text::lossy_decoded;
use crate::xml::ElemModel;
use crate::xml::XmlElem;
use crate::xml::elem_model;
use crate::xml::elems_view;
use crate::xml::parse_xml_elements;
use crate::xml::xml_doc_of;
use crate::zipio::archive_len;
use crate::zipio::archive_name_at;
use crate::zipio::archive_open;
use crate::zipio::archive_read_at;
use crate::zipio::entry_data;
use crate::zipio::entry_names;
use crate::zipio::entry_ok;
use crate::zipio::zip_data_of;
use crate::zipio::zip_names_of;
use crate::zipio::zip_ok_of;
use vstd::string::StrSliceExecFns;

verus! {

/// First entry name, scanning from `k`, that ends with `pat`.
pub open spec fn suffix_from(names: Seq<Seq<u8>>, k: int, pat: Seq<u8>) -> Option<int>
    decreases names.len() - k,
{
    if k < 0 || k >= names.len() {
        None
    } else if has_suffix(names[k], pat) {
        Some(k)
    } else {
        suffix_from(names, k + 1, pat)
    }
}

/// Scans entry names for the first one ending with `pat`.
fn find_first_suffix(names: &Vec<Vec<u8>>, pat: &Vec<u8>) -> (r: Option<usize>)
    ensures
        (r is Some) == (suffix_from(segs_view(names@), 0, pat@) is Some),
        r matches Some(i) ==> i < names@.len() && suffix_from(segs_view(names@), 0, pat@) == Some(
            i as int,
        ),
{
    let mut k: usize = 0;
    while k < names.len()
        invariant
            k <= names@.len(),
            suffix_from(segs_view(names@), 0, pat@) == suffix_from(
                segs_view(names@),
                k as int,
                pat@,
            ),
        decreases names@.len() - k,
    {
        proof {
            assert(segs_view(names@)[k as int] == names@[k as int]@);
        }
        if bytes_has_suffix(&names[k], pat) {
            return Some(k);
        }
        k += 1;
    }
    None
}

/// An OPF manifest item that references the NCX navigation document.
pub open spec fn is_ncx_item(e: ElemModel) -> bool {
    e.1 == "item"@ && match attr_of(e.2, "media-type"@) {
        Some(v) => v == "application/x-dtbncx+xml"@,
        None => false,
    }
}

/// Position of the first NCX manifest item, scanning from `k`.
pub open spec fn ncx_item_from(elems: Seq<ElemModel>, k: int) -> Option<int>
    decreases elems.len() - k,
{
    if k < 0 || k >= elems.len() {
        None
    } else if is_ncx_item(elems[k]) {
        Some(k)
    } else {
        ncx_item_from(elems, k + 1)
    }
}

/// Where the navigation document lives, if the package metadata
/// references one: the `href` of the first NCX manifest item.
pub open spec fn nav_href_spec(elems: Seq<ElemModel>) -> Option<Seq<char>> {
    match ncx_item_from(elems, 0) {
        Some(i) => attr_of(elems[i].2, "href"@),
        None => None,
    }
}

/// Locates the navigation document referenced from the package
/// metadata: the `href` of the first manifest `item` whose media type
/// names an NCX document.
pub fn find_nav_href(elems: &Vec<XmlElem>) -> (r: Option<String>)
    ensures
        (r is Some) == (nav_href_spec(elems_view(elems@)) is Some),
        r matches Some(v) ==> v@ == nav_href_spec(elems_view(elems@))->Some_0,
{
    let ghost ev = elems_view(elems@);
    let mut k: usize = 0;
    while k < elems.len()
        invariant
            k <= elems@.len(),
            ev == elems_view(elems@),
            ev.len() == elems@.len(),
            ncx_item_from(ev, 0) == ncx_item_from(ev, k as int),
        decreases elems@.len() - k,
    {
        proof {
            assert(ev[k as int] == elem_model(elems@[k as int]));
        }
        let e = &elems[k];
        let is_item = str_eq(e.tag.as_str(), "item");
        let is_ncx = if is_item {
            match find_attr(&e.attrs, "media-type") {
                Some(v) => str_eq(v.as_str(), "application/x-dtbncx+xml"),
                None => false,
            }
        } else {
            false
        };
        proof {
            assert(is_ncx == is_ncx_item(ev[k as int]));
        }
        if is_ncx {
            return find_attr(&e.attrs, "href");
        }
        k += 1;
    }
    None
}

/// Collects the entry names of the archive, in entry order.
fn collect_names(a: &zip::ZipArchive<std::io::Cursor<Vec<u8>>>) -> (r: Vec<Vec<u8>>)
    ensures
        segs_view(r@) == entry_names(*a),
{
    let n = archive_len(a);
    let mut names: Vec<Vec<u8>> = Vec::new();
    proof {
        assert(segs_view(names@) =~= entry_names(*a).take(0));
    }
    let mut i: usize = 0;
    while i < n
        invariant
            i <= n,
            n == entry_names(*a).len(),
            segs_view(names@) == entry_names(*a).take(i as int),
        decreases n - i,
    {
        let ghost prev = segs_view(names@);
        names.push(archive_name_at(a, i));
        i += 1;
        proof {
            assert(segs_view(names@) =~= prev.push(entry_names(*a)[i as int - 1]));
            assert(entry_names(*a).take(i as int).drop_last() =~= entry_names(*a).take(
                i as int - 1,
            ));
            assert(segs_view(names@) =~= entry_names(*a).take(i as int));
        }
    }
    proof {
        assert(entry_names(*a).take(n as int) =~= entry_names(*a));
    }
    names
}

/// The byte suffix that identifies the package metadata file.
pub open spec fn opf_suffix() -> Seq<u8> {
    vstd::utf8::encode_utf8("content.opf"@)
}

/// What opening the given archive bytes must yield: the model of the
/// navigation forest, or the error owed on exactly these bytes.
/// `CorruptArchive` when the bytes are no archive or a needed entry
/// cannot be read; `MissingMetadata` when no entry name ends with
/// `content.opf`, the package names no NCX item, or the referenced
/// navigation entry is absent; `MalformedXml` when either document
/// fails to parse.
pub open spec fn open_plan(data: Seq<u8>) -> Result<Seq<NavModel>, LoadError> {
    if zip_names_of(data) is None {
        Err(LoadError::CorruptArchive)
    } else {
        let ns = zip_names_of(data)->Some_0;
        match suffix_from(ns, 0, opf_suffix()) {
            None => Err(LoadError::MissingMetadata),
            Some(oi) => {
                if !zip_ok_of(data, oi) {
                    Err(LoadError::CorruptArchive)
                } else {
                    match xml_doc_of(zip_data_of(data, oi)) {
                        None => Err(LoadError::MalformedXml),
                        Some(opf) => {
                            match nav_href_spec(opf) {
                                None => Err(LoadError::MissingMetadata),
                                Some(h) => {
                                    match first_match(
                                        ns,
                                        normalized_path(vstd::utf8::encode_utf8(h)),
                                    ) {
                                        None => Err(LoadError::MissingMetadata),
                                        Some(ni) => {
                                            if !zip_ok_of(data, ni) {
                                                Err(LoadError::CorruptArchive)
                                            } else {
                                                match xml_doc_of(zip_data_of(data, ni)) {
                                                    None => Err(LoadError::MalformedXml),
                                                    Some(ncx) => Ok(toc_spec(ncx)),
                                                }
                                            }
                                        },
                                    }
                                },
                            }
                        },
                    }
                }
            },
        }
    }
}

/// The opened container: the archive reader and the parsed navigation
/// forest. Created once per archive; the reader is exclusively owned
/// by whichever operation currently holds the handle.
pub struct DocumentHandle {
    pub archive: zip::ZipArchive<std::io::Cursor<Vec<u8>>>,
    pub toc: Vec<NavNode>,
}

impl DocumentHandle {
    /// Opens a container from the raw bytes of an EPUB archive.
    ///
    /// The package metadata file is located by the suffix of its
    /// conventional name (`content.opf`), the navigation document
    /// through the metadata's manifest, and the navigation forest is
    /// parsed from the navigation document. The result is exactly what
    /// `open_plan` prescribes for the input bytes: the error it owes,
    /// or a handle whose navigation forest models the plan's and whose
    /// archive holds the bytes' entries; no partial handle is ever
    /// returned. `NotFound` is left to the caller that reads the file
    /// from disk.
    pub fn open(data: Vec<u8>) -> (r: Result<DocumentHandle, LoadError>)
        ensures
            r matches Err(e) ==> open_plan(data@) == Err::<Seq<NavModel>, LoadError>(e),
            r matches Ok(h) ==> {
                &&& open_plan(data@) is Ok
                &&& forest_view(h.toc@) == open_plan(data@)->Ok_0
                &&& Some(entry_names(h.archive)) == zip_names_of(data@)
                &&& (forall|i: int| #[trigger] entry_data(h.archive, i) == zip_data_of(data@, i))
                &&& (forall|i: int| #[trigger] entry_ok(h.archive, i) == zip_ok_of(data@, i))
            },
    {
        let ghost d = data@;
        let mut archive = match archive_open(data) {
            Some(a) => a,
            None => {
                return Err(LoadError::CorruptArchive);
            },
        };
        let names = collect_names(&archive);
        let opf_pat = "content.opf".as_bytes_vec();
        proof {
            assert(opf_pat@ == opf_suffix());
        }
        let oi = match find_first_suffix(&names, &opf_pat) {
            Some(i) => i,
            None => {
                return Err(LoadError::MissingMetadata);
            },
        };
        let opf_bytes = match archive_read_at(&mut archive, oi) {
            Some(b) => b,
            None => {
                return Err(LoadError::CorruptArchive);
            },
        };
        proof {
            assert(opf_bytes@ == zip_data_of(d, oi as int));
        }
        let opf_elems = match parse_xml_elements(opf_bytes.as_slice()) {
            Some(v) => v,
            None => {
                return Err(LoadError::MalformedXml);
            },
        };
        let ghost opf_doc = xml_doc_of(zip_data_of(d, oi as int))->Some_0;
        proof {
            assert(elems_view(opf_elems@) == opf_doc);
        }
        let href = match find_nav_href(&opf_elems) {
            Some(h) => h,
            None => {
                return Err(LoadError::MissingMetadata);
            },
        };
        let hb = href.as_str().as_bytes_vec();
        let q = normalize_path(hb.as_slice());
        proof {
            assert(q@ == normalized_path(
                vstd::utf8::encode_utf8(nav_href_spec(opf_doc)->Some_0),
            ));
        }
        let ni = match find_first_match(&names, &q) {
            Some(i) => i,
            None => {
                return Err(LoadError::MissingMetadata);
            },
        };
        proof {
            lemma_first_match(segs_view(names@), q@);
        }
        let ncx_bytes = match archive_read_at(&mut archive, ni) {
            Some(b) => b,
            None => {
                return Err(LoadError::CorruptArchive);
            },
        };
        proof {
            assert(ncx_bytes@ == zip_data_of(d, ni as int));
        }
        let ncx_elems = match parse_xml_elements(ncx_bytes.as_slice()) {
            Some(v) => v,
            None => {
                return Err(LoadError::MalformedXml);
            },
        };
        let ghost ncx_doc = xml_doc_of(zip_data_of(d, ni as int))->Some_0;
        proof {
            assert(elems_view(ncx_elems@) == ncx_doc);
            assert(open_plan(d) == Ok::<Seq<NavModel>, LoadError>(toc_spec(ncx_doc)));
        }
        let toc = build_toc(&ncx_elems);
        Ok(DocumentHandle { archive, toc })
    }

    /// The flattened table of contents of this document: the
    /// navigation forest traversed depth-first in pre-order, sorted
    /// stably by play order. Reads the already-materialized tree only,
    /// so it needs no exclusive access.
    pub fn flatten(&self) -> (r: Vec<FlatEntry>)
        ensures
            entries_view(r@) == flatten_spec(self.toc@),
    {
        crate::nav::flatten(&self.toc)
    }

    /// Resolves a client-supplied logical path to the text of the
    /// matching archive entry.
    ///
    /// The path is normalized first — in-document fragment cut,
    /// leading separators stripped, `.` and `..` segments resolved —
    /// and then looked up against the entry names, by exact or
    /// `/`-suffix match; only the neutralized path is ever compared,
    /// so a resolution can never reach outside the archive's entry
    /// set. The first matching entry is read and decoded as UTF-8,
    /// with the replacement character substituted for invalid byte
    /// sequences. `NotFound` is returned exactly when no entry name
    /// matches; the call succeeds exactly when the first matching
    /// entry is readable, and fails with `ReadFailure` otherwise.
    pub fn resolve(&mut self, path: &str) -> (r: Result<String, ResolveError>)
        ensures
            entry_names(final(self).archive) == entry_names(old(self).archive),
            forall|j: int| #[trigger] entry_data(final(self).archive, j) == entry_data(
                old(self).archive,
                j,
            ),
            forall|j: int| #[trigger] entry_ok(final(self).archive, j) == entry_ok(
                old(self).archive,
                j,
            ),
            final(self).toc == old(self).toc,
            (r == Result::<String, ResolveError>::Err(ResolveError::NotFound)) <==> first_match(
                entry_names(old(self).archive),
                normalized_path(vstd::utf8::encode_utf8(path@)),
            ) is None,
            (r is Ok) <==> {
                let fm = first_match(
                    entry_names(old(self).archive),
                    normalized_path(vstd::utf8::encode_utf8(path@)),
                );
                fm is Some && entry_ok(old(self).archive, fm->Some_0)
            },
            r matches Ok(s) ==> {
                let fm = first_match(
                    entry_names(old(self).archive),
                    normalized_path(vstd::utf8::encode_utf8(path@)),
                );
                &&& s@ == lossy_decoded(entry_data(old(self).archive, fm->Some_0))
                &&& (s@.len() == 0) == (entry_data(old(self).archive, fm->Some_0).len() == 0)
            },
    {
        let pb = path.as_bytes_vec();
        let q = normalize_path(pb.as_slice());
        let names = collect_names(&self.archive);
        match find_first_match(&names, &q) {
            Some(i) => {
                proof {
                    lemma_first_match(segs_view(names@), q@);
                }
                match archive_read_at(&mut self.archive, i) {
                    Some(b) => Ok(decode_lossy(&b)),
                    None => Err(ResolveError::ReadFailure),
                }
            },
            None => Err(ResolveError::NotFound),
        }
    }
}

} // verus!
