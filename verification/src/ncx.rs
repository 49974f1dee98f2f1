//! Verified reconstruction of the navigation tree from a parsed NCX
//! document, handed over as a flat sequence of elements with depths.
//!
//! A navigation point is a `navPoint` element; its label is the text
//! of the first `text` element in its subtree, its content path the
//! `src` attribute of the first `content` element there, its play
//! order the decimal value of its `playOrder` attribute (0 when absent
//! or unparsable), and its children are the navigation points one
//! level deeper within its subtree. All specifications are stated over
//! the element models, so they compose with what parsing the document
//! bytes yields.

use vstd::prelude::*;

use crate::bytes::all_digits;
use crate::bytes::dec_value;
use crate::bytes::parse_dec_u64;
use crate::bytes::str_eq;
use crate::nav::NavModel;
use crate::nav::NavNode;
use crate::nav::forest_view;
use crate::nav::node_view;
use crate::xml::ElemModel;
use crate::xml::XmlElem;
use crate::xml::attrs_view;
use crate::xml::elem_model;
use crate::xml::elems_view;

verus! {

/// The value of the first attribute called `name`, scanning from `k`.
pub open spec fn attr_from(attrs: Seq<(Seq<char>, Seq<char>)>, k: int, name: Seq<char>) -> Option<
    Seq<char>,
>
    decreases attrs.len() - k,
{
    if k < 0 || k >= attrs.len() {
        None
    } else if attrs[k].0 == name {
        Some(attrs[k].1)
    } else {
        attr_from(attrs, k + 1, name)
    }
}

/// The value of the first attribute called `name`, if any.
pub open spec fn attr_of(attrs: Seq<(Seq<char>, Seq<char>)>, name: Seq<char>) -> Option<
    Seq<char>,
> {
    attr_from(attrs, 0, name)
}

/// Looks up the first attribute called `name`.
pub fn find_attr(attrs: &Vec<(String, String)>, name: &str) -> (r: Option<String>)
    ensures
        (r is Some) == (attr_of(attrs_view(attrs@), name@) is Some),
        r matches Some(v) ==> v@ == attr_of(attrs_view(attrs@), name@)->Some_0,
{
    let ghost av = attrs_view(attrs@);
    let mut k: usize = 0;
    while k < attrs.len()
        invariant
            k <= attrs@.len(),
            av == attrs_view(attrs@),
            av.len() == attrs@.len(),
            attr_of(av, name@) == attr_from(av, k as int, name@),
        decreases attrs@.len() - k,
    {
        proof {
            assert(av[k as int] == (attrs@[k as int].0@, attrs@[k as int].1@));
        }
        if str_eq(attrs[k].0.as_str(), name) {
            return Some(attrs[k].1.clone());
        }
        k += 1;
    }
    None
}

/// The position of the first element tagged `tag` in [k, end), if any.
pub open spec fn tagged_from(elems: Seq<ElemModel>, k: int, end: int, tag: Seq<char>) -> Option<
    int,
>
    decreases end - k,
{
    if k < 0 || k >= end || k >= elems.len() {
        None
    } else if elems[k].1 == tag {
        Some(k)
    } else {
        tagged_from(elems, k + 1, end, tag)
    }
}

/// Scans [start, end) for the first element tagged `tag`.
pub fn find_tagged(elems: &Vec<XmlElem>, start: usize, end: usize, tag: &str) -> (r: Option<
    usize,
>)
    requires
        end <= elems@.len(),
    ensures
        (r is Some) == (tagged_from(elems_view(elems@), start as int, end as int, tag@) is Some),
        r matches Some(i) ==> start <= i < end && tagged_from(
            elems_view(elems@),
            start as int,
            end as int,
            tag@,
        ) == Some(i as int),
{
    let ghost ev = elems_view(elems@);
    let mut k: usize = start;
    if k > end {
        return None;
    }
    while k < end
        invariant
            k <= end <= elems@.len(),
            start <= k,
            ev == elems_view(elems@),
            ev.len() == elems@.len(),
            tagged_from(ev, start as int, end as int, tag@) == tagged_from(
                ev,
                k as int,
                end as int,
                tag@,
            ),
        decreases end - k,
    {
        proof {
            assert(ev[k as int] == elem_model(elems@[k as int]));
        }
        if str_eq(elems[k].tag.as_str(), tag) {
            return Some(k);
        }
        k += 1;
    }
    None
}

/// The first position at or after `k` whose element does not lie
/// deeper than `d`, or the end of the document.
pub open spec fn subtree_end_from(elems: Seq<ElemModel>, k: int, d: int) -> int
    decreases elems.len() - k,
{
    if k < 0 || k >= elems.len() {
        elems.len() as int
    } else if elems[k].0 <= d {
        k
    } else {
        subtree_end_from(elems, k + 1, d)
    }
}

proof fn lemma_subtree_end_bounds(elems: Seq<ElemModel>, k: int, d: int)
    requires
        0 <= k <= elems.len(),
    ensures
        k <= subtree_end_from(elems, k, d) <= elems.len(),
    decreases elems.len() - k,
{
    if k < elems.len() && elems[k].0 > d {
        lemma_subtree_end_bounds(elems, k + 1, d);
    }
}

/// Scans forward from `start` for the end of the subtree opened just
/// before it: the first element not deeper than `d`.
pub fn find_subtree_end(elems: &Vec<XmlElem>, start: usize, d: usize) -> (r: usize)
    requires
        start <= elems@.len(),
    ensures
        r as int == subtree_end_from(elems_view(elems@), start as int, d as int),
        start <= r <= elems@.len(),
{
    let ghost ev = elems_view(elems@);
    let mut k: usize = start;
    while k < elems.len() && elems[k].depth > d
        invariant
            start <= k <= elems@.len(),
            ev == elems_view(elems@),
            ev.len() == elems@.len(),
            subtree_end_from(ev, start as int, d as int) == subtree_end_from(ev, k as int, d as int),
        decreases elems@.len() - k,
    {
        proof {
            assert(ev[k as int] == elem_model(elems@[k as int]));
        }
        k += 1;
    }
    proof {
        if k < elems@.len() {
            assert(ev[k as int] == elem_model(elems@[k as int]));
        }
    }
    k
}

/// The play order of a navigation point: its `playOrder` attribute
/// read as a decimal numeral, or 0 when absent or unparsable.
pub open spec fn play_order_of(e: ElemModel) -> u64 {
    match attr_of(e.2, "playOrder"@) {
        Some(v) => {
            let bs = vstd::utf8::encode_utf8(v);
            if bs.len() > 0 && all_digits(bs) && dec_value(bs) <= u64::MAX {
                dec_value(bs) as u64
            } else {
                0
            }
        },
        None => 0,
    }
}

/// Reads the play order of a navigation point element.
pub fn read_play_order(e: &XmlElem) -> (r: u64)
    ensures
        r == play_order_of(elem_model(*e)),
{
    match find_attr(&e.attrs, "playOrder") {
        Some(v) => match parse_dec_u64(v.as_str().as_bytes()) {
            Some(n) => n,
            None => 0,
        },
        None => 0,
    }
}

/// The label of a navigation point whose subtree is [s, j): the text
/// of the first `text` element there, or empty.
pub open spec fn label_of(elems: Seq<ElemModel>, s: int, j: int) -> Seq<char> {
    match tagged_from(elems, s, j, "text"@) {
        Some(t) => elems[t].3,
        None => Seq::empty(),
    }
}

/// The content path of a navigation point whose subtree is [s, j):
/// the `src` attribute of the first `content` element there, or empty.
pub open spec fn content_of(elems: Seq<ElemModel>, s: int, j: int) -> Seq<char> {
    match tagged_from(elems, s, j, "content"@) {
        Some(c) => match attr_of(elems[c].2, "src"@) {
            Some(v) => v,
            None => Seq::empty(),
        },
        None => Seq::empty(),
    }
}

/// The navigation points at depth `d` within [start, end), in order,
/// each with its children one level deeper inside its subtree.
pub open spec fn points_spec(elems: Seq<ElemModel>, start: int, end: int, d: int) -> Seq<NavModel>
    decreases end - start,
{
    if start < 0 || start >= end || end > elems.len() {
        Seq::empty()
    } else if elems[start].1 == "navPoint"@ && elems[start].0 == d {
        let j0 = subtree_end_from(elems, start + 1, d);
        let j = if j0 < start + 1 {
            start + 1
        } else if j0 > end {
            end
        } else {
            j0
        };
        seq![
            NavModel {
                label: label_of(elems, start + 1, j),
                content_path: content_of(elems, start + 1, j),
                play_order: play_order_of(elems[start]),
                children: points_spec(elems, start + 1, j, d + 1),
            },
        ] + points_spec(elems, j, end, d)
    } else {
        points_spec(elems, start + 1, end, d)
    }
}

/// A range without any element at depth `d` holds no navigation point.
proof fn lemma_points_empty(elems: Seq<ElemModel>, start: int, end: int, d: int)
    requires
        forall|k: int| start <= k < end ==> (#[trigger] elems[k]).0 != d,
    ensures
        points_spec(elems, start, end, d) == Seq::<NavModel>::empty(),
    decreases end - start,
{
    if 0 <= start && start < end && end <= elems.len() {
        lemma_points_empty(elems, start + 1, end, d);
    }
}

/// Builds the navigation points at depth `d` within [start, end).
fn build_points(elems: &Vec<XmlElem>, start: usize, end: usize, d: usize) -> (r: Vec<NavNode>)
    requires
        start <= end,
        end <= elems@.len(),
    ensures
        forest_view(r@) == points_spec(elems_view(elems@), start as int, end as int, d as int),
    decreases end - start,
{
    let ghost ev = elems_view(elems@);
    let mut acc: Vec<NavNode> = Vec::new();
    let mut cur: usize = start;
    proof {
        assert(forest_view(acc@) + points_spec(ev, cur as int, end as int, d as int)
            =~= points_spec(ev, start as int, end as int, d as int));
    }
    while cur < end
        invariant
            start <= cur <= end,
            end <= elems@.len(),
            ev == elems_view(elems@),
            ev.len() == elems@.len(),
            forest_view(acc@) + points_spec(ev, cur as int, end as int, d as int) == points_spec(
                ev,
                start as int,
                end as int,
                d as int,
            ),
        decreases end - cur,
    {
        let ghost fprev = forest_view(acc@);
        proof {
            assert(ev[cur as int] == elem_model(elems@[cur as int]));
        }
        let is_point = str_eq(elems[cur].tag.as_str(), "navPoint") && elems[cur].depth == d;
        if is_point {
            let j0 = find_subtree_end(elems, cur + 1, d);
            let j = if j0 > end {
                end
            } else {
                j0
            };
            let children = if d < usize::MAX {
                build_points(elems, cur + 1, j, d + 1)
            } else {
                Vec::new()
            };
            proof {
                if d == usize::MAX {
                    assert forall|k: int| cur + 1 <= k < j implies (#[trigger] ev[k]).0 != d
                        + 1 by {
                        assert(ev[k] == elem_model(elems@[k]));
                    }
                    lemma_points_empty(ev, cur as int + 1, j as int, d as int + 1);
                    assert(forest_view(children@) =~= points_spec(
                        ev,
                        cur as int + 1,
                        j as int,
                        d as int + 1,
                    ));
                }
            }
            let label = match find_tagged(elems, cur + 1, j, "text") {
                Some(t) => elems[t].text.clone(),
                None => String::new(),
            };
            let cpath = match find_tagged(elems, cur + 1, j, "content") {
                Some(c) => match find_attr(&elems[c].attrs, "src") {
                    Some(v) => v,
                    None => String::new(),
                },
                None => String::new(),
            };
            let po = read_play_order(&elems[cur]);
            let node = NavNode { label, content_path: cpath, play_order: po, children };
            let ghost nv = node_view(node);
            let ghost aprev = acc@;
            acc.push(node);
            proof {
                assert(acc@.drop_last() =~= aprev);
                assert(acc@.last() == node);
                let s = cur as int;
                let e = end as int;
                let dd = d as int;
                let jspec = {
                    let j0s = subtree_end_from(ev, s + 1, dd);
                    if j0s < s + 1 {
                        s + 1
                    } else if j0s > e {
                        e
                    } else {
                        j0s
                    }
                };
                lemma_subtree_end_bounds(ev, s + 1, dd);
                assert(jspec == j as int);
                let m = NavModel {
                    label: label_of(ev, s + 1, j as int),
                    content_path: content_of(ev, s + 1, j as int),
                    play_order: play_order_of(ev[s]),
                    children: points_spec(ev, s + 1, j as int, dd + 1),
                };
                if tagged_from(ev, s + 1, j as int, "text"@) is Some {
                    let t = tagged_from(ev, s + 1, j as int, "text"@)->Some_0;
                    assert(ev[t] == elem_model(elems@[t]));
                }
                if tagged_from(ev, s + 1, j as int, "content"@) is Some {
                    let c = tagged_from(ev, s + 1, j as int, "content"@)->Some_0;
                    assert(ev[c] == elem_model(elems@[c]));
                }
                assert(nv.label == m.label);
                assert(nv.content_path == m.content_path);
                assert(nv.play_order == m.play_order);
                assert(nv.children == m.children);
                assert(nv == m);
                assert(points_spec(ev, s, e, dd) == seq![m] + points_spec(ev, j as int, e, dd));
                assert(forest_view(acc@) =~= fprev.push(nv));
                assert(forest_view(acc@) + points_spec(ev, j as int, e, dd) =~= fprev + (seq![m]
                    + points_spec(ev, j as int, e, dd)));
            }
            cur = j;
        } else {
            proof {
                let s = cur as int;
                assert(points_spec(ev, s, end as int, d as int) == points_spec(
                    ev,
                    s + 1,
                    end as int,
                    d as int,
                ));
            }
            cur += 1;
        }
    }
    proof {
        assert(forest_view(acc@) + points_spec(ev, cur as int, end as int, d as int)
            =~= forest_view(acc@));
    }
    acc
}

/// The table-of-contents forest of a parsed NCX document: the
/// navigation points one level below the first `navMap` element; an
/// absent navigation map gives an empty forest.
pub open spec fn toc_spec(elems: Seq<ElemModel>) -> Seq<NavModel> {
    match tagged_from(elems, 0, elems.len() as int, "navMap"@) {
        Some(m) => {
            let d = elems[m].0;
            let j0 = subtree_end_from(elems, m + 1, d);
            let j = if j0 > elems.len() {
                elems.len() as int
            } else {
                j0
            };
            points_spec(elems, m + 1, j, d + 1)
        },
        None => Seq::empty(),
    }
}

/// Builds the table-of-contents forest of a parsed NCX document.
pub fn build_toc(elems: &Vec<XmlElem>) -> (r: Vec<NavNode>)
    ensures
        forest_view(r@) == toc_spec(elems_view(elems@)),
{
    let ghost ev = elems_view(elems@);
    proof {
        assert(ev.len() == elems@.len());
    }
    match find_tagged(elems, 0, elems.len(), "navMap") {
        Some(m) => {
            proof {
                assert(ev[m as int] == elem_model(elems@[m as int]));
            }
            let d = elems[m].depth;
            let j0 = find_subtree_end(elems, m + 1, d);
            let j = if j0 > elems.len() {
                elems.len()
            } else {
                j0
            };
            proof {
                lemma_subtree_end_bounds(ev, m as int + 1, d as int);
            }
            if d < usize::MAX {
                build_points(elems, m + 1, j, d + 1)
            } else {
                proof {
                    assert forall|k: int| m + 1 <= k < j implies (#[trigger] ev[k]).0 != d
                        + 1 by {
                        assert(ev[k] == elem_model(elems@[k]));
                    }
                    lemma_points_empty(ev, m as int + 1, j as int, d as int + 1);
                }
                Vec::new()
            }
        },
        None => {
            proof {
                assert(forest_view(Seq::<NavNode>::empty()) =~= Seq::<NavModel>::empty());
            }
            Vec::new()
        },
    }
}

} // verus!
