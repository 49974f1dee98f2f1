//! Verified normalization of client-supplied logical paths and matching
//! of normalized paths against archive entry names.
//!
//! A path is normalized by cutting any in-document fragment, splitting
//! on `/`, resolving `.` and `..` segments against a segment stack
//! (a leading `..` is dropped), and joining the remaining segments.
//! Normalization never keeps a parent-directory segment, so a lookup
//! that only compares the normalized path with entry names can never
//! reach outside the archive's entry set.

use vstd::prelude::*;

use crate::bytes::bytes_eq;
use crate::bytes::bytes_has_suffix;
use crate::bytes::has_suffix;

verus! {

/// Index of the first `#` byte of `s`, or `s.len()` when there is none.
pub open spec fn find_hash(s: Seq<u8>) -> int
    decreases s.len(),
{
    if s.len() == 0 {
        0
    } else if s[0] == 35 {
        0
    } else {
        1 + find_hash(s.drop_first())
    }
}

/// `s` with any in-document fragment (`#` and what follows) removed.
pub open spec fn cut_fragment(s: Seq<u8>) -> Seq<u8> {
    s.take(find_hash(s))
}

proof fn lemma_find_hash(s: Seq<u8>)
    ensures
        0 <= find_hash(s) <= s.len(),
        find_hash(s) < s.len() ==> s[find_hash(s)] == 35,
        forall|k: int| 0 <= k < find_hash(s) ==> s[k] != 35,
    decreases s.len(),
{
    if s.len() > 0 && s[0] != 35 {
        lemma_find_hash(s.drop_first());
        assert forall|k: int| 0 <= k < find_hash(s) implies s[k] != 35 by {
            if k > 0 {
                assert(s.drop_first()[k - 1] != 35);
            }
        }
    }
}

/// Copies `p` up to (excluding) its first `#` byte.
pub fn cut_fragment_vec(p: &[u8]) -> (r: Vec<u8>)
    ensures
        r@ == cut_fragment(p@),
{
    let mut out: Vec<u8> = Vec::new();
    let mut i: usize = 0;
    while i < p.len() && p[i] != 35
        invariant
            i <= p@.len(),
            out@ == p@.take(i as int),
            forall|k: int| 0 <= k < i ==> p@[k] != 35,
        decreases p@.len() - i,
    {
        out.push(p[i]);
        i += 1;
        proof {
            assert(out@ =~= p@.take(i as int));
        }
    }
    proof {
        lemma_find_hash(p@);
        let f = find_hash(p@);
        assert(i <= p@.len() && (i == p@.len() || p@[i as int] == 35));
        assert(i as int == f) by {
            if f < i {
                assert(p@[f] != 35);
                assert(p@[f] == 35);
            }
            if i < f {
                assert(p@[i as int] != 35);
            }
        }
    }
    out
}

/// The segments of `s`, split on `/`; splitting the empty sequence
/// gives one empty segment.
pub open spec fn split_path(s: Seq<u8>) -> Seq<Seq<u8>>
    decreases s.len(),
{
    if s.len() == 0 {
        seq![Seq::<u8>::empty()]
    } else {
        let r = split_path(s.drop_last());
        if s.last() == 47 {
            r.push(Seq::<u8>::empty())
        } else {
            r.update(r.len() - 1, r.last().push(s.last()))
        }
    }
}

proof fn lemma_split_nonempty(s: Seq<u8>)
    ensures
        split_path(s).len() >= 1,
    decreases s.len(),
{
    if s.len() > 0 {
        lemma_split_nonempty(s.drop_last());
    }
}

/// The sequence of the views of a sequence of byte vectors.
pub open spec fn segs_view(v: Seq<Vec<u8>>) -> Seq<Seq<u8>> {
    Seq::new(v.len(), |i: int| v[i]@)
}

/// Splits `p` into its `/`-separated segments.
pub fn split_segments(p: &Vec<u8>) -> (r: Vec<Vec<u8>>)
    ensures
        segs_view(r@) == split_path(p@),
        r@.len() >= 1,
{
    let mut segs: Vec<Vec<u8>> = Vec::new();
    segs.push(Vec::new());
    proof {
        assert(segs_view(segs@) =~= split_path(p@.take(0)));
    }
    let mut i: usize = 0;
    while i < p.len()
        invariant
            i <= p@.len(),
            segs@.len() >= 1,
            segs_view(segs@) == split_path(p@.take(i as int)),
        decreases p@.len() - i,
    {
        let ghost prev = segs_view(segs@);
        let b = p[i];
        if b == 47 {
            segs.push(Vec::new());
            proof {
                assert(segs_view(segs@) =~= prev.push(Seq::<u8>::empty()));
            }
        } else {
            let mut lastv = match segs.pop() {
                Some(v) => v,
                None => Vec::new(),
            };
            lastv.push(b);
            segs.push(lastv);
            proof {
                assert(segs_view(segs@) =~= prev.update(
                    prev.len() - 1,
                    prev.last().push(b),
                ));
            }
        }
        i += 1;
        proof {
            assert(p@.take(i as int).drop_last() =~= p@.take(i as int - 1));
            assert(p@.take(i as int).last() == p@[i as int - 1]);
        }
    }
    proof {
        assert(p@.take(i as int) =~= p@);
        lemma_split_nonempty(p@);
    }
    segs
}

/// Resolves `.` (dropped), empty (dropped) and `..` (pops the previous
/// kept segment, or is dropped at the start) over a segment stack.
pub open spec fn norm_segments(segs: Seq<Seq<u8>>) -> Seq<Seq<u8>>
    decreases segs.len(),
{
    if segs.len() == 0 {
        Seq::empty()
    } else {
        let p = norm_segments(segs.drop_last());
        let s = segs.last();
        if s == seq![46u8, 46u8] {
            if p.len() > 0 {
                p.drop_last()
            } else {
                p
            }
        } else if s == seq![46u8] || s.len() == 0 {
            p
        } else {
            p.push(s)
        }
    }
}

/// Path-traversal safety: normalization never keeps a parent-directory,
/// current-directory or empty segment, for any input segments.
pub proof fn lemma_norm_segments_safe(segs: Seq<Seq<u8>>)
    ensures
        forall|k: int| 0 <= k < norm_segments(segs).len() ==> {
            let kept = #[trigger] norm_segments(segs)[k];
            kept != seq![46u8, 46u8] && kept != seq![46u8] && kept.len() > 0
        },
    decreases segs.len(),
{
    if segs.len() > 0 {
        lemma_norm_segments_safe(segs.drop_last());
        let p = norm_segments(segs.drop_last());
        let s = segs.last();
        let n = norm_segments(segs);
        assert forall|k: int| 0 <= k < n.len() implies {
            let kept = #[trigger] n[k];
            kept != seq![46u8, 46u8] && kept != seq![46u8] && kept.len() > 0
        } by {
            if s == seq![46u8, 46u8] {
                assert(n[k] == p[k]);
            } else if s == seq![46u8] || s.len() == 0 {
                assert(n[k] == p[k]);
            } else {
                if k < n.len() - 1 {
                    assert(n[k] == p[k]);
                } else {
                    assert(n[k] == s);
                }
            }
        }
    }
}

/// Path-traversal safety for a whole client path: whatever the input,
/// the segments kept by normalization never contain a
/// parent-directory, current-directory or empty segment, so a lookup
/// of the joined form can only name paths inside the entry namespace.
pub proof fn lemma_normalized_path_safe(s: Seq<u8>)
    ensures
        forall|k: int|
            0 <= k < norm_segments(split_path(cut_fragment(s))).len() ==> {
                let kept = #[trigger] norm_segments(split_path(cut_fragment(s)))[k];
                kept != seq![46u8, 46u8] && kept != seq![46u8] && kept.len() > 0
            },
{
    lemma_norm_segments_safe(split_path(cut_fragment(s)));
}

/// True when `v` is exactly `..`.
fn is_dotdot(v: &Vec<u8>) -> (r: bool)
    ensures
        r == (v@ == seq![46u8, 46u8]),
{
    let r = v.len() == 2 && v[0] == 46 && v[1] == 46;
    proof {
        if r {
            assert(v@ =~= seq![46u8, 46u8]);
        } else {
            if v@ == seq![46u8, 46u8] {
                assert(v@.len() == 2 && v@[0] == 46 && v@[1] == 46);
            }
        }
    }
    r
}

/// True when `v` is exactly `.`.
fn is_dot(v: &Vec<u8>) -> (r: bool)
    ensures
        r == (v@ == seq![46u8]),
{
    let r = v.len() == 1 && v[0] == 46;
    proof {
        if r {
            assert(v@ =~= seq![46u8]);
        } else {
            if v@ == seq![46u8] {
                assert(v@.len() == 1 && v@[0] == 46);
            }
        }
    }
    r
}

/// Applies `norm_segments` to a split path.
pub fn normalize_segments(segs: Vec<Vec<u8>>) -> (r: Vec<Vec<u8>>)
    ensures
        segs_view(r@) == norm_segments(segs_view(segs@)),
{
    let mut stack: Vec<Vec<u8>> = Vec::new();
    proof {
        assert(segs_view(stack@) =~= norm_segments(segs_view(segs@).take(0)));
    }
    let mut j: usize = 0;
    while j < segs.len()
        invariant
            j <= segs@.len(),
            segs_view(stack@) == norm_segments(segs_view(segs@).take(j as int)),
        decreases segs@.len() - j,
    {
        let ghost prev = segs_view(stack@);
        let seg = &segs[j];
        if is_dotdot(seg) {
            if stack.len() > 0 {
                stack.pop();
                proof {
                    assert(segs_view(stack@) =~= prev.drop_last());
                }
            }
        } else if is_dot(seg) || seg.len() == 0 {
        } else {
            stack.push(seg.clone());
            proof {
                assert(segs_view(stack@) =~= prev.push(seg@));
            }
        }
        j += 1;
        proof {
            assert(segs_view(segs@).take(j as int).drop_last() =~= segs_view(segs@).take(
                j as int - 1,
            ));
            assert(segs_view(segs@).take(j as int).last() == segs@[j - 1]@);
        }
    }
    proof {
        assert(segs_view(segs@).take(j as int) =~= segs_view(segs@));
    }
    stack
}

/// The segments joined with `/`, with no leading or trailing separator.
pub open spec fn join_segments(segs: Seq<Seq<u8>>) -> Seq<u8>
    decreases segs.len(),
{
    if segs.len() == 0 {
        Seq::empty()
    } else if segs.len() == 1 {
        segs[0]
    } else {
        join_segments(segs.drop_last()) + seq![47u8] + segs.last()
    }
}

/// Joins segments with `/`.
pub fn join_segments_vec(segs: &Vec<Vec<u8>>) -> (r: Vec<u8>)
    ensures
        r@ == join_segments(segs_view(segs@)),
{
    let mut out: Vec<u8> = Vec::new();
    let mut j: usize = 0;
    while j < segs.len()
        invariant
            j <= segs@.len(),
            out@ == join_segments(segs_view(segs@).take(j as int)),
        decreases segs@.len() - j,
    {
        let ghost prev = out@;
        if j > 0 {
            out.push(47);
        }
        let seg = &segs[j];
        let mut k: usize = 0;
        while k < seg.len()
            invariant
                k <= seg@.len(),
                j < segs@.len(),
                seg@ == segs@[j as int]@,
                out@ == (if j > 0 {
                    prev + seq![47u8]
                } else {
                    prev
                }) + seg@.take(k as int),
            decreases seg@.len() - k,
        {
            out.push(seg[k]);
            k += 1;
            proof {
                assert(seg@.take(k as int) =~= seg@.take(k as int - 1).push(seg@[k - 1]));
                assert(out@ =~= (if j > 0 {
                    prev + seq![47u8]
                } else {
                    prev
                }) + seg@.take(k as int));
            }
        }
        j += 1;
        proof {
            assert(seg@.take(seg@.len() as int) =~= seg@);
            let whole = segs_view(segs@);
            assert(whole.take(j as int).drop_last() =~= whole.take(j as int - 1));
            assert(whole.take(j as int).last() == segs@[j - 1]@);
            if j == 1 {
                assert(out@ =~= whole.take(1)[0]);
            } else {
                assert(out@ =~= join_segments(whole.take(j as int - 1)) + seq![47u8] + segs@[j
                    - 1]@);
            }
        }
    }
    proof {
        assert(segs_view(segs@).take(j as int) =~= segs_view(segs@));
    }
    out
}

/// The fully normalized form of a client-supplied path: fragment cut,
/// split on `/`, relative segments resolved, and joined again.
pub open spec fn normalized_path(s: Seq<u8>) -> Seq<u8> {
    join_segments(norm_segments(split_path(cut_fragment(s))))
}

/// Normalizes a client-supplied path.
pub fn normalize_path(p: &[u8]) -> (r: Vec<u8>)
    ensures
        r@ == normalized_path(p@),
{
    let cut = cut_fragment_vec(p);
    let segs = split_segments(&cut);
    let kept = normalize_segments(segs);
    join_segments_vec(&kept)
}

/// True when archive entry name `name` matches normalized path `q`:
/// either exactly, or `name` ends with `/` followed by `q`. The empty
/// path matches nothing.
pub open spec fn matches_path(name: Seq<u8>, q: Seq<u8>) -> bool {
    q.len() > 0 && (name == q || (name.len() > q.len() && has_suffix(name, q) && name[name.len()
        - q.len() - 1] == 47))
}

/// Decides `matches_path` on an entry name.
pub fn name_matches(name: &Vec<u8>, q: &Vec<u8>) -> (r: bool)
    ensures
        r == matches_path(name@, q@),
{
    if q.len() == 0 {
        return false;
    }
    if name.len() == q.len() {
        bytes_eq(name.as_slice(), q.as_slice())
    } else if name.len() > q.len() {
        let sep = name[name.len() - q.len() - 1];
        sep == 47 && bytes_has_suffix(name, q)
    } else {
        false
    }
}

/// Index of the first entry name that matches `q`, if any.
pub open spec fn first_match(names: Seq<Seq<u8>>, q: Seq<u8>) -> Option<int>
    decreases names.len(),
{
    if names.len() == 0 {
        None
    } else if matches_path(names[0], q) {
        Some(0int)
    } else {
        match first_match(names.drop_first(), q) {
            Some(i) => Some(i + 1),
            None => None,
        }
    }
}

/// What `first_match` returns: the least matching index, or nothing
/// when no entry name matches.
pub proof fn lemma_first_match(names: Seq<Seq<u8>>, q: Seq<u8>)
    ensures
        match first_match(names, q) {
            None => forall|k: int| 0 <= k < names.len() ==> !matches_path(#[trigger] names[k], q),
            Some(i) => 0 <= i < names.len() && matches_path(names[i], q) && forall|k: int|
                0 <= k < i ==> !matches_path(#[trigger] names[k], q),
        },
    decreases names.len(),
{
    if names.len() > 0 && !matches_path(names[0], q) {
        lemma_first_match(names.drop_first(), q);
        match first_match(names.drop_first(), q) {
            None => {
                assert forall|k: int| 0 <= k < names.len() implies !matches_path(
                    #[trigger] names[k],
                    q,
                ) by {
                    if k > 0 {
                        assert(!matches_path(names.drop_first()[k - 1], q));
                        assert(names.drop_first()[k - 1] == names[k]);
                    }
                }
            },
            Some(i) => {
                assert(names.drop_first()[i] == names[i + 1]);
                assert forall|k: int| 0 <= k < i + 1 implies !matches_path(
                    #[trigger] names[k],
                    q,
                ) by {
                    if k > 0 {
                        assert(!matches_path(names.drop_first()[k - 1], q));
                        assert(names.drop_first()[k - 1] == names[k]);
                    }
                }
            },
        }
    }
}

/// Whenever any entry name matches a path — as the content path of a
/// flattened entry does when its resource exists in the archive —
/// lookup yields an entry, so resolution does not report NotFound.
pub proof fn lemma_match_is_found(names: Seq<Seq<u8>>, q: Seq<u8>)
    requires
        exists|k: int| 0 <= k < names.len() && matches_path(#[trigger] names[k], q),
    ensures
        first_match(names, q) is Some,
{
    lemma_first_match(names, q);
    if first_match(names, q) is None {
        let k = choose|k: int| 0 <= k < names.len() && matches_path(#[trigger] names[k], q);
        assert(!matches_path(names[k], q));
    }
}

/// Scans entry names for the first match of `q`.
pub fn find_first_match(names: &Vec<Vec<u8>>, q: &Vec<u8>) -> (r: Option<usize>)
    ensures
        match r {
            None => first_match(segs_view(names@), q@) is None,
            Some(i) => first_match(segs_view(names@), q@) == Some(i as int),
        },
{
    let mut i: usize = 0;
    while i < names.len()
        invariant
            i <= names@.len(),
            forall|k: int| 0 <= k < i ==> !matches_path(#[trigger] segs_view(names@)[k], q@),
        decreases names@.len() - i,
    {
        if name_matches(&names[i], q) {
            proof {
                lemma_first_match(segs_view(names@), q@);
                let fm = first_match(segs_view(names@), q@);
                assert(matches_path(segs_view(names@)[i as int], q@));
                if fm is None {
                } else {
                    let f = fm->Some_0;
                    if f < i {
                        assert(!matches_path(segs_view(names@)[f], q@));
                    }
                    if i < f {
                        assert(!matches_path(segs_view(names@)[i as int], q@));
                    }
                }
            }
            return Some(i);
        }
        i += 1;
    }
    proof {
        lemma_first_match(segs_view(names@), q@);
        let fm = first_match(segs_view(names@), q@);
        if fm is Some {
            assert(!matches_path(segs_view(names@)[fm->Some_0], q@));
        }
    }
    None
}

} // verus!
