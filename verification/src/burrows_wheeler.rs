//! The Burrows-Wheeler transform and its inverse.
//!
//! The forward transform sorts all cyclic rotations of the input in
//! lexicographic order, ties between character-identical rotations broken
//! by starting offset, and emits the last byte of each rotation in that
//! order together with the rank of the rotation that starts at offset 0
//! (the primary index). The inverse rebuilds the buffer by walking the
//! standard last-to-first column mapping backwards from the primary index.
use vstd::prelude::*;
use vstd::relations::{sorted_by, total_ordering};

verus! {

/// The error the inverse transform can report.
#[derive(Debug)]
pub enum DecodeError {
    /// The primary index does not name a rotation of the buffer.
    PrimaryIndexOutOfRange,
}

/// The byte `k` positions into the rotation of `s` that starts at `a`.
pub open spec fn rot_char(s: Seq<u8>, a: usize, k: int) -> u8
    recommends
        s.len() > 0,
        k >= 0,
{
    s[(a as int + k) % s.len() as int]
}

/// Compare the rotations starting at `a` and at `b`, position `k` onward;
/// character-identical rotations fall back to the starting offsets.
pub open spec fn rot_le_from(s: Seq<u8>, a: usize, b: usize, k: int) -> bool
    decreases s.len() - k,
{
    if k < 0 || k >= s.len() {
        a <= b
    } else if rot_char(s, a, k) != rot_char(s, b, k) {
        rot_char(s, a, k) < rot_char(s, b, k)
    } else {
        rot_le_from(s, a, b, k + 1)
    }
}

/// The rotation order: lexicographic over the full cycle, offset-ascending
/// on ties.
pub open spec fn rot_le(s: Seq<u8>, a: usize, b: usize) -> bool {
    rot_le_from(s, a, b, 0)
}

/// The rotation order as a relation value, for sorting.
pub open spec fn rot_leq(s: Seq<u8>) -> spec_fn(usize, usize) -> bool {
    |a: usize, b: usize| rot_le(s, a, b)
}

proof fn lemma_rot_le_from_refl(s: Seq<u8>, a: usize, k: int)
    ensures
        rot_le_from(s, a, a, k),
    decreases s.len() - k,
{
    if 0 <= k < s.len() {
        lemma_rot_le_from_refl(s, a, k + 1);
    }
}

proof fn lemma_rot_le_from_antisym(s: Seq<u8>, a: usize, b: usize, k: int)
    requires
        rot_le_from(s, a, b, k),
        rot_le_from(s, b, a, k),
    ensures
        a == b,
    decreases s.len() - k,
{
    if k < 0 || k >= s.len() {
    } else if rot_char(s, a, k) != rot_char(s, b, k) {
    } else {
        lemma_rot_le_from_antisym(s, a, b, k + 1);
    }
}

proof fn lemma_rot_le_from_trans(s: Seq<u8>, a: usize, b: usize, c: usize, k: int)
    requires
        rot_le_from(s, a, b, k),
        rot_le_from(s, b, c, k),
    ensures
        rot_le_from(s, a, c, k),
    decreases s.len() - k,
{
    if k < 0 || k >= s.len() {
    } else {
        let ca = rot_char(s, a, k);
        let cb = rot_char(s, b, k);
        let cc = rot_char(s, c, k);
        if ca == cb && cb == cc {
            lemma_rot_le_from_trans(s, a, b, c, k + 1);
        }
    }
}

proof fn lemma_rot_le_from_connected(s: Seq<u8>, a: usize, b: usize, k: int)
    ensures
        rot_le_from(s, a, b, k) || rot_le_from(s, b, a, k),
    decreases s.len() - k,
{
    if 0 <= k < s.len() {
        lemma_rot_le_from_connected(s, a, b, k + 1);
    }
}

/// The rotation order is a total order on offsets.
pub proof fn lemma_rot_le_total(s: Seq<u8>)
    ensures
        total_ordering(rot_leq(s)),
{
    let leq = rot_leq(s);
    assert forall|a: usize| #[trigger] leq(a, a) by {
        lemma_rot_le_from_refl(s, a, 0);
    }
    assert forall|a: usize, b: usize| #[trigger] leq(a, b) && #[trigger] leq(b, a) implies a
        == b by {
        lemma_rot_le_from_antisym(s, a, b, 0);
    }
    assert forall|a: usize, b: usize, c: usize|
        #[trigger] leq(a, b) && #[trigger] leq(b, c) implies leq(a, c) by {
        lemma_rot_le_from_trans(s, a, b, c, 0);
    }
    assert forall|a: usize, b: usize| #[trigger] leq(a, b) || #[trigger] leq(b, a) by {
        lemma_rot_le_from_connected(s, a, b, 0);
    }
}

/// Decide the rotation order between the rotations at `a` and at `b`.
fn rot_le_exec(data: &Vec<u8>, a: usize, b: usize) -> (r: bool)
    requires
        data@.len() > 0,
        a < data@.len(),
        b < data@.len(),
    ensures
        r == rot_le(data@, a, b),
{
    let n = data.len();
    let mut k: usize = 0;
    while k < n
        invariant
            0 <= k <= n,
            n == data@.len(),
            n > 0,
            a < n,
            b < n,
            rot_le(data@, a, b) == rot_le_from(data@, a, b, k as int),
        decreases n - k,
    {
        let ia = if k < n - a {
            a + k
        } else {
            k - (n - a)
        };
        let ib = if k < n - b {
            b + k
        } else {
            k - (n - b)
        };
        proof {
            if k < n - a {
                assert((a + k) as int % n as int == a + k) by (nonlinear_arith)
                    requires 0 <= a + k < n;
            } else {
                assert((a + k) as int % n as int == a + k - n) by (nonlinear_arith)
                    requires n <= a + k < 2 * n, n > 0;
            }
            assert(ia as int == (a as int + k as int) % n as int);
            if k < n - b {
                assert((b + k) as int % n as int == b + k) by (nonlinear_arith)
                    requires 0 <= b + k < n;
            } else {
                assert((b + k) as int % n as int == b + k - n) by (nonlinear_arith)
                    requires n <= b + k < 2 * n, n > 0;
            }
            assert(ib as int == (b as int + k as int) % n as int);
        }
        let ca = data[ia];
        let cb = data[ib];
        assert(ca == rot_char(data@, a, k as int));
        assert(cb == rot_char(data@, b, k as int));
        if ca != cb {
            return ca < cb;
        }
        k += 1;
    }
    a <= b
}

/// The offsets 0 to `n - 1` in ascending order.
pub open spec fn offsets_id(n: nat) -> Seq<usize> {
    Seq::new(n, |i: int| i as usize)
}

/// The rotation offsets of `s` in sorted rotation order. The offset-based
/// tie break makes the order total and antisymmetric, so this permutation
/// is the unique sorted one.
pub open spec fn bwt_offsets(s: Seq<u8>) -> Seq<usize> {
    offsets_id(s.len()).sort_by(rot_leq(s))
}

/// The index of the last byte of the rotation starting at `a` in a buffer
/// of length `n`: one step backwards around the cycle.
pub open spec fn prev_of(n: int, a: usize) -> int {
    if a == 0 {
        n - 1
    } else {
        a as int - 1
    }
}

/// The transformed buffer: the last byte of each rotation in sorted order.
pub open spec fn last_col(s: Seq<u8>) -> Seq<u8> {
    Seq::new(s.len(), |i: int| s[prev_of(s.len() as int, bwt_offsets(s)[i])])
}

/// Sort rotation offsets by the rotation order, keeping them a permutation
/// of what they were.
fn sort_offsets(data: &Vec<u8>, v: &mut Vec<usize>)
    requires
        data@.len() > 0,
        forall|i: int| 0 <= i < old(v)@.len() ==> #[trigger] old(v)@[i] < data@.len(),
    ensures
        final(v)@.len() == old(v)@.len(),
        final(v)@.to_multiset() == old(v)@.to_multiset(),
        sorted_by(final(v)@, rot_leq(data@)),
        forall|i: int| 0 <= i < final(v)@.len() ==> #[trigger] final(v)@[i] < data@.len(),
{
    broadcast use vstd::seq_lib::group_to_multiset_ensures;
    broadcast use vstd::multiset::group_multiset_axioms;

    let ghost leq = rot_leq(data@);
    proof {
        lemma_rot_le_total(data@);
    }
    let len = v.len();
    let mut i: usize = 0;
    while i < len
        invariant
            i <= len,
            len == v@.len(),
            data@.len() > 0,
            leq == rot_leq(data@),
            total_ordering(leq),
            v@.to_multiset() == old(v)@.to_multiset(),
            forall|t: int| 0 <= t < v@.len() ==> #[trigger] v@[t] < data@.len(),
            forall|t1: int, t2: int|
                0 <= t1 < t2 < i ==> #[trigger] leq(v@[t1], v@[t2]),
            forall|t1: int, t2: int|
                0 <= t1 < i <= t2 < len ==> #[trigger] leq(v@[t1], v@[t2]),
        decreases len - i,
    {
        let mut m: usize = i;
        let mut j: usize = i + 1;
        while j < len
            invariant
                i <= m < j <= len,
                len == v@.len(),
                data@.len() > 0,
                leq == rot_leq(data@),
                total_ordering(leq),
                forall|t: int| 0 <= t < v@.len() ==> #[trigger] v@[t] < data@.len(),
                forall|t: int| i <= t < j ==> #[trigger] leq(v@[m as int], v@[t]),
            decreases len - j,
        {
            if rot_le_exec(data, v[j], v[m]) {
                proof {
                    assert(leq(v@[j as int], v@[m as int]));
                    assert forall|t: int| i <= t < j + 1 implies #[trigger] leq(
                        v@[j as int],
                        v@[t],
                    ) by {
                        if t < j {
                            assert(leq(v@[m as int], v@[t]));
                        } else {
                            assert(leq(v@[j as int], v@[j as int]));
                        }
                    }
                }
                m = j;
            } else {
                proof {
                    assert(leq(v@[m as int], v@[j as int]) || leq(v@[j as int], v@[m as int]));
                }
            }
            j += 1;
        }
        let ghost before = v@;
        let vi = v[i];
        let vm = v[m];
        v[i] = vm;
        v[m] = vi;
        proof {
            broadcast use vstd::seq_lib::group_to_multiset_ensures;
            broadcast use vstd::multiset::group_multiset_axioms;

            assert(v@ =~= before.update(i as int, vm).update(m as int, vi));
            if m != i {
                let s1 = before.update(i as int, vm);
                vstd::seq_lib::to_multiset_update(before, i as int, vm);
                assert(s1.to_multiset() == before.to_multiset().insert(vm).remove(vi));
                assert(s1[m as int] == vm);
                vstd::seq_lib::to_multiset_update(s1, m as int, vi);
                assert(v@ == s1.update(m as int, vi));
                assert(v@.to_multiset() == s1.to_multiset().insert(vi).remove(vm));
                assert(before.contains(vi)) by {
                    let wi = i as int;
                    assert(0 <= wi && wi < before.len());
                    assert(before[wi] == vi);
                }
                assert(before.to_multiset().count(vi) > 0);
                assert(before.contains(vm)) by {
                    let wm = m as int;
                    assert(0 <= wm && wm < before.len());
                    assert(before[wm] == vm);
                }
                assert(before.to_multiset().count(vm) > 0);
                assert forall|x: usize| #[trigger] v@.to_multiset().count(x)
                    == before.to_multiset().count(x) by {
                    assert(vstd::multiset::Multiset::singleton(vi).count(vi) == 1);
                    assert(vstd::multiset::Multiset::singleton(vm).count(vm) == 1);
                    if x != vi {
                        assert(vstd::multiset::Multiset::singleton(vi).count(x) == 0);
                    }
                    if x != vm {
                        assert(vstd::multiset::Multiset::singleton(vm).count(x) == 0);
                    }
                }
                assert(v@.to_multiset() =~= before.to_multiset());
            } else {
                assert(v@ =~= before);
            }
            assert forall|t1: int, t2: int| 0 <= t1 < t2 < i + 1 implies #[trigger] leq(
                v@[t1],
                v@[t2],
            ) by {
                if t2 < i {
                } else {
                    assert(v@[t2] == before[m as int]);
                    if t1 < i {
                        assert(before[t1] == v@[t1]);
                        assert(leq(v@[t1], before[m as int]));
                    }
                }
            }
            assert forall|t1: int, t2: int| 0 <= t1 < i + 1 <= t2 < len implies #[trigger] leq(
                v@[t1],
                v@[t2],
            ) by {
                if t1 < i {
                    assert(before[t1] == v@[t1]);
                    if t2 == m as int {
                        assert(v@[t2] == before[i as int]);
                        assert(leq(before[t1], before[i as int]));
                    } else {
                        assert(v@[t2] == before[t2]);
                    }
                } else {
                    assert(v@[t1] == before[m as int]);
                    if t2 == m as int {
                        assert(v@[t2] == before[i as int]);
                        assert(leq(before[m as int], before[i as int]));
                    } else {
                        assert(v@[t2] == before[t2]);
                        assert(leq(before[m as int], before[t2]));
                    }
                }
            }
        }
        i += 1;
    }
}

/// Transform a buffer: the last column of the sorted rotation matrix, and
/// the rank of the rotation that starts at offset 0 among the sorted
/// rotations (the primary index, 0 for an empty buffer).
pub fn encode(data: &Vec<u8>) -> (r: (usize, Vec<u8>))
    ensures
        r.1@ == last_col(data@),
        data@.len() > 0 ==> r.0 < data@.len() && bwt_offsets(data@)[r.0 as int] == 0,
        data@.len() == 0 ==> r.0 == 0,
{
    broadcast use vstd::seq_lib::group_to_multiset_ensures;

    let n = data.len();
    if n == 0 {
        proof {
            assert(last_col(data@) =~= Seq::<u8>::empty());
        }
        return (0, Vec::new());
    }
    let mut v: Vec<usize> = Vec::new();
    let mut t: usize = 0;
    while t < n
        invariant
            t <= n,
            v@.len() == t,
            forall|k: int| 0 <= k < t ==> #[trigger] v@[k] == k as usize,
        decreases n - t,
    {
        v.push(t);
        t += 1;
    }
    proof {
        assert(v@ =~= offsets_id(data@.len()));
    }
    sort_offsets(data, &mut v);
    proof {
        lemma_rot_le_total(data@);
        offsets_id(data@.len()).lemma_sort_by_ensures(rot_leq(data@));
        vstd::seq_lib::lemma_sorted_unique(v@, bwt_offsets(data@), rot_leq(data@));
        assert(v@ == bwt_offsets(data@));
        assert(offsets_id(data@.len())[0] == 0usize);
        assert(offsets_id(data@.len()).contains(0usize));
        assert(v@.to_multiset() == offsets_id(data@.len()).to_multiset());
        assert(offsets_id(data@.len()).to_multiset().contains(0usize));
        assert(v@.to_multiset().contains(0usize));
        assert(v@.contains(0usize));
    }
    let ghost w = choose|j: int| 0 <= j < v@.len() && v@[j] == 0usize;
    let mut primary: usize = 0;
    while v[primary] != 0
        invariant
            v@.len() == data@.len(),
            n == v@.len(),
            0 <= primary <= w < v@.len(),
            v@[w] == 0usize,
        decreases w - primary,
    {
        primary += 1;
    }
    let mut out: Vec<u8> = Vec::new();
    let mut i: usize = 0;
    while i < n
        invariant
            i <= n,
            n == data@.len(),
            n > 0,
            v@ == bwt_offsets(data@),
            v@.len() == n,
            forall|k: int| 0 <= k < v@.len() ==> #[trigger] v@[k] < data@.len(),
            out@.len() == i,
            forall|k: int|
                0 <= k < i ==> #[trigger] out@[k] == data@[prev_of(n as int, v@[k])],
        decreases n - i,
    {
        let off = v[i];
        let prev = if off == 0 {
            n - 1
        } else {
            off - 1
        };
        out.push(data[prev]);
        i += 1;
    }
    proof {
        assert(out@ =~= last_col(data@));
    }
    (primary, out)
}

/// How many bytes of `s` equal the value `v`.
pub open spec fn occ_eq(s: Seq<u8>, v: int) -> nat
    decreases s.len(),
{
    if s.len() == 0 {
        0
    } else {
        occ_eq(s.drop_last(), v) + if s.last() == v {
            1nat
        } else {
            0nat
        }
    }
}

/// How many bytes of `s` are less than the value `v`.
pub open spec fn occ_lt(s: Seq<u8>, v: int) -> nat
    decreases s.len(),
{
    if s.len() == 0 {
        0
    } else {
        occ_lt(s.drop_last(), v) + if (s.last() as int) < v {
            1nat
        } else {
            0nat
        }
    }
}

/// The last-to-first mapping: position `i` of the last column corresponds
/// to the row of the first column given by the byte's rank.
pub open spec fn lf_map(s: Seq<u8>, i: int) -> int
    recommends
        0 <= i < s.len(),
{
    occ_lt(s, s[i] as int) + occ_eq(s.take(i), s[i] as int) as int
}

/// `t` applications of the last-to-first mapping, starting from `p`.
pub open spec fn lf_iter(s: Seq<u8>, p: int, t: nat) -> int
    decreases t,
{
    if t == 0 {
        p
    } else {
        lf_map(s, lf_iter(s, p, (t - 1) as nat))
    }
}

/// What the inverse transform produces from a last column `s` and primary
/// index `p`: the walk visits the bytes of the original buffer from its
/// last to its first.
pub open spec fn inverse_spec(s: Seq<u8>, p: int) -> Seq<u8> {
    Seq::new(s.len(), |j: int| s[lf_iter(s, p, (s.len() - 1 - j) as nat)])
}

/// Counts over `v` and over `v + 1` are related by the count of `v`.
proof fn lemma_occ_lt_succ(s: Seq<u8>, v: int)
    ensures
        occ_lt(s, v + 1) == occ_lt(s, v) + occ_eq(s, v),
    decreases s.len(),
{
    if s.len() > 0 {
        lemma_occ_lt_succ(s.drop_last(), v);
    }
}

/// No more bytes are below or at a value than there are bytes.
proof fn lemma_occ_bound(s: Seq<u8>, v: int)
    ensures
        occ_lt(s, v) + occ_eq(s, v) <= s.len(),
    decreases s.len(),
{
    if s.len() > 0 {
        lemma_occ_bound(s.drop_last(), v);
    }
}

/// Extending a prefix by one byte adjusts its count by that byte.
proof fn lemma_occ_take_succ(s: Seq<u8>, i: int, v: int)
    requires
        0 <= i < s.len(),
    ensures
        occ_eq(s.take(i + 1), v) == occ_eq(s.take(i), v) + if s[i] == v {
            1nat
        } else {
            0nat
        },
{
    assert(s.take(i + 1).drop_last() =~= s.take(i));
    assert(s.take(i + 1).last() == s[i]);
}

/// A prefix never holds more occurrences than the whole buffer.
proof fn lemma_occ_take_le(s: Seq<u8>, i: int, v: int)
    requires
        0 <= i <= s.len(),
    ensures
        occ_eq(s.take(i), v) <= occ_eq(s, v),
    decreases s.len() - i,
{
    if i == s.len() {
        assert(s.take(i) =~= s);
    } else {
        lemma_occ_take_succ(s, i, v);
        lemma_occ_take_le(s, i + 1, v);
    }
}

/// The last-to-first mapping stays inside the buffer.
proof fn lemma_lf_in_range(s: Seq<u8>, i: int)
    requires
        0 <= i < s.len(),
    ensures
        0 <= lf_map(s, i) < s.len(),
{
    let c = s[i] as int;
    lemma_occ_take_succ(s, i, c);
    lemma_occ_take_le(s, i + 1, c);
    lemma_occ_bound(s, c);
}

/// Invert a transformed buffer. `primary` must name the rank of the
/// original rotation; any out-of-range index is rejected, and an index is
/// in range exactly when it is below the buffer length (0 for an empty
/// buffer).
pub fn decode(primary: usize, data: &Vec<u8>) -> (r: Result<Vec<u8>, DecodeError>)
    ensures
        match r {
            Ok(v) => {
                &&& (data@.len() == 0 ==> primary == 0 && v@.len() == 0)
                &&& (data@.len() > 0 ==> primary < data@.len() && v@ == inverse_spec(
                    data@,
                    primary as int,
                ))
            },
            Err(e) => {
                &&& (if data@.len() == 0 {
                    primary != 0
                } else {
                    primary >= data@.len()
                })
                &&& e matches DecodeError::PrimaryIndexOutOfRange
            },
        },
{
    let n = data.len();
    if n == 0 {
        if primary == 0 {
            return Ok(Vec::new());
        } else {
            return Err(DecodeError::PrimaryIndexOutOfRange);
        }
    }
    if primary >= n {
        return Err(DecodeError::PrimaryIndexOutOfRange);
    }
    // counts[c]: occurrences of byte c; cum[c]: occurrences of bytes below c
    let mut counts: Vec<usize> = Vec::new();
    let mut c: usize = 0;
    while c < 256
        invariant
            c <= 256,
            counts@.len() == c,
            forall|t: int| 0 <= t < c ==> #[trigger] counts@[t] == 0,
        decreases 256 - c,
    {
        counts.push(0);
        c += 1;
    }
    let mut i: usize = 0;
    proof {
        assert(data@.take(0) =~= Seq::<u8>::empty());
    }
    while i < n
        invariant
            i <= n,
            n == data@.len(),
            counts@.len() == 256,
            forall|t: int|
                0 <= t < 256 ==> #[trigger] counts@[t] == occ_eq(data@.take(i as int), t),
        decreases n - i,
    {
        let b = data[i] as usize;
        proof {
            lemma_occ_take_succ(data@, i as int, b as int);
            lemma_occ_take_le(data@, i as int + 1, b as int);
            lemma_occ_bound(data@, b as int);
            assert forall|t: int|
                0 <= t < 256 && t != b implies occ_eq(data@.take(i as int + 1), t) == occ_eq(
                data@.take(i as int),
                t,
            ) by {
                lemma_occ_take_succ(data@, i as int, t);
            }
        }
        let cur = counts[b];
        counts[b] = cur + 1;
        i += 1;
    }
    proof {
        assert(data@.take(n as int) =~= data@);
    }
    let mut cum: Vec<usize> = Vec::new();
    cum.push(0);
    let mut c2: usize = 1;
    proof {
        assert(occ_lt(data@, 0) == 0) by {
            lemma_occ_lt_zero(data@);
        }
    }
    while c2 < 256
        invariant
            1 <= c2 <= 256,
            n == data@.len(),
            counts@.len() == 256,
            forall|t: int| 0 <= t < 256 ==> #[trigger] counts@[t] == occ_eq(data@, t),
            cum@.len() == c2,
            forall|t: int| 0 <= t < c2 ==> #[trigger] cum@[t] == occ_lt(data@, t),
        decreases 256 - c2,
    {
        proof {
            lemma_occ_lt_succ(data@, c2 as int - 1);
            lemma_occ_bound(data@, c2 as int - 1);
        }
        let prev = cum[c2 - 1];
        let cnt = counts[c2 - 1];
        cum.push(prev + cnt);
        c2 += 1;
    }
    // next[i]: the row whose rotation starts one byte earlier
    let mut next: Vec<usize> = Vec::new();
    let mut seen: Vec<usize> = Vec::new();
    let mut c3: usize = 0;
    while c3 < 256
        invariant
            c3 <= 256,
            seen@.len() == c3,
            forall|t: int| 0 <= t < c3 ==> #[trigger] seen@[t] == 0,
        decreases 256 - c3,
    {
        seen.push(0);
        c3 += 1;
    }
    let mut i2: usize = 0;
    proof {
        assert(data@.take(0) =~= Seq::<u8>::empty());
    }
    while i2 < n
        invariant
            i2 <= n,
            n == data@.len(),
            counts@.len() == 256,
            cum@.len() == 256,
            seen@.len() == 256,
            forall|t: int| 0 <= t < 256 ==> #[trigger] counts@[t] == occ_eq(data@, t),
            forall|t: int| 0 <= t < 256 ==> #[trigger] cum@[t] == occ_lt(data@, t),
            forall|t: int|
                0 <= t < 256 ==> #[trigger] seen@[t] == occ_eq(data@.take(i2 as int), t),
            next@.len() == i2,
            forall|t: int|
                0 <= t < i2 ==> #[trigger] next@[t] as int == lf_map(data@, t) && next@[t]
                    < data@.len(),
        decreases n - i2,
    {
        let b = data[i2] as usize;
        proof {
            lemma_lf_in_range(data@, i2 as int);
            lemma_occ_take_succ(data@, i2 as int, b as int);
            assert forall|t: int|
                0 <= t < 256 && t != b implies occ_eq(data@.take(i2 as int + 1), t) == occ_eq(
                data@.take(i2 as int),
                t,
            ) by {
                lemma_occ_take_succ(data@, i2 as int, t);
            }
        }
        let step = cum[b] + seen[b];
        next.push(step);
        let cur = seen[b];
        seen[b] = cur + 1;
        i2 += 1;
    }
    // walk the chain backwards from the primary index
    let mut visited: Vec<u8> = Vec::new();
    let mut pos: usize = primary;
    let mut t: usize = 0;
    while t < n
        invariant
            t <= n,
            n == data@.len(),
            n > 0,
            next@.len() == n,
            forall|k: int|
                0 <= k < n ==> #[trigger] next@[k] as int == lf_map(data@, k) && next@[k]
                    < data@.len(),
            pos < n,
            pos as int == lf_iter(data@, primary as int, t as nat),
            visited@.len() == t,
            forall|k: int|
                0 <= k < t ==> #[trigger] visited@[k] == data@[lf_iter(
                    data@,
                    primary as int,
                    k as nat,
                )],
        decreases n - t,
    {
        visited.push(data[pos]);
        pos = next[pos];
        t += 1;
    }
    let mut out: Vec<u8> = Vec::new();
    let mut j: usize = 0;
    while j < n
        invariant
            j <= n,
            n == data@.len(),
            visited@.len() == n,
            forall|k: int|
                0 <= k < n ==> #[trigger] visited@[k] == data@[lf_iter(
                    data@,
                    primary as int,
                    k as nat,
                )],
            out@.len() == j,
            forall|k: int| 0 <= k < j ==> #[trigger] out@[k] == visited@[n - 1 - k],
        decreases n - j,
    {
        out.push(visited[n - 1 - j]);
        j += 1;
    }
    proof {
        assert(out@ =~= inverse_spec(data@, primary as int));
    }
    Ok(out)
}

/// No byte is below zero.
proof fn lemma_occ_lt_zero(s: Seq<u8>)
    ensures
        occ_lt(s, 0) == 0,
    decreases s.len(),
{
    if s.len() > 0 {
        lemma_occ_lt_zero(s.drop_last());
    }
}

} // verus!
