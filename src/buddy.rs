//! Buddy allocator over power-of-two size classes.
use vstd::prelude::*;
use std::collections::BTreeSet;
use vstd::std_specs::iter::IteratorSpec;
use vstd::std_specs::btree::increasing_seq;
use vstd::std_specs::cmp::OrdSpec;
use crate::arith::{pow2, pow2_exec, prev_power_of_two, lemma_pow2_pos, lemma_pow2_mono, lemma_pow2_values, lemma_size_class, class_of, size_class};
use crate::lemma_word;

verus! {

/// `p` is a multiple of `2^k`.
pub open spec fn aligned(p: int, k: nat) -> bool {
    p % (pow2(k) as int) == 0
}

/// Every class `k` holds addresses aligned to `2^k` whose blocks
/// `[p, p + 2^k)` end within the address space, and no two free blocks, in
/// the same class or not, share a byte.
#[verifier::opaque]
pub open spec fn classes_wf(c: Seq<Set<usize>>) -> bool {
    &&& forall|k: int| 0 <= k < c.len() ==> #[trigger] c[k].finite()
    &&& forall|k: int, p: usize|
        0 <= k < c.len() && #[trigger] c[k].contains(p) ==> aligned(p as int, k as nat) && p + pow2(
            k as nat,
        ) <= usize::MAX
    &&& forall|k1: int, a1: usize, k2: int, a2: usize|
        0 <= k1 < c.len() && 0 <= k2 < c.len() && #[trigger] c[k1].contains(a1) && #[trigger] c[k2].contains(a2)
            && (k1 != k2 || a1 != a2) ==> a1 + pow2(k1 as nat) <= a2 || a2 + pow2(k2 as nat) <= a1
}

/// Bytes held by the free blocks of classes `0..n`.
pub open spec fn free_bytes(c: Seq<Set<usize>>, n: int) -> int
    decreases n,
{
    if n <= 0 {
        0
    } else {
        free_bytes(c, n - 1) + c[n - 1].len() * pow2((n - 1) as nat)
    }
}

/// `[p, p + size)` shares no byte with any free block.
pub open spec fn outside_free(c: Seq<Set<usize>>, p: int, size: int) -> bool {
    forall|k: int, q: usize|
        0 <= k < c.len() && #[trigger] c[k].contains(q) ==> q + pow2(k as nat) <= p || p + size <= q
}

/// The buddy of the block at `p` of class `k`: the block of the same class
/// whose address differs from `p` in bit `k` alone.
pub open spec fn buddy_of(p: int, k: nat) -> int {
    if (p / (pow2(k) as int)) % 2 == 0 {
        p + pow2(k)
    } else {
        p - pow2(k)
    }
}

/// The buddy of the block at `p` of class `k` is free and can merge with it.
pub open spec fn buddy_free(c: Seq<Set<usize>>, p: usize, k: int) -> bool {
    let b = buddy_of(p as int, k as nat);
    &&& 0 <= k
    &&& k + 1 < c.len()
    &&& 0 <= b <= usize::MAX
    &&& c[k].contains(b as usize)
}

/// The classes after the block at `p` of class `k` is freed: while its buddy
/// is free and a larger class exists, the two merge into the block of the next
/// class at the lower address; the last block is put in its class.
pub open spec fn merge_spec(c: Seq<Set<usize>>, p: usize, k: int) -> Seq<Set<usize>>
    decreases c.len() - k,
{
    if buddy_free(c, p, k) {
        let b = buddy_of(p as int, k as nat) as usize;
        merge_spec(c.update(k, c[k].remove(b)), if p < b { p } else { b }, k + 1)
    } else if 0 <= k < c.len() {
        c.update(k, c[k].insert(p))
    } else {
        c
    }
}

/// The first non-empty class at or above `k`, or -1.
pub open spec fn first_nonempty(c: Seq<Set<usize>>, k: int) -> int
    decreases c.len() - k,
{
    if k < 0 || k >= c.len() {
        -1
    } else if c[k].len() > 0 {
        k
    } else {
        first_nonempty(c, k + 1)
    }
}

/// The classes while the block `b` of class `i` is split down to class `j`:
/// `b` has left class `i`, each class strictly between `j` and `i` holds the
/// upper half split off at that level, and class `j` holds both halves.
pub open spec fn split_state(c: Seq<Set<usize>>, i: int, j: int, b: usize) -> Seq<Set<usize>> {
    Seq::new(
        c.len(),
        |k: int|
            if j == i {
                c[k]
            } else if k == i {
                c[i].remove(b)
            } else if j < k < i {
                set![(b + pow2(k as nat)) as usize]
            } else if k == j {
                set![b, (b + pow2(j as nat)) as usize]
            } else {
                c[k]
            },
    )
}

/// The classes after the block `b` of class `i` was split down to class
/// `cls` and its lowest part handed out.
pub open spec fn alloc_spec(c: Seq<Set<usize>>, i: int, cls: int, b: usize) -> Seq<Set<usize>> {
    split_state(c, i, cls, b).update(cls, split_state(c, i, cls, b)[cls].remove(b))
}

pub proof fn lemma_free_bytes_update(c: Seq<Set<usize>>, k: int, s: Set<usize>, n: int)
    requires
        0 <= k < c.len(),
        0 <= n <= c.len(),
    ensures
        free_bytes(c.update(k, s), n) == free_bytes(c, n) + if k < n {
            (s.len() - c[k].len()) * pow2(k as nat)
        } else {
            0
        },
    decreases n,
{
    if n > 0 {
        lemma_free_bytes_update(c, k, s, n - 1);
        if k == n - 1 {
            assert(s.len() * pow2(k as nat) - c[k].len() * pow2(k as nat) == (s.len() - c[k].len())
                * pow2(k as nat)) by (nonlinear_arith);
        }
    }
}

/// What well-formed classes say of one of their blocks.
pub proof fn lemma_wf_member(c: Seq<Set<usize>>, k: int, p: usize)
    requires
        classes_wf(c),
        0 <= k < c.len(),
        c[k].contains(p),
    ensures
        aligned(p as int, k as nat),
        p + pow2(k as nat) <= usize::MAX,
        c[k].finite(),
{
    reveal(classes_wf);
}

/// Adding a free block that touches no other keeps the classes well-formed
/// and adds its size to the free bytes.
pub proof fn lemma_insert_block(c: Seq<Set<usize>>, k: int, p: usize)
    requires
        classes_wf(c),
        0 <= k < c.len(),
        aligned(p as int, k as nat),
        p + pow2(k as nat) <= usize::MAX,
        outside_free(c, p as int, pow2(k as nat) as int),
    ensures
        classes_wf(c.update(k, c[k].insert(p))),
        free_bytes(c.update(k, c[k].insert(p)), c.len() as int) == free_bytes(c, c.len() as int)
            + pow2(k as nat),
        !c[k].contains(p),
{
    reveal(classes_wf);
    lemma_pow2_pos(k as nat);
    let n = c.update(k, c[k].insert(p));
    assert(!c[k].contains(p));
    assert(c[k].finite());
    assert(c[k].insert(p).len() == c[k].len() + 1);
    lemma_free_bytes_update(c, k, c[k].insert(p), c.len() as int);
    assert((c[k].insert(p).len() - c[k].len()) * pow2(k as nat) == pow2(k as nat)) by (nonlinear_arith)
        requires c[k].insert(p).len() - c[k].len() == 1;
    assert forall|k1: int, a1: usize, k2: int, a2: usize|
        0 <= k1 < n.len() && 0 <= k2 < n.len() && #[trigger] n[k1].contains(a1) && #[trigger] n[k2].contains(a2)
            && (k1 != k2 || a1 != a2) implies a1 + pow2(k1 as nat) <= a2 || a2 + pow2(k2 as nat) <= a1 by {
        if !(k1 == k && a1 == p) && !(k2 == k && a2 == p) {
            assert(c[k1].contains(a1) && c[k2].contains(a2));
        } else if k1 == k && a1 == p {
            assert(c[k2].contains(a2));
        } else {
            assert(c[k1].contains(a1));
        }
    }
    assert forall|k1: int, a1: usize| 0 <= k1 < n.len() && #[trigger] n[k1].contains(a1) implies aligned(
        a1 as int, k1 as nat) && a1 + pow2(k1 as nat) <= usize::MAX by {
        if !(k1 == k && a1 == p) {
            assert(c[k1].contains(a1));
        }
    }
}

/// Taking a free block out keeps the classes well-formed, removes its size
/// from the free bytes, and leaves its bytes outside every free block.
pub proof fn lemma_remove_block(c: Seq<Set<usize>>, k: int, p: usize)
    requires
        classes_wf(c),
        0 <= k < c.len(),
        c[k].contains(p),
    ensures
        classes_wf(c.update(k, c[k].remove(p))),
        free_bytes(c.update(k, c[k].remove(p)), c.len() as int) == free_bytes(c, c.len() as int)
            - pow2(k as nat),
        outside_free(c.update(k, c[k].remove(p)), p as int, pow2(k as nat) as int),
        aligned(p as int, k as nat),
        p + pow2(k as nat) <= usize::MAX,
{
    reveal(classes_wf);
    let n = c.update(k, c[k].remove(p));
    assert(c[k].finite());
    assert(c[k].remove(p).len() == c[k].len() - 1);
    lemma_free_bytes_update(c, k, c[k].remove(p), c.len() as int);
    assert((c[k].remove(p).len() - c[k].len()) * pow2(k as nat) == -pow2(k as nat)) by (nonlinear_arith)
        requires c[k].remove(p).len() - c[k].len() == -1;
    assert forall|k1: int, a1: usize| 0 <= k1 < n.len() && #[trigger] n[k1].contains(a1) implies a1 + pow2(
        k1 as nat) <= p || p + pow2(k as nat) <= a1 by {
        assert(c[k1].contains(a1));
    }
    assert forall|k1: int, a1: usize, k2: int, a2: usize|
        0 <= k1 < n.len() && 0 <= k2 < n.len() && #[trigger] n[k1].contains(a1) && #[trigger] n[k2].contains(a2)
            && (k1 != k2 || a1 != a2) implies a1 + pow2(k1 as nat) <= a2 || a2 + pow2(k2 as nat) <= a1 by {
        assert(c[k1].contains(a1) && c[k2].contains(a2));
    }
    assert forall|k1: int, a1: usize| 0 <= k1 < n.len() && #[trigger] n[k1].contains(a1) implies aligned(
        a1 as int, k1 as nat) && a1 + pow2(k1 as nat) <= usize::MAX by {
        assert(c[k1].contains(a1));
    }
}

proof fn lemma_mul_aligned(m: int, s: int)
    requires
        s > 0,
    ensures
        (m * s) % s == 0,
        (s * m) % s == 0,
{
    vstd::arithmetic::div_mod::lemma_mod_multiples_basic(m, s);
    assert(m * s == s * m) by (nonlinear_arith);
}

/// The buddy of an aligned block is aligned, lies right before or right after
/// it, and the lower of the two is aligned to the next class.
pub proof fn lemma_buddy(p: int, k: nat)
    requires
        p >= 0,
        aligned(p, k),
    ensures
        ({
            let b = buddy_of(p, k);
            let s = pow2(k) as int;
            let lo = if p < b { p } else { b };
            &&& b >= 0
            &&& b == p + s || b == p - s
            &&& aligned(b, k)
            &&& aligned(lo, k + 1)
            &&& lo == p || lo == b
            &&& (lo == p ==> b == p + s)
            &&& (lo == b ==> p == b + s)
        }),
{
    let s = pow2(k) as int;
    lemma_pow2_pos(k);
    assert(pow2(k + 1) == 2 * s);
    let q = p / s;
    vstd::arithmetic::div_mod::lemma_fundamental_div_mod(p, s);
    assert(p == s * q);
    assert(q >= 0) by {
        vstd::arithmetic::div_mod::lemma_div_pos_is_pos(p, s);
    }
    if q % 2 == 0 {
        let h = q / 2;
        assert(p + s == (q + 1) * s) by (nonlinear_arith)
            requires p == s * q;
        lemma_mul_aligned(q + 1, s);
        assert(p == h * (2 * s)) by (nonlinear_arith)
            requires p == s * q, q == 2 * h;
        lemma_mul_aligned(h, 2 * s);
    } else {
        let h = (q - 1) / 2;
        assert(p - s == (q - 1) * s) by (nonlinear_arith)
            requires p == s * q;
        assert(q >= 1);
        assert(p - s >= 0) by (nonlinear_arith)
            requires p - s == (q - 1) * s, q >= 1, s > 0;
        lemma_mul_aligned(q - 1, s);
        assert(p - s == h * (2 * s)) by (nonlinear_arith)
            requires p - s == (q - 1) * s, q - 1 == 2 * h;
        lemma_mul_aligned(h, 2 * s);
    }
}

/// Inside a block aligned to `2^i`, the block at its start and the one
/// `2^k` above it (for `k < i`) are buddies in class `k`.
pub proof fn lemma_split_halves(b: int, i: nat, k: nat)
    requires
        b >= 0,
        k < i,
        aligned(b, i),
    ensures
        aligned(b, k),
        aligned(b + pow2(k), k),
        buddy_of(b, k) == b + pow2(k),
        buddy_of(b + pow2(k), k) == b,
{
    let s = pow2(k) as int;
    lemma_pow2_pos(k);
    crate::arith::lemma_pow2_add(k, (i - k) as nat);
    let t = pow2((i - k) as nat) as int;
    assert(pow2(i) == s * t);
    assert(t % 2 == 0) by {
        let e = (i - k - 1) as nat;
        assert(pow2((i - k) as nat) == 2 * pow2(e));
    }
    lemma_pow2_pos(i);
    let m = b / (s * t);
    vstd::arithmetic::div_mod::lemma_fundamental_div_mod(b, s * t);
    assert(b == (s * t) * m);
    assert(b == (t * m) * s) by (nonlinear_arith)
        requires b == (s * t) * m;
    lemma_mul_aligned(t * m, s);
    assert(b + s == (t * m + 1) * s) by (nonlinear_arith)
        requires b == (t * m) * s;
    lemma_mul_aligned(t * m + 1, s);
    vstd::arithmetic::div_mod::lemma_div_multiples_vanish(t * m, s);
    assert(b / s == t * m) by {
        assert(s * (t * m) == (t * m) * s) by (nonlinear_arith);
    }
    assert((t * m) % 2 == 0) by {
        let u = t / 2;
        assert(t * m == (u * m) * 2) by (nonlinear_arith)
            requires t == 2 * u;
        lemma_mul_aligned(u * m, 2);
    }
    assert((b + s) / s == t * m + 1) by {
        vstd::arithmetic::div_mod::lemma_div_multiples_vanish(t * m + 1, s);
        assert(s * (t * m + 1) == (t * m + 1) * s) by (nonlinear_arith);
    }
}

/// The least element of a finite, non-empty set of addresses.
pub open spec fn least(s: Set<usize>) -> usize {
    choose|m: usize| s.contains(m) && forall|x: usize| s.contains(x) ==> m <= x
}

/// The least address in `s`, if any.
fn first_of(s: &BTreeSet<usize>) -> (r: Option<usize>)
    ensures
        s@.is_empty() <==> r is None,
        r matches Some(m) ==> s@.contains(m) && forall|x: usize| s@.contains(x) ==> m <= x,
        r matches Some(m) ==> m == least(s@),
{
    broadcast use vstd::std_specs::btree::group_btree_axioms;
    broadcast use vstd::laws_cmp::group_laws_cmp;
    let mut r: Option<usize> = None;
    let ghost q = s.iter().remaining();
    for v in it: s.iter()
        invariant
            it.seq() == q,
            it.seq().unref().to_set() == s@,
            increasing_seq(it.seq()),
            r is None <==> it.index() == 0,
            r matches Some(m) ==> it.seq().len() > 0 && m == *it.seq()[0],
    {
        if r.is_none() {
            r = Some(*v);
        }
    }
    proof {
        assert(q.unref().to_set() == s@);
        if let Some(m) = r {
            assert(q.unref()[0] == m);
            assert(s@.contains(m));
            assert forall|x: usize| s@.contains(x) implies m <= x by {
                assert(q.unref().to_set().contains(x));
                let j = choose|j: int| 0 <= j < q.unref().len() && q.unref()[j] == x;
                if j > 0 {
                    assert(vstd::laws_cmp::obeys_cmp::<usize>());
                    assert(vstd::laws_cmp::obeys_cmp::<&usize>());
                    vstd::std_specs::btree::axiom_increasing_seq_meaning::<&usize>(q);
                    assert(increasing_seq(q));
                    assert(0 < j < q.len());
                    assert(<&usize as OrdSpec>::cmp_spec(&q[0], &q[j]) is Less);
                    assert((*q[0]).cmp_spec(&*q[j]) is Less);
                }
            }
        } else {
            assert(q.unref().len() == 0);
            assert(q.unref().to_set() =~= Set::empty());
        }
    }
    r
}

/// The class of the largest block that starts at `cur` and fits in `rem`
/// bytes: the largest `k <= top` with `2^k` dividing `cur` and `2^k <= rem`
/// (the smaller of the lowest set bit of `cur` and the largest power of two not
/// above `rem`; an address of zero is limited by `top` alone).
pub open spec fn piece_class(cur: int, rem: int, top: int, k: int) -> int
    decreases top - k,
{
    if 0 <= k < top && aligned(cur, (k + 1) as nat) && pow2((k + 1) as nat) <= rem {
        piece_class(cur, rem, top, k + 1)
    } else {
        k
    }
}

/// The classes after `[cur, end)` was cut into maximal aligned blocks, each
/// put into its class.
pub open spec fn insert_range(c: Seq<Set<usize>>, cur: int, end: int) -> Seq<Set<usize>>
    decreases end - cur,
{
    if cur >= end || c.len() == 0 {
        c
    } else {
        let k = piece_class(cur, end - cur, c.len() - 1, 0);
        if k < 0 || k >= c.len() || pow2(k as nat) < 1 || pow2(k as nat) > end - cur {
            c
        } else {
            insert_range(c.update(k, c[k].insert(cur as usize)), cur + pow2(k as nat), end)
        }
    }
}

/// The piece is the largest block that fits: it is aligned to its size and
/// fits in `rem`, and the next class up breaks one of the two or is above `top`.
pub proof fn lemma_piece_is_largest(cur: int, rem: int, top: int, k: int)
    requires
        0 <= k <= top,
        aligned(cur, k as nat),
        pow2(k as nat) <= rem,
    ensures
        ({
            let r = piece_class(cur, rem, top, k);
            &&& k <= r <= top
            &&& aligned(cur, r as nat)
            &&& pow2(r as nat) <= rem
            &&& (r == top || !aligned(cur, (r + 1) as nat) || pow2((r + 1) as nat) > rem)
        }),
    decreases top - k,
{
    if 0 <= k < top && aligned(cur, (k + 1) as nat) && pow2((k + 1) as nat) <= rem {
        lemma_piece_is_largest(cur, rem, top, k + 1);
    }
}

/// Byte `x` lies in a block that `n` holds and `c` does not.
pub open spec fn added_over(c: Seq<Set<usize>>, n: Seq<Set<usize>>, x: int) -> bool {
    exists|k: int, p: usize|
        0 <= k < c.len() && #[trigger] n[k].contains(p) && !c[k].contains(p) && p <= x < p + pow2(k as nat)
}

/// Registering a range only adds free blocks.
pub proof fn lemma_insert_range_grows(c: Seq<Set<usize>>, cur: int, end: int)
    ensures
        insert_range(c, cur, end).len() == c.len(),
        forall|k: int, p: usize| 0 <= k < c.len() && #[trigger] c[k].contains(p) ==> insert_range(c, cur, end)[k].contains(p),
    decreases end - cur,
{
    if cur < end && c.len() > 0 {
        let k = piece_class(cur, end - cur, c.len() - 1, 0);
        if !(k < 0 || k >= c.len() || pow2(k as nat) < 1 || pow2(k as nat) > end - cur) {
            let c1 = c.update(k, c[k].insert(cur as usize));
            lemma_insert_range_grows(c1, cur + pow2(k as nat), end);
            assert forall|j: int, p: usize| 0 <= j < c.len() && #[trigger] c[j].contains(p) implies insert_range(c, cur, end)[j].contains(p) by {
                assert(c1[j].contains(p));
            }
        }
    }
}

/// The blocks that registering `[cur, end)` adds lie inside the range and
/// together cover every byte of it; being free blocks of well-formed classes,
/// they do not overlap, so they partition the range exactly.
pub proof fn lemma_insert_range_partitions(c: Seq<Set<usize>>, cur: int, end: int)
    requires
        0 <= cur <= end <= usize::MAX,
        1 <= c.len() <= 64,
        outside_free(c, cur, end - cur),
    ensures
        forall|k: int, p: usize|
            0 <= k < c.len() && #[trigger] insert_range(c, cur, end)[k].contains(p) && !c[k].contains(p)
                ==> cur <= p && p + pow2(k as nat) <= end,
        forall|x: int| cur <= x < end ==> #[trigger] added_over(c, insert_range(c, cur, end), x),
    decreases end - cur,
{
    let n = insert_range(c, cur, end);
    if cur < end {
        let top = c.len() - 1;
        lemma_pow2_pos(0);
        assert(aligned(cur, 0)) by {
            assert(pow2(0) == 1);
        }
        lemma_piece_is_largest(cur, end - cur, top, 0);
        let k = piece_class(cur, end - cur, top, 0);
        lemma_pow2_pos(k as nat);
        let s = pow2(k as nat) as int;
        let c1 = c.update(k, c[k].insert(cur as usize));
        assert(!c[k].contains(cur as usize));
        assert(n == insert_range(c1, cur + s, end));
        if cur + s < end {
            lemma_outside_sub(c, cur, end - cur, cur + s, end - cur - s);
            lemma_outside_update(c, k, c[k].insert(cur as usize), cur + s, end - cur - s);
        } else {
            assert forall|j: int, q: usize| 0 <= j < c1.len() && #[trigger] c1[j].contains(q) implies q
                + pow2(j as nat) <= cur + s || cur + s + (end - cur - s) <= q by {}
        }
        lemma_insert_range_partitions(c1, cur + s, end);
        lemma_insert_range_grows(c1, cur + s, end);
        assert(n[k].contains(cur as usize)) by {
            assert(c1[k].contains(cur as usize));
        }
        assert forall|j: int, p: usize| 0 <= j < c.len() && #[trigger] n[j].contains(p) && !c[j].contains(p)
            implies cur <= p && p + pow2(j as nat) <= end by {
            if !c1[j].contains(p) {
            } else {
                assert(j == k && p == cur as usize);
            }
        }
        assert forall|x: int| cur <= x < end implies #[trigger] added_over(c, n, x) by {
            if x < cur + s {
                assert(n[k].contains(cur as usize) && !c[k].contains(cur as usize) && (cur as usize) <= x < (cur as usize)
                    + pow2(k as nat));
            } else {
                assert(added_over(c1, n, x));
                let (j, p) = choose|j: int, p: usize|
                    0 <= j < c1.len() && #[trigger] n[j].contains(p) && !c1[j].contains(p) && p <= x < p + pow2(j as nat);
                assert(!c[j].contains(p));
            }
        }
    }
}

/// Returns `(size, class)` of the block `piece_class` describes.
pub(crate) fn piece(cur: usize, rem: usize, top: usize) -> (r: (usize, usize))
    requires
        rem >= 1,
        top < 64,
        pow2(top as nat) <= usize::MAX,
    ensures
        r.1 == piece_class(cur as int, rem as int, top as int, 0),
        r.0 == pow2(r.1 as nat),
        r.1 <= top,
        r.0 <= rem,
        aligned(cur as int, r.1 as nat),
{
    // the largest power of two not above what remains
    let cap = prev_power_of_two(rem);
    let ghost m = choose|m: nat| pow2(m) == cap;
    let mut size: usize = 1;
    let mut class: usize = 0;
    proof {
        lemma_pow2_pos(0);
    }
    // grow while the next size still divides `cur` (it stays below its
    // lowest set bit) and still fits
    while class < top && size <= cap / 2 && cur % (size * 2) == 0
        invariant
            piece_class(cur as int, rem as int, top as int, 0) == piece_class(cur as int, rem as int, top as int, class as int),
            size == pow2(class as nat),
            size >= 1,
            class <= top,
            top < 64,
            pow2(top as nat) <= usize::MAX,
            size <= rem,
            aligned(cur as int, class as nat),
            pow2(m) == cap,
            cap <= rem < 2 * cap,
        decreases top - class,
    {
        proof {
            assert(pow2((class + 1) as nat) == 2 * size);
        }
        size = size * 2;
        class = class + 1;
    }
    proof {
        if class < top && aligned(cur as int, (class + 1) as nat) && size > cap / 2 {
            assert(pow2((class + 1) as nat) == 2 * size);
            assert(pow2(m + 1) == 2 * cap);
            if class + 1 <= m {
                lemma_pow2_mono((class + 1) as nat, m);
                if class + 1 < m {
                    lemma_pow2_mono((class + 2) as nat, m);
                    assert(pow2((class + 2) as nat) == 2 * pow2((class + 1) as nat));
                }
            } else {
                lemma_pow2_mono(m + 1, (class + 1) as nat);
            }
        }
    }
    (size, class)
}

/// One split step: the block `b` in class `j` is replaced by its two halves
/// in class `j - 1`.
pub(crate) proof fn lemma_split_step(c0: Seq<Set<usize>>, i: int, j: int, b: usize)
    requires
        0 < j <= i < c0.len(),
        classes_wf(c0),
        classes_wf(split_state(c0, i, j, b)),
        c0[i].contains(b),
        c0[j - 1].len() == 0,
    ensures
        ({
            let c = split_state(c0, i, j, b);
            let h = pow2((j - 1) as nat) as int;
            let c1 = c.update(j, c[j].remove(b));
            let c2 = c1.update(j - 1, c1[j - 1].insert((b + h) as usize));
            let c3 = c2.update(j - 1, c2[j - 1].insert(b));
            &&& c[j].contains(b)
            &&& !c1[j - 1].contains((b + h) as usize)
            &&& !c2[j - 1].contains(b)
            &&& pow2(j as nat) == 2 * h
            &&& c3 == split_state(c0, i, j - 1, b)
            &&& classes_wf(c3)
            &&& free_bytes(c3, c0.len() as int) == free_bytes(c, c0.len() as int)
            &&& b + h <= usize::MAX
        }),
{
    reveal(classes_wf);
    let c = split_state(c0, i, j, b);
    let h = pow2((j - 1) as nat) as int;
    if j == i {
        assert(c =~= c0);
    }
    assert(c[j].contains(b));
    assert(pow2(j as nat) == 2 * h);
    lemma_remove_block(c, j, b);
    let c1 = c.update(j, c[j].remove(b));
    lemma_pow2_pos((j - 1) as nat);
    lemma_split_halves(b as int, i as nat, (j - 1) as nat);
    if j < i {
        lemma_split_halves(b as int, i as nat, j as nat);
    }
    lemma_outside_sub(c1, b as int, 2 * h, b + h, h);
    lemma_outside_sub(c1, b as int, 2 * h, b as int, h);
    lemma_insert_block(c1, j - 1, (b + h) as usize);
    let c2 = c1.update(j - 1, c1[j - 1].insert((b + h) as usize));
    lemma_outside_update(c1, j - 1, c1[j - 1].insert((b + h) as usize), b as int, h);
    lemma_insert_block(c2, j - 1, b);
    let c3 = c2.update(j - 1, c2[j - 1].insert(b));
    let n = split_state(c0, i, j - 1, b);
    assert(c0[j - 1] =~= Set::<usize>::empty());
    assert forall|k: int| 0 <= k < c0.len() implies #[trigger] c3[k] =~= n[k] by {}
    assert(c3 =~= n);
}

/// No free block has its buddy free in the same class, below the largest
/// class: every possible merge has been made.
pub open spec fn coalesced(c: Seq<Set<usize>>) -> bool {
    forall|k: int, p: usize| 0 <= k < c.len() && #[trigger] c[k].contains(p) ==> !buddy_free(c, p, k)
}

/// The classes while an allocation of `b`, split from class `i`, is merged
/// back: the halves split off in classes `j..i` are still free.
pub open spec fn merge_back_state(c: Seq<Set<usize>>, i: int, j: int, b: usize) -> Seq<Set<usize>> {
    Seq::new(
        c.len(),
        |k: int|
            if k == i {
                c[i].remove(b)
            } else if j <= k < i {
                set![(b + pow2(k as nat)) as usize]
            } else {
                c[k]
            },
    )
}

proof fn lemma_merge_back(c: Seq<Set<usize>>, i: int, j: int, b: usize)
    requires
        0 <= j <= i < c.len(),
        classes_wf(c),
        coalesced(c),
        c[i].contains(b),
        forall|k: int| j <= k < i ==> c[k].len() == 0,
    ensures
        merge_spec(merge_back_state(c, i, j, b), b, j) == c,
    decreases i - j,
{
    let t = merge_back_state(c, i, j, b);
    lemma_wf_member(c, i, b);
    if j == i {
        assert(!buddy_free(c, b, i));
        assert(!buddy_free(t, b, i));
        assert(t[i].insert(b) =~= c[i]);
        assert(t.update(i, t[i].insert(b)) =~= c);
    } else {
        lemma_split_halves(b as int, i as nat, j as nat);
        lemma_pow2_mono(j as nat, i as nat);
        lemma_pow2_pos(j as nat);
        let q = (b + pow2(j as nat)) as usize;
        assert(t[j] == set![q]);
        assert(buddy_free(t, b, j));
        lemma_merge_back(c, i, j + 1, b);
        lemma_wf_member_finite(c, j);
        assert(c[j] =~= Set::<usize>::empty());
        assert(t[j].remove(q) =~= Set::<usize>::empty());
        let u = t.update(j, t[j].remove(q));
        let m = merge_back_state(c, i, j + 1, b);
        assert forall|k: int| 0 <= k < c.len() implies #[trigger] u[k] =~= m[k] by {}
        assert(u =~= m);
    }
}

proof fn lemma_wf_member_finite(c: Seq<Set<usize>>, k: int)
    requires
        classes_wf(c),
        0 <= k < c.len(),
    ensures
        c[k].finite(),
{
    reveal(classes_wf);
}

/// Round trip: on classes where every possible merge has been made, handing
/// out a block `b` of the first non-empty class at or above `cls` (split
/// down to `cls`) and then freeing it at class `cls` gives back the classes
/// as they were.
pub proof fn lemma_alloc_dealloc_round_trip(c: Seq<Set<usize>>, cls: int, b: usize)
    requires
        classes_wf(c),
        coalesced(c),
        0 <= cls,
        first_nonempty(c, cls) >= 0,
        c[first_nonempty(c, cls)].contains(b),
    ensures
        merge_spec(alloc_spec(c, first_nonempty(c, cls), cls, b), b, cls) == c,
{
    let i = first_nonempty(c, cls);
    lemma_first_nonempty(c, cls);
    lemma_merge_back(c, i, cls, b);
    let a = alloc_spec(c, i, cls, b);
    if cls < i {
        lemma_wf_member(c, i, b);
        lemma_pow2_mono(cls as nat, i as nat);
        lemma_pow2_pos(cls as nat);
    }
    assert forall|k: int| 0 <= k < c.len() implies #[trigger] a[k] =~= merge_back_state(c, i, cls, b)[k] by {}
    assert(a =~= merge_back_state(c, i, cls, b));
}

/// The first non-empty class at or above `k`, when there is one, is
/// non-empty and every class between is empty.
pub proof fn lemma_first_nonempty(c: Seq<Set<usize>>, k: int)
    requires
        0 <= k,
        first_nonempty(c, k) >= 0,
    ensures
        k <= first_nonempty(c, k) < c.len(),
        c[first_nonempty(c, k)].len() > 0,
        forall|j: int| k <= j < first_nonempty(c, k) ==> c[j].len() == 0,
    decreases c.len() - k,
{
    if k < c.len() && c[k].len() == 0 {
        lemma_first_nonempty(c, k + 1);
    }
}

/// Conservation: the bytes ever registered are those handed out plus those
/// held by free blocks.
pub proof fn lemma_conservation(a: &BuddyAllocator)
    requires
        a.wf(),
    ensures
        a.spec_total() - a.spec_allocated() == free_bytes(a.classes(), NUM_CLASSES as int),
{
}

/// Non-overlap: two distinct free blocks, of any classes, share no byte.
pub proof fn lemma_free_blocks_disjoint(a: &BuddyAllocator, k1: int, a1: usize, k2: int, a2: usize)
    requires
        a.wf(),
        0 <= k1 < NUM_CLASSES,
        0 <= k2 < NUM_CLASSES,
        a.classes()[k1].contains(a1),
        a.classes()[k2].contains(a2),
        k1 != k2 || a1 != a2,
    ensures
        a1 + pow2(k1 as nat) <= a2 || a2 + pow2(k2 as nat) <= a1,
{
    reveal(classes_wf);
}

/// Number of size classes.
pub const NUM_CLASSES: usize = 32;

/// The classes of a buddy allocator with no free block.
pub open spec fn empty_classes(n: int) -> Seq<Set<usize>> {
    Seq::new(n as nat, |k: int| Set::<usize>::empty())
}

pub proof fn lemma_free_bytes_nonneg(c: Seq<Set<usize>>, n: int)
    requires
        0 <= n <= c.len(),
    ensures
        free_bytes(c, n) >= 0,
        free_bytes(c, n) >= 0 && (forall|k: int| 0 <= k < n && c[k].len() > 0 ==> free_bytes(c, n) >= pow2(k as nat)),
    decreases n,
{
    if n > 0 {
        lemma_free_bytes_nonneg(c, n - 1);
        lemma_pow2_pos((n - 1) as nat);
        assert(c[n - 1].len() * pow2((n - 1) as nat) >= 0) by (nonlinear_arith);
        assert(c[n - 1].len() > 0 ==> c[n - 1].len() * pow2((n - 1) as nat) >= pow2((n - 1) as nat)) by (nonlinear_arith);
    }
}

pub proof fn lemma_free_bytes_empty(n: int)
    requires
        n >= 0,
    ensures
        free_bytes(empty_classes(n), n) == 0,
{
    lemma_free_bytes_empty_upto(empty_classes(n), n);
}

proof fn lemma_free_bytes_empty_upto(c: Seq<Set<usize>>, n: int)
    requires
        0 <= n <= c.len(),
        forall|k: int| 0 <= k < c.len() ==> #[trigger] c[k] == Set::<usize>::empty(),
    ensures
        free_bytes(c, n) == 0,
    decreases n,
{
    if n > 0 {
        lemma_free_bytes_empty_upto(c, n - 1);
        assert(c[n - 1].len() == 0);
    }
}

/// Classes with no free block are well-formed.
pub proof fn lemma_empty_wf(n: int)
    requires
        n >= 0,
    ensures
        classes_wf(empty_classes(n)),
{
    reveal(classes_wf);
}

/// A sub-range of a range outside the free blocks is outside them too.
pub proof fn lemma_outside_sub(c: Seq<Set<usize>>, p: int, s: int, q: int, t: int)
    requires
        outside_free(c, p, s),
        p <= q,
        q + t <= p + s,
        t >= 1,
    ensures
        outside_free(c, q, t),
{
    assert forall|k: int, x: usize| 0 <= k < c.len() && #[trigger] c[k].contains(x) implies x + pow2(
        k as nat) <= q || q + t <= x by {
        lemma_pow2_pos(k as nat);
    }
}

/// Two adjacent ranges outside the free blocks form one.
pub proof fn lemma_outside_join(c: Seq<Set<usize>>, p: int, s: int)
    requires
        outside_free(c, p, s),
        outside_free(c, p + s, s),
    ensures
        outside_free(c, p, 2 * s),
{
    assert forall|k: int, x: usize| 0 <= k < c.len() && #[trigger] c[k].contains(x) implies x + pow2(
        k as nat) <= p || p + 2 * s <= x by {
        lemma_pow2_pos(k as nat);
    }
}

/// A range outside the free blocks stays so when a block apart from it is
/// added, or any block is taken out.
pub proof fn lemma_outside_update(c: Seq<Set<usize>>, k: int, n: Set<usize>, p: int, s: int)
    requires
        outside_free(c, p, s),
        0 <= k < c.len(),
        forall|x: usize| #[trigger] n.contains(x) ==> c[k].contains(x) || x + pow2(k as nat) <= p || p + s <= x,
    ensures
        outside_free(c.update(k, n), p, s),
{
    assert forall|j: int, x: usize| 0 <= j < c.len() && #[trigger] c.update(k, n)[j].contains(x) implies x
        + pow2(j as nat) <= p || p + s <= x by {
        if j != k {
            assert(c[j].contains(x));
        }
    }
}

/// A buddy allocator: free blocks of size `2^k` kept, by address, in class `k`.
pub struct BuddyAllocator {
    link_list: Vec<BTreeSet<usize>>,
    allocated: usize,
    sum: usize,
}

impl BuddyAllocator {
    /// The free blocks of each class.
    pub closed spec fn classes(&self) -> Seq<Set<usize>> {
        Seq::new(self.link_list@.len(), |k: int| self.link_list@[k]@)
    }

    /// Bytes handed out and not yet given back.
    pub closed spec fn spec_allocated(&self) -> usize {
        self.allocated
    }

    /// Bytes ever registered.
    pub closed spec fn spec_total(&self) -> usize {
        self.sum
    }

    /// There are `NUM_CLASSES` well-formed classes, and the registered bytes
    /// are exactly those handed out plus those free.
    pub open spec fn wf(&self) -> bool {
        &&& self.classes().len() == NUM_CLASSES
        &&& classes_wf(self.classes())
        &&& self.spec_total() == self.spec_allocated() + free_bytes(self.classes(), NUM_CLASSES as int)
    }

    /// An allocator with no memory.
    pub fn new() -> (r: Self)
        ensures
            r.wf(),
            r.classes() == empty_classes(NUM_CLASSES as int),
            r.spec_allocated() == 0,
            r.spec_total() == 0,
    {
        let mut link_list: Vec<BTreeSet<usize>> = Vec::new();
        let mut i: usize = 0;
        while i < NUM_CLASSES
            invariant
                i <= NUM_CLASSES,
                link_list@.len() == i,
                forall|k: int| 0 <= k < i ==> #[trigger] link_list@[k]@ == Set::<usize>::empty(),
            decreases NUM_CLASSES - i,
        {
            link_list.push(BTreeSet::new());
            i = i + 1;
        }
        let r = BuddyAllocator { link_list, allocated: 0, sum: 0 };
        assert(r.classes() =~= empty_classes(NUM_CLASSES as int));
        proof {
            lemma_empty_wf(NUM_CLASSES as int);
            lemma_free_bytes_empty(NUM_CLASSES as int);
        }
        r
    }

    fn insert_block(&mut self, k: usize, p: usize)
        requires
            k < old(self).link_list@.len(),
        ensures
            final(self).classes() == old(self).classes().update(k as int, old(self).classes()[k as int].insert(p)),
            final(self).spec_allocated() == old(self).spec_allocated(),
            final(self).spec_total() == old(self).spec_total(),
            final(self).link_list@.len() == old(self).link_list@.len(),
    {
        broadcast use vstd::laws_cmp::group_laws_cmp;
        self.link_list[k].insert(p);
        assert(self.classes() =~= old(self).classes().update(k as int, old(self).classes()[k as int].insert(p)));
    }

    fn remove_block(&mut self, k: usize, p: usize) -> (r: bool)
        requires
            k < old(self).link_list@.len(),
        ensures
            r == old(self).classes()[k as int].contains(p),
            final(self).classes() == old(self).classes().update(k as int, old(self).classes()[k as int].remove(p)),
            final(self).spec_allocated() == old(self).spec_allocated(),
            final(self).spec_total() == old(self).spec_total(),
            final(self).link_list@.len() == old(self).link_list@.len(),
    {
        broadcast use vstd::laws_cmp::group_laws_cmp;
        broadcast use vstd::std_specs::btree::group_btree_axioms;
        let r = self.link_list[k].remove(&p);
        assert(self.classes() =~= old(self).classes().update(k as int, old(self).classes()[k as int].remove(p)));
        r
    }

    /// The least free address of class `k`, if any.
    fn least_in(&self, k: usize) -> (r: Option<usize>)
        requires
            k < self.link_list@.len(),
        ensures
            self.classes()[k as int].is_empty() <==> r is None,
            r matches Some(m) ==> self.classes()[k as int].contains(m) && m == least(self.classes()[k as int]),
            r matches Some(m) ==> forall|x: usize| self.classes()[k as int].contains(x) ==> m <= x,
    {
        first_of(&self.link_list[k])
    }

    /// Registers the free memory `[start, end)`: cuts it into maximal
    /// aligned power-of-two blocks, at most of the largest class, and makes
    /// each of them free.
    pub fn alloc_frame(&mut self, start: usize, end: usize)
        requires
            old(self).wf(),
            start <= end,
            old(self).spec_total() + (end - start) <= usize::MAX,
            outside_free(old(self).classes(), start as int, end - start),
        ensures
            final(self).wf(),
            final(self).classes() == insert_range(old(self).classes(), start as int, end as int),
            final(self).spec_allocated() == old(self).spec_allocated(),
            final(self).spec_total() == old(self).spec_total() + (end - start),
            // the new blocks lie in the range and cover all of it
            forall|k: int, p: usize|
                0 <= k < NUM_CLASSES && #[trigger] final(self).classes()[k].contains(p) && !old(self).classes()[k].contains(p)
                    ==> start <= p && p + pow2(k as nat) <= end,
            forall|x: int| start <= x < end ==> #[trigger] added_over(old(self).classes(), final(self).classes(), x),
    {
        proof {
            lemma_word();
            lemma_pow2_values();
            lemma_insert_range_partitions(old(self).classes(), start as int, end as int);
        }
        let mut total: usize = 0;
        let mut current_start = start;
        while current_start < end
            invariant
                old(self).wf(),
                old(self).spec_total() + (end - start) <= usize::MAX,
                start <= current_start <= end,
                total == current_start - start,
                self.classes().len() == NUM_CLASSES,
                self.link_list@.len() == NUM_CLASSES,
                classes_wf(self.classes()),
                insert_range(self.classes(), current_start as int, end as int) == insert_range(
                    old(self).classes(), start as int, end as int),
                free_bytes(self.classes(), NUM_CLASSES as int) == free_bytes(old(self).classes(), NUM_CLASSES as int) + total,
                outside_free(self.classes(), current_start as int, end - current_start),
                self.spec_allocated() == old(self).spec_allocated(),
                self.spec_total() == old(self).spec_total(),
                pow2(31) == 0x8000_0000,
                usize::MAX >= 0xffff_ffff,
            decreases end - current_start,
        {
            let (size, class) = piece(current_start, end - current_start, NUM_CLASSES - 1);
            let ghost c = self.classes();
            proof {
                lemma_pow2_pos(class as nat);
                lemma_outside_sub(c, current_start as int, end - current_start, current_start as int, size as int);
                lemma_insert_block(c, class as int, current_start);
                if current_start + size < end {
                    lemma_outside_sub(c, current_start as int, end - current_start, current_start + size, end - current_start - size);
                    lemma_outside_update(c, class as int, c[class as int].insert(current_start), current_start + size, end - current_start - size);
                }
            }
            self.insert_block(class, current_start);
            total = total + size;
            current_start = current_start + size;
            proof {
                if current_start >= end {
                    assert forall|k: int, x: usize| 0 <= k < self.classes().len() && #[trigger] self.classes()[k].contains(x)
                        implies x + pow2(k as nat) <= current_start || current_start + (end - current_start) <= x by {}
                }
            }
        }
        self.sum = self.sum + total;
    }

    /// Registers the free memory in `range`, as `alloc_frame` does.
    pub fn insert(&mut self, range: core::ops::Range<usize>)
        requires
            old(self).wf(),
            range.start <= range.end,
            old(self).spec_total() + (range.end - range.start) <= usize::MAX,
            outside_free(old(self).classes(), range.start as int, range.end - range.start),
        ensures
            final(self).wf(),
            final(self).classes() == insert_range(old(self).classes(), range.start as int, range.end as int),
            final(self).spec_allocated() == old(self).spec_allocated(),
            final(self).spec_total() == old(self).spec_total() + (range.end - range.start),
    {
        self.alloc_frame(range.start, range.end);
    }

    /// Splits the block `b` of class `i` down to class `cls`, leaving the
    /// upper half of each split free in its class.
    #[verifier::rlimit(60)]
    fn split_down(&mut self, i: usize, class: usize, b: usize)
        requires
            class <= i < NUM_CLASSES,
            old(self).link_list@.len() == NUM_CLASSES,
            classes_wf(old(self).classes()),
            old(self).classes()[i as int].contains(b),
            b == least(old(self).classes()[i as int]),
            forall|k: int| class <= k < i ==> old(self).classes()[k].len() == 0,
        ensures
            final(self).link_list@.len() == NUM_CLASSES,
            final(self).classes() == split_state(old(self).classes(), i as int, class as int, b),
            classes_wf(final(self).classes()),
            free_bytes(final(self).classes(), NUM_CLASSES as int) == free_bytes(old(self).classes(), NUM_CLASSES as int),
            final(self).spec_allocated() == old(self).spec_allocated(),
            final(self).spec_total() == old(self).spec_total(),
    {
        proof {
            lemma_word();
            lemma_pow2_values();
        }
        let ghost c0 = self.classes();
        proof {
            assert(split_state(c0, i as int, i as int, b) =~= c0);
            lemma_wf_member(c0, i as int, b);
        }
        let mut j: usize = i;
        while j > class
            invariant
                class <= j <= i < NUM_CLASSES,
                classes_wf(c0),
                c0 == old(self).classes(),
                c0.len() == NUM_CLASSES,
                b + pow2(i as nat) <= usize::MAX,
                c0[i as int].contains(b),
                b == least(c0[i as int]),
                forall|k: int| class <= k < i ==> c0[k].len() == 0,
                self.link_list@.len() == NUM_CLASSES,
                self.classes() == split_state(c0, i as int, j as int, b),
                classes_wf(self.classes()),
                free_bytes(self.classes(), NUM_CLASSES as int) == free_bytes(c0, NUM_CLASSES as int),
                self.spec_allocated() == old(self).spec_allocated(),
                self.spec_total() == old(self).spec_total(),
                pow2(31) == 0x8000_0000,
                usize::MAX >= 0xffff_ffff,
            decreases j,
        {
            let ghost c = self.classes();
            proof {
                if j == i {
                    assert(c =~= c0);
                }
                assert(c[j as int].contains(b));
            }
            let block = match self.least_in(j) {
                Some(block) => block,
                None => {
                    return ;
                },
            };
            proof {
                if j < i {
                    lemma_pow2_mono(j as nat, i as nat);
                    assert(c[j as int] == set![b, (b + pow2(j as nat)) as usize]);
                    assert(block == b || block == (b + pow2(j as nat)) as usize);
                    lemma_pow2_pos(j as nat);
                }
                assert(block == b);
                lemma_pow2_mono(j as nat, 31);
            }
            let half = pow2_exec(j - 1);
            proof {
                lemma_split_step(c0, i as int, j as int, b);
            }
            self.remove_block(j, block);
            self.insert_block(j - 1, block + half);
            self.insert_block(j - 1, block);
            j = j - 1;
        }
    }

    /// Allocates a block of `count` rounded up to a power of two: takes the
    /// lowest block of the first non-empty class that is large enough, splits
    /// it down to that size, and returns its address; `None` when no class
    /// can serve the request.
    #[verifier::rlimit(60)]
    pub fn allocate(&mut self, count: usize) -> (r: Option<usize>)
        requires
            old(self).wf(),
        ensures
            final(self).wf(),
            final(self).spec_total() == old(self).spec_total(),
            ({
                let cls = size_class(count as int) as int;
                let i = first_nonempty(old(self).classes(), cls);
                if i < 0 {
                    &&& r is None
                    &&& final(self).classes() == old(self).classes()
                    &&& final(self).spec_allocated() == old(self).spec_allocated()
                } else {
                    let b = least(old(self).classes()[i]);
                    &&& r == Some(b)
                    &&& old(self).classes()[i].contains(b)
                    &&& final(self).classes() == alloc_spec(old(self).classes(), i, cls, b)
                    &&& final(self).spec_allocated() == old(self).spec_allocated() + pow2(cls as nat)
                    // the block meets what `dealloc(b, count)` asks of it
                    &&& count <= 0x8000_0000
                    &&& aligned(b as int, cls as nat)
                    &&& b + pow2(cls as nat) <= usize::MAX
                    &&& outside_free(final(self).classes(), b as int, pow2(cls as nat) as int)
                    &&& final(self).spec_allocated() >= pow2(cls as nat)
                }
            }),
    {
        proof {
            lemma_word();
            lemma_pow2_values();
        }
        if count > 0x8000_0000 {
            proof {
                lemma_size_class(count as int, 0);
                let cls = size_class(count as int);
                if cls <= 31 {
                    lemma_pow2_mono(cls, 31);
                }
            }
            return None;
        }
        let (size, class) = class_of(count, NUM_CLASSES - 1);
        let ghost c0 = self.classes();
        let mut i: usize = class;
        while i < NUM_CLASSES
            invariant
                class <= i <= NUM_CLASSES,
                self.classes() == c0,
                c0 == old(self).classes(),
                old(self).wf(),
                *self == *old(self),
                first_nonempty(c0, class as int) == first_nonempty(c0, i as int),
                forall|k: int| class <= k < i ==> c0[k].len() == 0,
                pow2(31) == 0x8000_0000,
                usize::MAX >= 0xffff_ffff,
                size == pow2(class as nat),
                class == size_class(count as int),
                count <= 0x8000_0000,
            decreases NUM_CLASSES - i,
        {
            if self.link_list[i].len() > 0 {
                assert(c0[i as int].len() > 0) by {
                    broadcast use vstd::laws_cmp::group_laws_cmp;
                    broadcast use vstd::std_specs::btree::group_btree_axioms;
                }
                let b = match self.least_in(i) {
                    Some(b) => b,
                    None => {
                        return None;
                    },
                };
                self.split_down(i, class, b);
                let ghost c = self.classes();
                proof {
                    if class == i {
                        assert(c =~= c0);
                    }
                    assert(c[class as int].contains(b));
                }
                let result = match self.least_in(class) {
                    Some(block) => block,
                    None => {
                        return None;
                    },
                };
                proof {
                    if class < i {
                        lemma_wf_member(c0, i as int, b);
                        lemma_pow2_mono(class as nat, i as nat);
                        assert(c[class as int] == set![b, (b + pow2(class as nat)) as usize]);
                        lemma_pow2_pos(class as nat);
                    }
                    assert(result == b);
                    lemma_remove_block(c, class as int, b);
                    lemma_pow2_mono(class as nat, 31);
                    lemma_free_bytes_nonneg(self.classes().update(class as int, c[class as int].remove(b)), NUM_CLASSES as int);
                }
                self.remove_block(class, result);
                self.allocated = self.allocated + size;
                return Some(result);
            }
            proof {
                broadcast use vstd::laws_cmp::group_laws_cmp;
                broadcast use vstd::std_specs::btree::group_btree_axioms;
                assert(c0[i as int].len() == 0);
            }
            i = i + 1;
        }
        None
    }

    /// Frees the block at `frame` that `allocate(count)` handed out, merging it
    /// with its buddy for as long as the buddy is free.
    pub fn dealloc(&mut self, frame: usize, count: usize)
        requires
            old(self).wf(),
            count <= 0x8000_0000,
            aligned(frame as int, size_class(count as int)),
            frame + pow2(size_class(count as int)) <= usize::MAX,
            outside_free(old(self).classes(), frame as int, pow2(size_class(count as int)) as int),
            old(self).spec_allocated() >= pow2(size_class(count as int)),
        ensures
            final(self).wf(),
            final(self).classes() == merge_spec(old(self).classes(), frame, size_class(count as int) as int),
            final(self).spec_allocated() == old(self).spec_allocated() - pow2(size_class(count as int)),
            final(self).spec_total() == old(self).spec_total(),
    {
        proof {
            lemma_word();
            lemma_pow2_values();
        }
        let (size, class) = class_of(count, NUM_CLASSES - 1);
        let ghost c0 = self.classes();
        let mut current_ptr = frame;
        let mut current_class = class;
        let mut block_size = size;
        loop
            invariant
                old(self).wf(),
                c0 == old(self).classes(),
                class <= current_class < NUM_CLASSES,
                block_size == pow2(current_class as nat),
                size == pow2(class as nat),
                class == size_class(count as int),
                self.link_list@.len() == NUM_CLASSES,
                self.classes().len() == NUM_CLASSES,
                classes_wf(self.classes()),
                merge_spec(self.classes(), current_ptr, current_class as int) == merge_spec(c0, frame, class as int),
                aligned(current_ptr as int, current_class as nat),
                current_ptr + block_size <= usize::MAX,
                outside_free(self.classes(), current_ptr as int, block_size as int),
                free_bytes(self.classes(), NUM_CLASSES as int) + block_size == free_bytes(c0, NUM_CLASSES as int) + size,
                self.spec_allocated() == old(self).spec_allocated(),
                self.spec_total() == old(self).spec_total(),
                pow2(31) == 0x8000_0000,
                usize::MAX >= 0xffff_ffff,
            ensures
                !buddy_free(self.classes(), current_ptr, current_class as int),
                class <= current_class < NUM_CLASSES,
                block_size == pow2(current_class as nat),
                self.link_list@.len() == NUM_CLASSES,
                self.classes().len() == NUM_CLASSES,
                classes_wf(self.classes()),
                merge_spec(self.classes(), current_ptr, current_class as int) == merge_spec(c0, frame, class as int),
                aligned(current_ptr as int, current_class as nat),
                current_ptr + block_size <= usize::MAX,
                outside_free(self.classes(), current_ptr as int, block_size as int),
                free_bytes(self.classes(), NUM_CLASSES as int) + block_size == free_bytes(c0, NUM_CLASSES as int) + size,
                self.spec_allocated() == old(self).spec_allocated(),
                self.spec_total() == old(self).spec_total(),
            decreases NUM_CLASSES - current_class,
        {
            if current_class >= NUM_CLASSES - 1 {
                break;
            }
            let ghost c = self.classes();
            proof {
                lemma_buddy(current_ptr as int, current_class as nat);
                lemma_pow2_pos(current_class as nat);
            }
            let buddy: usize;
            if (current_ptr / block_size) % 2 == 0 {
                if current_ptr > usize::MAX - block_size {
                    break;
                }
                buddy = current_ptr + block_size;
            } else {
                buddy = current_ptr - block_size;
            }
            assert(buddy == buddy_of(current_ptr as int, current_class as nat));
            if self.remove_block(current_class, buddy) {
                let ghost s = block_size as int;
                let lower = if current_ptr < buddy { current_ptr } else { buddy };
                proof {
                    lemma_remove_block(c, current_class as int, buddy);
                    let c1 = self.classes();
                    lemma_outside_update(c, current_class as int, c[current_class as int].remove(buddy), current_ptr as int, s);
                    if lower == current_ptr {
                        lemma_outside_join(c1, current_ptr as int, s);
                    } else {
                        lemma_outside_join(c1, buddy as int, s);
                    }
                    assert(pow2((current_class + 1) as nat) == 2 * s);
                    lemma_pow2_mono((current_class + 1) as nat, 31);
                }
                current_ptr = lower;
                current_class = current_class + 1;
                block_size = block_size * 2;
            } else {
                proof {
                    assert(c[current_class as int].remove(buddy) =~= c[current_class as int]);
                    assert(self.classes() =~= c);
                }
                break;
            }
        }
        proof {
            lemma_insert_block(self.classes(), current_class as int, current_ptr);
        }
        self.insert_block(current_class, current_ptr);
        self.allocated = self.allocated - size;
    }

    /// The free blocks of class `k`, in ascending address order.
    pub fn free_blocks(&self, k: usize) -> (r: Vec<usize>)
        requires
            k < self.classes().len(),
        ensures
            r@.to_set() == self.classes()[k as int],
            r@.no_duplicates(),
    {
        broadcast use vstd::std_specs::btree::group_btree_axioms;
        let mut r: Vec<usize> = Vec::new();
        let set = &self.link_list[k];
        let ghost q = set.iter().remaining();
        for v in it: set.iter()
            invariant
                it.seq() == q,
                it.seq().unref().to_set() == set@,
                set@ == self.classes()[k as int],
                it.seq().unref().no_duplicates(),
                r@ == it.seq().unref().subrange(0, it.index() as int),
        {
            r.push(*v);
        }
        assert(r@ =~= q.unref());
        r
    }

    /// Whether `[p, p + size)` shares a byte with some free block: freeing
    /// such a block would be a double free.
    pub fn overlaps_free(&self, p: usize, size: usize) -> (r: bool)
        requires
            self.wf(),
        ensures
            r == !outside_free(self.classes(), p as int, size as int),
    {
        proof {
            lemma_word();
            lemma_pow2_values();
        }
        let mut k: usize = 0;
        while k < NUM_CLASSES
            invariant
                self.wf(),
                k <= NUM_CLASSES,
                pow2(31) == 0x8000_0000,
                usize::MAX >= 0xffff_ffff,
                forall|j: int, x: usize| 0 <= j < k && #[trigger] self.classes()[j].contains(x) ==> x + pow2(j as nat) <= p || p + size <= x,
            decreases NUM_CLASSES - k,
        {
            proof {
                lemma_pow2_mono(k as nat, 31);
            }
            let bsize = pow2_exec(k);
            let blocks = self.free_blocks(k);
            let mut i: usize = 0;
            while i < blocks.len()
                invariant
                    self.wf(),
                    k < NUM_CLASSES,
                    bsize == pow2(k as nat),
                    blocks@.to_set() == self.classes()[k as int],
                    i <= blocks@.len(),
                    forall|q: int| 0 <= q < i ==> blocks@[q] + bsize <= p || p + size <= blocks@[q],
                decreases blocks@.len() - i,
            {
                let x = blocks[i];
                if !(x as u128 + bsize as u128 <= p as u128 || p as u128 + size as u128 <= x as u128) {
                    assert(self.classes()[k as int].contains(x)) by {
                        assert(blocks@[i as int] == x);
                        assert(blocks@.contains(x));
                    }
                    return true;
                }
                i = i + 1;
            }
            assert forall|x: usize| #[trigger] self.classes()[k as int].contains(x) implies x + pow2(k as nat) <= p || p + size <= x by {
                assert(blocks@.to_set().contains(x));
                let q = choose|q: int| 0 <= q < blocks@.len() && blocks@[q] == x;
            }
            k = k + 1;
        }
        false
    }

    /// Bytes handed out and not yet given back.
    pub fn stats_allocated(&self) -> (r: usize)
        ensures
            r == self.spec_allocated(),
    {
        self.allocated
    }

    /// Bytes ever registered.
    pub fn stats_total(&self) -> (r: usize)
        ensures
            r == self.spec_total(),
    {
        self.sum
    }

} // impl BuddyAllocator

} // verus!
