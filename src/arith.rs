//! Powers of two and address alignment.
use vstd::prelude::*;

verus! {

/// `2^k`.
pub open spec fn pow2(k: nat) -> nat
    decreases k,
{
    if k == 0 {
        1
    } else {
        2 * pow2((k - 1) as nat)
    }
}

/// `n` is a power of two.
pub open spec fn is_pow2(n: int) -> bool {
    exists|k: nat| pow2(k) == n
}

/// The smallest multiple of `align` that is at least `addr`.
pub open spec fn align_up_spec(addr: int, align: int) -> int
    recommends
        align > 0,
{
    if addr % align == 0 {
        addr
    } else {
        addr - addr % align + align
    }
}

pub proof fn lemma_pow2_pos(k: nat)
    ensures
        pow2(k) >= 1,
    decreases k,
{
    if k > 0 {
        lemma_pow2_pos((k - 1) as nat);
    }
}

pub proof fn lemma_pow2_mono(a: nat, b: nat)
    requires
        a <= b,
    ensures
        pow2(a) <= pow2(b),
    decreases b,
{
    if a < b {
        lemma_pow2_mono(a, (b - 1) as nat);
        lemma_pow2_pos((b - 1) as nat);
    }
}

pub proof fn lemma_pow2_strict(a: nat, b: nat)
    requires
        a < b,
    ensures
        pow2(a) < pow2(b),
    decreases b,
{
    lemma_pow2_mono(a, (b - 1) as nat);
    lemma_pow2_pos((b - 1) as nat);
}

pub proof fn lemma_is_pow2_pos(n: int)
    requires
        is_pow2(n),
    ensures
        n >= 1,
{
    lemma_pow2_pos(choose|k: nat| pow2(k) == n);
}

pub proof fn lemma_pow2_add(a: nat, b: nat)
    ensures
        pow2(a + b) == pow2(a) * pow2(b),
    decreases b,
{
    if b == 0 {
        assert(pow2(0) == 1);
        assert(a + b == a);
    } else {
        lemma_pow2_add(a, (b - 1) as nat);
        assert(pow2(a + b) == 2 * pow2((a + b - 1) as nat));
        assert(pow2(a) * pow2(b) == pow2(a) * (2 * pow2((b - 1) as nat)));
        assert(pow2(a) * (2 * pow2((b - 1) as nat)) == 2 * (pow2(a) * pow2((b - 1) as nat))) by (nonlinear_arith);
    }
}

pub proof fn lemma_pow2_values()
    ensures
        pow2(0) == 1,
        pow2(1) == 2,
        pow2(2) == 4,
        pow2(3) == 8,
        pow2(4) == 16,
        pow2(12) == 4096,
        pow2(31) == 0x8000_0000,
{
    reveal_with_fuel(pow2, 32);
}

/// Rounds `addr` up to a multiple of `align`.
pub fn align_up(addr: usize, align: usize) -> (r: usize)
    requires
        align > 0,
        addr + align - 1 <= usize::MAX,
    ensures
        r == align_up_spec(addr as int, align as int),
        r >= addr,
        r % align == 0,
        r < addr + align,
{
    let rem = addr % align;
    assert(rem < align && rem <= addr) by {
        vstd::arithmetic::div_mod::lemma_mod_bound(addr as int, align as int);
        vstd::arithmetic::div_mod::lemma_mod_decreases(addr as nat, align as nat);
    }
    if rem == 0 {
        addr
    } else {
        proof {
            assert((addr - rem + align) % (align as int) == 0) by {
                vstd::arithmetic::div_mod::lemma_fundamental_div_mod(addr as int, align as int);
                vstd::arithmetic::div_mod::lemma_mod_multiples_basic(addr as int / align as int + 1, align as int);
                assert(addr - rem + align == (addr as int / align as int + 1) * align) by (nonlinear_arith)
                    requires addr == align * (addr as int / align as int) + rem;
            }
        }
        addr - rem + align
    }
}

/// The largest power of two not above `num`.
pub open spec fn is_prev_pow2(num: int, r: int) -> bool {
    is_pow2(r) && r <= num < 2 * r
}

/// Returns the largest power of two that is at most `num`.
pub fn prev_power_of_two(num: usize) -> (r: usize)
    requires
        num > 0,
    ensures
        is_prev_pow2(num as int, r as int),
{
    let mut r: usize = 1;
    let ghost mut k: nat = 0;
    while r <= num / 2
        invariant
            1 <= r <= num,
            pow2(k) == r,
        decreases num - r,
    {
        r = r * 2;
        proof {
            k = k + 1;
        }
    }
    r
}

/// The least `k` at or above `from` (and at most 64) with `count <= 2^k`.
pub open spec fn size_class_from(count: int, from: nat) -> nat
    decreases 64 - from,
{
    if count <= pow2(from) || from >= 64 {
        from
    } else {
        size_class_from(count, from + 1)
    }
}

/// The class of a request of `count` units: the least `k` with `count <= 2^k`.
pub open spec fn size_class(count: int) -> nat {
    size_class_from(count, 0)
}

pub proof fn lemma_size_class(count: int, from: nat)
    ensures
        size_class_from(count, from) >= from,
        count <= pow2(size_class_from(count, from)) || size_class_from(count, from) >= 64,
    decreases 64 - from,
{
    if !(count <= pow2(from) || from >= 64) {
        lemma_size_class(count, from + 1);
    }
}

/// Returns `2^k`.
pub fn pow2_exec(k: usize) -> (r: usize)
    requires
        pow2(k as nat) <= usize::MAX,
    ensures
        r == pow2(k as nat),
{
    let mut r: usize = 1;
    let mut i: usize = 0;
    while i < k
        invariant
            i <= k,
            r == pow2(i as nat),
            pow2(k as nat) <= usize::MAX,
        decreases k - i,
    {
        proof {
            lemma_pow2_mono((i + 1) as nat, k as nat);
        }
        r = r * 2;
        i = i + 1;
    }
    r
}

/// Returns `(size, class)`: the smallest power of two `size = 2^class` with
/// `count <= size`, for a `count` of at most `2^limit`.
pub fn class_of(count: usize, limit: usize) -> (r: (usize, usize))
    requires
        limit < 64,
        pow2(limit as nat) <= usize::MAX,
        count <= pow2(limit as nat),
    ensures
        r.0 == pow2(r.1 as nat),
        r.1 <= limit,
        count <= r.0,
        r.1 == 0 || r.0 / 2 < count,
        r.1 == size_class(count as int),
{
    let mut size: usize = 1;
    let mut class: usize = 0;
    proof {
        lemma_pow2_pos(limit as nat);
    }
    while size < count
        invariant
            size == pow2(class as nat),
            class <= limit,
            pow2(limit as nat) <= usize::MAX,
            count <= pow2(limit as nat),
            class == 0 || size / 2 < count,
            size_class(count as int) == size_class_from(count as int, class as nat),
            limit < 64,
        decreases limit - class,
    {
        proof {
            if class == limit {
                assert(false);
            }
            lemma_pow2_mono((class + 1) as nat, limit as nat);
        }
        size = size * 2;
        class = class + 1;
    }
    (size, class)
}

} // verus!
