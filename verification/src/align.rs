//! What alignment means, and why clearing the low bits of an address achieves it.

use vstd::prelude::*;

verus! {

/// Whether `n` is a power of two: it is not zero and has exactly one bit set.
pub open spec fn is_power_of_two(n: usize) -> bool {
    n != 0 && n & ((n - 1) as usize) == 0
}

/// The greatest multiple of `align` that is at most `addr`; `addr` itself where
/// `align` is zero.
pub open spec fn spec_align_down(addr: int, align: int) -> int {
    if align == 0 {
        addr
    } else {
        addr - addr % align
    }
}

/// The smallest multiple of `align` that is at least `addr`, computed as the
/// executable code does: by aligning `addr + align - 1` downwards.
pub open spec fn spec_align_up(addr: int, align: int) -> int {
    spec_align_down(addr + align - 1, align)
}

/// The distance from `addr` up to the next multiple of `align`.
pub open spec fn padding_to(addr: int, align: int) -> int {
    if addr % align == 0 {
        0
    } else {
        align - addr % align
    }
}

proof fn lemma_halve(n: usize)
    requires
        is_power_of_two(n),
        n != 1,
    ensures
        n % 2 == 0,
        is_power_of_two(n / 2),
{
    assert(n != 0 && n & ((n - 1) as usize) == 0 && n != 1 ==> n % 2 == 0 && (n / 2) != 0 && (n
        / 2) & (((n / 2) - 1) as usize) == 0) by (bit_vector);
}

proof fn lemma_double(n: usize)
    requires
        n % 2 == 0,
        is_power_of_two(n / 2),
    ensures
        is_power_of_two(n),
{
    assert(n % 2 == 0 && (n / 2) != 0 && (n / 2) & (((n / 2) - 1) as usize) == 0 ==> n != 0 && n & ((
    n - 1) as usize) == 0) by (bit_vector);
}

/// The numbers with exactly one bit set are the powers of two.
pub proof fn lemma_one_bit_is_power_of_two(n: usize)
    ensures
        is_power_of_two(n) <==> vstd::arithmetic::power2::is_pow2(n as int),
    decreases n,
{
    reveal(vstd::arithmetic::power2::is_pow2);
    if n == 1 {
        assert(1usize & ((1usize - 1) as usize) == 0) by (bit_vector);
    } else if n > 1 {
        let h: usize = n / 2;
        lemma_one_bit_is_power_of_two(h);
        if is_power_of_two(n) {
            lemma_halve(n);
        }
        if n % 2 == 0 && is_power_of_two(h) {
            lemma_double(n);
        }
    }
}

proof fn lemma_double_multiple(x: int, h: int)
    requires
        h > 0,
        x % h == 0,
    ensures
        (2 * x) % (2 * h) == 0,
{
    vstd::arithmetic::div_mod::lemma_fundamental_div_mod(x, h);
    let q = x / h;
    assert(2 * x == (2 * h) * q) by (nonlinear_arith)
        requires
            x == h * q,
    ;
    vstd::arithmetic::div_mod::lemma_mod_multiples_basic(q, 2 * h);
    assert((2 * h) * q == q * (2 * h)) by (nonlinear_arith);
}

proof fn lemma_cleared_is_multiple(a: usize, n: usize)
    requires
        is_power_of_two(n),
    ensures
        (a & !((n - 1) as usize)) % n == 0,
    decreases n,
{
    if n == 1 {
        assert((a & !((n - 1) as usize)) % 1 == 0);
    } else {
        lemma_halve(n);
        let h: usize = n / 2;
        let b: usize = a / 2;
        lemma_cleared_is_multiple(b, h);
        assert(n != 0 && n & ((n - 1) as usize) == 0 && n != 1 ==> a & !((n - 1) as usize) == 2 * ((
        a / 2) & !(((n / 2) - 1) as usize))) by (bit_vector);
        lemma_double_multiple((b & !((h - 1) as usize)) as int, h as int);
    }
}

/// Clearing the bits below a power of two rounds down to a multiple of it.
pub proof fn lemma_mask_rounds_down(addr: usize, align: usize)
    requires
        is_power_of_two(align),
    ensures
        addr & !((align - 1) as usize) == spec_align_down(addr as int, align as int),
{
    let d = addr & !((align - 1) as usize);
    let r = addr & ((align - 1) as usize);
    assert(align != 0 ==> (addr & !((align - 1) as usize)) + (addr & ((align - 1) as usize))
        == addr && (addr & ((align - 1) as usize)) < align) by (bit_vector);
    lemma_cleared_is_multiple(addr, align);
    let q = d as int / align as int;
    vstd::arithmetic::div_mod::lemma_fundamental_div_mod(d as int, align as int);
    vstd::arithmetic::div_mod::lemma_fundamental_div_mod_converse(
        addr as int,
        align as int,
        q,
        r as int,
    );
}

/// Aligning downwards gives the greatest multiple of `align` that does not exceed
/// `addr`.
pub proof fn lemma_align_down_is_greatest(addr: int, align: int, x: int)
    requires
        align > 0,
    ensures
        spec_align_down(addr, align) % align == 0,
        addr - align < spec_align_down(addr, align) <= addr,
        x % align == 0 && x <= addr ==> x <= spec_align_down(addr, align),
{
    let d = spec_align_down(addr, align);
    vstd::arithmetic::div_mod::lemma_fundamental_div_mod(addr, align);
    vstd::arithmetic::div_mod::lemma_mod_multiples_basic(addr / align, align);
    assert(d == (addr / align) * align) by (nonlinear_arith)
        requires
            d == addr - addr % align,
            addr == align * (addr / align) + addr % align,
    ;
    if x % align == 0 && x <= addr && x > d {
        vstd::arithmetic::div_mod::lemma_fundamental_div_mod(x, align);
        let qx = x / align;
        let qa = addr / align;
        assert(qx > qa) by (nonlinear_arith)
            requires
                x == align * qx,
                d == qa * align,
                x > d,
                align > 0,
        ;
        assert(x >= d + align) by (nonlinear_arith)
            requires
                x == align * qx,
                d == qa * align,
                qx >= qa + 1,
                align > 0,
        ;
    }
}

/// Aligning upwards adds exactly the padding that separates `addr` from the next
/// multiple of `align`.
pub proof fn lemma_align_up_adds_padding(addr: int, align: int)
    requires
        align > 0,
    ensures
        spec_align_up(addr, align) == addr + padding_to(addr, align),
        0 <= padding_to(addr, align) < align,
{
    let q = addr / align;
    let r = addr % align;
    vstd::arithmetic::div_mod::lemma_fundamental_div_mod(addr, align);
    if r == 0 {
        assert(addr + align - 1 == q * align + (align - 1)) by (nonlinear_arith)
            requires
                addr == align * q,
        ;
        vstd::arithmetic::div_mod::lemma_fundamental_div_mod_converse(
            addr + align - 1,
            align,
            q,
            align - 1,
        );
    } else {
        assert(addr + align - 1 == (q + 1) * align + (r - 1)) by (nonlinear_arith)
            requires
                addr == align * q + r,
        ;
        vstd::arithmetic::div_mod::lemma_fundamental_div_mod_converse(
            addr + align - 1,
            align,
            q + 1,
            r - 1,
        );
    }
}

/// Aligning upwards gives the smallest multiple of `align` that is not below `addr`.
pub proof fn lemma_align_up_is_smallest(addr: int, align: int, x: int)
    requires
        align > 0,
    ensures
        spec_align_up(addr, align) % align == 0,
        addr <= spec_align_up(addr, align) < addr + align,
        x % align == 0 && x >= addr ==> x >= spec_align_up(addr, align),
{
    lemma_align_up_adds_padding(addr, align);
    lemma_align_down_is_greatest(addr + align - 1, align, x + align);
    lemma_align_down_is_greatest(addr + align - 1, align, x);
    let u = spec_align_up(addr, align);
    if x % align == 0 && x >= addr && x < u {
        // `u - align` is a multiple below `addr`, and `x` lies strictly between the two.
        lemma_align_down_is_greatest(x, align, u - align);
        vstd::arithmetic::div_mod::lemma_mod_sub_multiples_vanish(u, align);
        vstd::arithmetic::div_mod::lemma_fundamental_div_mod(x, align);
        vstd::arithmetic::div_mod::lemma_fundamental_div_mod(u, align);
        let qx = x / align;
        let qu = u / align;
        assert(qx < qu) by (nonlinear_arith)
            requires
                x == align * qx,
                u == align * qu,
                x < u,
                align > 0,
        ;
        assert(x <= u - align) by (nonlinear_arith)
            requires
                x == align * qx,
                u == align * qu,
                qx <= qu - 1,
                align > 0,
        ;
    }
}

} // verus!
