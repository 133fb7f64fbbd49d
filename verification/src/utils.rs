//! Address arithmetic shared by the allocator, the page mapper and the loader.

use vstd::prelude::*;

verus! {

/// Size of a physical frame and of a virtual page, in bytes.
pub const PAGE_SIZE: u64 = 4096;

/// Whether `addr` is a multiple of `align`. Zero is the only multiple of zero.
pub open spec fn aligned(addr: int, align: int) -> bool {
    if align == 0 {
        addr == 0
    } else {
        addr % align == 0
    }
}

/// The largest multiple of `align` that is not above `addr`.
pub open spec fn spec_align_down(addr: int, align: int) -> int
    recommends
        align > 0,
{
    addr - addr % align
}

/// The smallest multiple of `align` that is not below `addr`; zero is the
/// only multiple of zero.
pub open spec fn spec_align_up(addr: int, align: int) -> int
    recommends
        align > 0 || addr == 0,
{
    if aligned(addr, align) {
        addr
    } else {
        addr + (align - addr % align)
    }
}

/// Rounding up lands on a multiple of `align` less than `align` away.
pub proof fn lemma_align_up_is_least(addr: int, align: int)
    requires
        addr >= 0,
        align > 0,
    ensures
        spec_align_up(addr, align) % align == 0,
        addr <= spec_align_up(addr, align) < addr + align,
        forall|m: int| #[trigger] (m % align) == 0 && addr <= m ==> spec_align_up(addr, align) <= m,
{
    let r = addr % align;
    let q = addr / align;
    assert(addr == align * q + r) by {
        vstd::arithmetic::div_mod::lemma_fundamental_div_mod(addr, align);
    }
    if r != 0 {
        assert((addr + (align - r)) % align == 0) by {
            assert(addr + (align - r) == align * (q + 1)) by (nonlinear_arith)
                requires
                    addr == align * q + r,
            ;
            vstd::arithmetic::mul::lemma_mul_is_commutative(align, q + 1);
            vstd::arithmetic::div_mod::lemma_fundamental_div_mod_converse(
                addr + (align - r),
                align,
                q + 1,
                0,
            );
        }
    }
    assert forall|m: int| #[trigger] (m % align) == 0 && addr <= m implies spec_align_up(
        addr,
        align,
    ) <= m by {
        if r != 0 {
            let k = m / align;
            vstd::arithmetic::div_mod::lemma_fundamental_div_mod(m, align);
            assert(m == align * k);
            if k <= q {
                assert(align * k <= align * q) by (nonlinear_arith)
                    requires
                        k <= q,
                        align > 0,
                ;
            } else {
                assert(align * k >= align * (q + 1)) by (nonlinear_arith)
                    requires
                        k >= q + 1,
                        align > 0,
                ;
                assert(align * (q + 1) == align * q + align) by (nonlinear_arith);
            }
        }
    }
}

/// Rounding down lands on a multiple of `align` less than `align` below.
pub proof fn lemma_align_down_is_greatest(addr: int, align: int)
    requires
        addr >= 0,
        align > 0,
    ensures
        spec_align_down(addr, align) % align == 0,
        addr - align < spec_align_down(addr, align) <= addr,
        spec_align_down(addr, align) == align * (addr / align),
{
    vstd::arithmetic::div_mod::lemma_fundamental_div_mod(addr, align);
    vstd::arithmetic::mul::lemma_mul_is_commutative(align, addr / align);
    vstd::arithmetic::div_mod::lemma_fundamental_div_mod_converse(
        addr - addr % align,
        align,
        addr / align,
        0,
    );
}

/// Tests whether `addr` is a multiple of `align`.
pub fn is_aligned(addr: u64, align: u64) -> (r: bool)
    ensures
        r == aligned(addr as int, align as int),
{
    if align == 0 {
        addr == 0
    } else {
        addr % align == 0
    }
}

/// Rounds `addr` up to the next multiple of `align`. Zero is the only
/// multiple of zero, and is rounded to itself.
pub fn align_up(addr: u64, align: u64) -> (r: u64)
    requires
        align > 0 || addr == 0,
        spec_align_up(addr as int, align as int) <= u64::MAX,
    ensures
        r == spec_align_up(addr as int, align as int),
        aligned(r as int, align as int),
        align > 0 ==> addr <= r < addr + align,
{
    proof {
        if align > 0 {
            lemma_align_up_is_least(addr as int, align as int);
        }
    }
    if is_aligned(addr, align) {
        addr
    } else {
        addr + (align - (addr % align))
    }
}

/// Rounds `addr` down to the previous multiple of `align`.
pub fn align_down(addr: u64, align: u64) -> (r: u64)
    requires
        align > 0,
    ensures
        r == spec_align_down(addr as int, align as int),
        r % align == 0,
        addr - align < r <= addr,
{
    proof {
        lemma_align_down_is_greatest(addr as int, align as int);
    }
    addr - addr % align
}

} // verus!
