//! Rounding addresses to a boundary.
use vstd::prelude::*;

verus! {

/// The least multiple of `align` no smaller than `value`.
pub open spec fn up(value: int, align: int) -> int {
    if value % align == 0 {
        value
    } else {
        value - value % align + align
    }
}

/// The greatest multiple of `align` no larger than `value`.
pub open spec fn down(value: int, align: int) -> int {
    value - value % align
}

/// `value` rounded up to a multiple of `align`, if there is one in range.
pub fn align_up(value: u64, align: u64) -> (aligned: Option<u64>)
    requires
        align > 0,
    ensures
        aligned == if up(value as int, align as int) <= u64::MAX {
            Some(up(value as int, align as int) as u64)
        } else {
            None
        },
{
    let past: u64 = value % align;
    if past == 0 {
        return Some(value);
    }
    let gap: u64 = align - past;
    if value > u64::MAX - gap {
        None
    } else {
        Some(value + gap)
    }
}

/// `value` rounded down to a multiple of `align`.
pub fn align_down(value: u64, align: u64) -> (aligned: u64)
    requires
        align > 0,
    ensures
        aligned == down(value as int, align as int),
{
    proof {
        lemma_down(value as int, align as int);
    }
    value - value % align
}

pub proof fn lemma_down(value: int, align: int)
    requires
        value >= 0,
        align > 0,
    ensures
        0 <= value % align <= value,
        down(value, align) % align == 0,
{
    vstd::arithmetic::div_mod::lemma_mod_decreases(value as nat, align as nat);
    vstd::arithmetic::div_mod::lemma_fundamental_div_mod(value, align);
    vstd::arithmetic::div_mod::lemma_mod_multiples_basic(value / align, align);
    assert(down(value, align) == (value / align) * align) by (nonlinear_arith)
        requires
            value == align * (value / align) + value % align,
            down(value, align) == value - value % align,
    ;
}

/// Rounding up gives a multiple, and no multiple lies between.
pub proof fn lemma_up(value: int, align: int)
    requires
        value >= 0,
        align > 0,
    ensures
        up(value, align) % align == 0,
        value <= up(value, align) < value + align,
        forall|m: int| value <= m && #[trigger] (m % align) == 0 ==> up(value, align) <= m,
{
    lemma_down(value, align);
    vstd::arithmetic::div_mod::lemma_fundamental_div_mod(value, align);
    let q = value / align;
    if value % align != 0 {
        vstd::arithmetic::div_mod::lemma_mod_multiples_basic(q + 1, align);
        assert(up(value, align) == (q + 1) * align) by (nonlinear_arith)
            requires
                value == align * q + value % align,
                up(value, align) == value - value % align + align,
        ;
        assert forall|m: int| value <= m && #[trigger] (m % align) == 0 implies up(value, align)
            <= m by {
            vstd::arithmetic::div_mod::lemma_fundamental_div_mod(m, align);
            let k = m / align;
            assert(k >= q + 1) by (nonlinear_arith)
                requires
                    m == align * k + 0,
                    value == align * q + value % align,
                    value % align > 0,
                    value <= m,
                    align > 0,
            ;
            assert((q + 1) * align <= m) by (nonlinear_arith)
                requires
                    m == align * k + 0,
                    k >= q + 1,
                    align > 0,
            ;
        }
    }
}

/// An address is rounded to the nearest multiple on either side of it: none lies
/// between, and one that is a multiple already stays where it is.
pub proof fn law_rounding_goes_to_the_nearest_multiple(value: int, align: int, multiple: int)
    requires
        value >= 0,
        align > 0,
        multiple % align == 0,
    ensures
        up(value, align) % align == 0,
        down(value, align) % align == 0,
        down(value, align) <= value <= up(value, align),
        value <= multiple ==> up(value, align) <= multiple,
        multiple <= value ==> multiple <= down(value, align),
        value == multiple ==> up(value, align) == value && down(value, align) == value,
{
    lemma_down(value, align);
    lemma_up(value, align);
    if multiple <= value {
        vstd::arithmetic::div_mod::lemma_fundamental_div_mod(value, align);
        vstd::arithmetic::div_mod::lemma_fundamental_div_mod(multiple, align);
        vstd::arithmetic::div_mod::lemma_div_is_ordered(multiple, value, align);
        let q = value / align;
        let k = multiple / align;
        assert(multiple <= align * q) by (nonlinear_arith)
            requires
                multiple == align * k + 0,
                k <= q,
                align > 0,
        ;
    }
}

} // verus!
