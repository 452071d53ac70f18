use vstd::arithmetic::div_mod::*;
use vstd::arithmetic::mul::*;
use vstd::prelude::*;

verus! {

/// The least multiple of `align` that is not below `value`.
pub open spec fn aligned(value: int, align: int) -> int {
    counted(value, align) * align
}

/// The number of pieces of `align` bytes that are needed to hold `value` bytes.
pub open spec fn counted(value: int, align: int) -> int {
    (value + align - 1) / align
}

/// More bytes need at least as many pieces.
pub proof fn lemma_counted_grows(a: int, b: int, align: int)
    requires
        a <= b,
        0 < align,
    ensures
        counted(a, align) <= counted(b, align),
        aligned(a, align) <= aligned(b, align),
{
    vstd::arithmetic::div_mod::lemma_div_is_ordered(a + align - 1, b + align - 1, align);
    vstd::arithmetic::mul::lemma_mul_inequality(counted(a, align), counted(b, align), align);
}

/// What `counted` is: enough pieces, and not one more than needed.
pub proof fn lemma_counted(value: int, align: int)
    requires
        0 <= value,
        0 < align,
    ensures
        0 <= counted(value, align),
        value <= counted(value, align) * align < value + align,
        counted(value, align) <= value,
        value > 0 ==> counted(value, align) == 1 + (value - 1) / align,
        value > 0 ==> counted(value, align) > 0,
        value == 0 ==> counted(value, align) == 0,
{
    let c = counted(value, align);
    lemma_fundamental_div_mod(value + align - 1, align);
    lemma_mul_is_commutative(c, align);
    assert((value + align - 1) % align < align) by {
        lemma_mod_bound(value + align - 1, align);
    }
    lemma_mod_bound(value + align - 1, align);
    lemma_div_pos_is_pos(value + align - 1, align);
    if value > 0 {
        lemma_div_plus_one(value - 1, align);
        lemma_div_pos_is_pos(value - 1, align);
        lemma_div_is_ordered_by_denominator(value - 1, 1, align);
    } else {
        lemma_basic_div(align - 1, align);
    }
}

/// Rounds `value` up to a multiple of `align`.
pub fn align_up(value: usize, align: usize) -> (r: usize)
    requires
        align > 0,
        aligned(value as int, align as int) <= usize::MAX,
    ensures
        r == aligned(value as int, align as int),
        r % align == 0,
        value <= r < value + align,
{
    let rest: usize = align - value % align;
    proof {
        let v = value as int;
        let a = align as int;
        lemma_counted(v, a);
        lemma_fundamental_div_mod(v, a);
        lemma_mod_bound(v, a);
        lemma_mul_is_commutative(v / a, a);
        lemma_mul_is_distributive_add_other_way(a, v / a, 1);
        if v % a == 0 {
            lemma_mod_self_0(a);
            if v > 0 {
                lemma_fundamental_div_mod_converse(v + a - 1, a, v / a, a - 1);
            } else {
                lemma_basic_div(a - 1, a);
            }
        } else {
            lemma_small_mod(rest as nat, align as nat);
            lemma_fundamental_div_mod_converse(v + a - 1, a, v / a + 1, v % a - 1);
        }
        lemma_mod_multiples_basic(counted(v, a), a);
    }
    value + rest % align
}

/// Divides `value` by `align`, rounding up.
pub fn divide_up(value: usize, align: usize) -> (r: usize)
    requires
        align > 0,
    ensures
        r == counted(value as int, align as int),
        value > 0 ==> r >= 1 && (r - 1) * align < value <= r * align,
        value == 0 ==> r == 0,
{
    proof {
        lemma_counted(value as int, align as int);
        lemma_mul_is_distributive_sub_other_way(
            align as int,
            counted(value as int, align as int),
            1,
        );
    }
    if value == 0 {
        0
    } else {
        1 + (value - 1) / align
    }
}

} // verus!
