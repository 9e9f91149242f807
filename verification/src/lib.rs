pub mod boolean_tree;
pub mod eval_formula;
pub mod normal_form;
pub mod sets;
pub mod sorting;
pub mod space_filling_curves;
pub mod truth_table;

pub use space_filling_curves::get_even_bits;
pub use space_filling_curves::set_even_bits;

pub use boolean_tree::BooleanTree;
pub use boolean_tree::ParseError;
pub use eval_formula::eval_formula;
pub use truth_table::compute_truth_table;

use vstd::prelude::*;

use boolean_tree::build_spec;

use vstd::arithmetic::power2::pow2;

verus! {

/// Full 32-bit addition computed bit by bit with carry propagation: the
/// result is the sum of the inputs, modulo two to the thirty-second.
pub fn adder(a: u32, b: u32) -> (r: u32)
    ensures
        r as int == ((a as int) + (b as int)) % 0x1_0000_0000,
{
    let mut res: u32 = 0;
    let mut carry: u32 = 0;
    let mut i: u32 = 0;
    proof {
        assert(((a as u64) & !((!0u64) << 0u64)) == 0 && ((b as u64) & !((!0u64) << 0u64)) == 0 && !(
        (!0u64) << 0u64) == 0 && ((0u64) << 0u64) == 0) by (bit_vector);
    }
    while i < 32
        invariant
            i <= 32,
            carry <= 1,
            (res as u64) + ((carry as u64) << (i as u64)) == ((a as u64) & !((!0u64) << (i as u64)))
                + ((b as u64) & !((!0u64) << (i as u64))),
            (res as u64) <= !((!0u64) << (i as u64)),
        decreases 32 - i,
    {
        let ai = (a >> i) & 1;
        let bi = (b >> i) & 1;
        let sum_bit = ai ^ bi ^ carry;
        let new_res = res | (sum_bit << i);
        let new_carry = (ai & bi) | (ai & carry) | (bi & carry);
        let next = i + 1;
        proof {
            assert((new_res as u64) + ((new_carry as u64) << (next as u64)) == ((a as u64) & !((
            !0u64) << (next as u64))) + ((b as u64) & !((!0u64) << (next as u64))) && (
            new_res as u64) <= !((!0u64) << (next as u64)) && new_carry <= 1) by (bit_vector)
                requires
                    i < 32,
                    next == i + 1,
                    carry <= 1,
                    (res as u64) + ((carry as u64) << (i as u64)) == ((a as u64) & !((!0u64) << (
                    i as u64))) + ((b as u64) & !((!0u64) << (i as u64))),
                    (res as u64) <= !((!0u64) << (i as u64)),
                    ai == (a >> i) & 1,
                    bi == (b >> i) & 1,
                    sum_bit == ai ^ bi ^ carry,
                    new_res == res | (sum_bit << i),
                    new_carry == (ai & bi) | (ai & carry) | (bi & carry),
            ;
        }
        res = new_res;
        carry = new_carry;
        i = next;
    }
    proof {
        assert((res as u64) == ((a as u64) + (b as u64)) % 0x1_0000_0000) by (bit_vector)
            requires
                carry <= 1,
                (res as u64) + ((carry as u64) << 32u64) == ((a as u64) & !((!0u64) << 32u64)) + ((
                b as u64) & !((!0u64) << 32u64)),
                (res as u64) <= !((!0u64) << 32u64),
        ;
    }
    res
}

/// Full 32-bit multiplication built from shifted additions through `adder`:
/// the result is the product of the inputs, modulo two to the thirty-second.
pub fn multiplier(a: u32, b: u32) -> (r: u32)
    ensures
        r as int == ((a as int) * (b as int)) % 0x1_0000_0000,
{
    let mut res: u32 = 0;
    let mut i: u32 = 0;
    proof {
        vstd::arithmetic::power2::lemma2_to64();
        assert((a as int) % 1int == 0) by (nonlinear_arith);
        assert((0int * (b as int)) % 0x1_0000_0000 == 0) by (nonlinear_arith);
    }
    while i < 32
        invariant
            i <= 32,
            (res as int) == (((a as int) % (pow2(i as nat) as int)) * (b as int)) % 0x1_0000_0000,
        decreases 32 - i,
    {
        let ai = (a >> i) & 1;
        let mask = adder(!ai, 1);
        let shifted = (b & mask) << i;
        let new_res = adder(res, shifted);
        let next = i + 1;
        proof {
            let ia = i as nat;
            let m: int = 0x1_0000_0000;
            let x = (a as int) % (pow2(ia) as int);
            vstd::arithmetic::power2::lemma2_to64();
            vstd::arithmetic::power2::lemma_pow2_unfold((ia + 1) as nat);
            vstd::arithmetic::power2::lemma_pow2_pos(ia);
            vstd::arithmetic::power2::lemma_pow2_strictly_increases(ia, 32);
            vstd::bits::lemma_u32_shr_is_div(a, i);
            vstd::bits::lemma_u32_low_bits_mask_is_mod(a >> i, 1);
            vstd::bits::lemma_low_bits_mask_values();
            assert(ai == ((a as int) / (pow2(ia) as int)) % 2);
            vstd::arithmetic::div_mod::lemma_breakdown(a as int, pow2(ia) as int, 2);
            assert((pow2(ia) as int) * 2 == pow2((ia + 1) as nat)) by {
                vstd::arithmetic::mul::lemma_mul_is_commutative(pow2(ia) as int, 2);
            }
            assert((a as int) % (pow2((ia + 1) as nat) as int) == (pow2(ia) as int) * (ai as int)
                + x);
            assert(ai == 0 || ai == 1) by (bit_vector)
                requires
                    ai == (a >> i) & 1,
            ;
            vstd::arithmetic::div_mod::lemma_small_mod(res as nat, 0x1_0000_0000 as nat);
            if ai == 0 {
                assert((!0u32) == 0xFFFF_FFFFu32) by (bit_vector);
                assert(mask == 0);
                assert(shifted == 0u32) by (bit_vector)
                    requires
                        shifted == (b & 0u32) << i,
                        i < 32,
                ;
                assert((new_res as int) == ((res as int) + 0) % m);
                assert((a as int) % (pow2((ia + 1) as nat) as int) == x);
                assert((new_res as int) == (x * (b as int)) % m);
            } else {
                assert((!1u32) == 0xFFFF_FFFEu32) by (bit_vector);
                assert(mask == 0xFFFF_FFFFu32);
                assert((shifted as u64) == (((b as u64) << (i as u64)) & 0xFFFF_FFFFu64))
                    by (bit_vector)
                    requires
                        shifted == (b & 0xFFFF_FFFFu32) << i,
                        i < 32,
                ;
                assert((b as int) * (pow2(ia) as int) <= 0xFFFF_FFFF_FFFF_FFFF) by (nonlinear_arith)
                    requires
                        (b as int) <= 0xFFFF_FFFF,
                        (pow2(ia) as int) <= 0x1_0000_0000,
                ;
                vstd::bits::lemma_u64_shl_is_mul(b as u64, i as u64);
                vstd::bits::lemma_u64_low_bits_mask_is_mod((b as u64) << (i as u64), 32);
                assert((shifted as int) == ((b as int) * (pow2(ia) as int)) % m);
                assert((shifted as int) == ((pow2(ia) as int) * (b as int)) % m) by {
                    vstd::arithmetic::mul::lemma_mul_is_commutative(b as int, pow2(ia) as int);
                }
                vstd::arithmetic::div_mod::lemma_mod_twice(x * (b as int), m);
                vstd::arithmetic::div_mod::lemma_mod_twice((pow2(ia) as int) * (b as int), m);
                vstd::arithmetic::div_mod::lemma_add_mod_noop(
                    x * (b as int),
                    (pow2(ia) as int) * (b as int),
                    m,
                );
                assert((new_res as int) == ((res as int) + (shifted as int)) % m);
                assert((new_res as int) == (x * (b as int) + (pow2(ia) as int) * (b as int)) % m);
                assert(x * (b as int) + (pow2(ia) as int) * (b as int) == (x + (pow2(ia) as int))
                    * (b as int)) by {
                    vstd::arithmetic::mul::lemma_mul_is_distributive_add_other_way(
                        b as int,
                        x,
                        pow2(ia) as int,
                    );
                }
                assert((a as int) % (pow2((ia + 1) as nat) as int) == x + (pow2(ia) as int));
                assert((new_res as int) == (((a as int) % (pow2((ia + 1) as nat) as int)) * (
                b as int)) % m);
            }
        }
        res = new_res;
        i = next;
    }
    proof {
        vstd::arithmetic::power2::lemma2_to64();
        vstd::arithmetic::div_mod::lemma_small_mod(a as nat, pow2(32));
    }
    res
}

/// Gray code of `n`: the exclusive or of `n` with itself shifted right once,
/// so each output bit is the exclusive or of the two input bits at and
/// above its position.
pub fn gray_code(n: u32) -> (r: u32)
    ensures
        r == n ^ (n >> 1u32),
{
    n ^ n >> 1
}

/// Rewrite a postfix formula into negation normal form and render it back
/// to postfix. The formula must build.
pub fn negation_normal_form(formula: &str) -> (r: String)
    requires
        build_spec(formula@, true) is Ok,
    ensures
        r@ == (build_spec(formula@, true)->Ok_0).nnf_of().render(),
{
    match BooleanTree::new(formula, true) {
        Ok(mut tree) => {
            tree.make_nnf();
            tree.to_formula()
        },
        Err(_) => String::new(),
    }
}

/// Rewrite a postfix formula into conjunctive normal form and render it
/// back to postfix. The formula must build.
pub fn conjunctive_normal_form(formula: &str) -> (r: String)
    requires
        build_spec(formula@, true) is Ok,
    ensures
        r@ == (build_spec(formula@, true)->Ok_0).cnf_of().render(),
{
    match BooleanTree::new(formula, true) {
        Ok(mut tree) => {
            tree.make_cnf();
            tree.to_formula()
        },
        Err(_) => String::new(),
    }
}

/// Decide the satisfiability of a postfix formula by full truth-table
/// enumeration. The formula must build.
pub fn sat(formula: &str) -> (r: bool)
    requires
        build_spec(formula@, true) is Ok,
    ensures
        r == (build_spec(formula@, true)->Ok_0).satisfiable(),
{
    match BooleanTree::new(formula, true) {
        Ok(tree) => tree.is_satisfiable(),
        Err(_) => false,
    }
}

} // verus!

verus! {

/// Every subset of the given items, in the fixed recursive
/// exclude-before-include enumeration order.
pub fn powerset(set: Vec<i32>) -> (r: Vec<Vec<i32>>)
    ensures
        r@.len() == vstd::arithmetic::power2::pow2(set@.len() as nat),
        forall|j: int|
            0 <= j < r@.len() ==> (#[trigger] r@[j])@ == sets::subset_at(set@, j as nat),
{
    sets::powerset(set)
}

/// Evaluate a postfix set expression over the supplied sets, with union
/// and intersection as the only binary operators; any other operator
/// character is an invalid token here.
pub fn eval_set(formula: &str, sets: Vec<Vec<i32>>) -> (r: Result<Vec<i32>, ParseError>)
    ensures
        match sets::eval_set_spec(formula@, sets@.map_values((|v: Vec<i32>| v@)), false) {
            Ok(s) => r matches Ok(v) && crate::sorting::ints_sorted_strict(v@) && v@.to_set() == s,
            Err(e) => r == Err::<Vec<i32>, ParseError>(e),
        },
{
    sets::eval_set_core(formula, sets, false)
}

} // verus!
