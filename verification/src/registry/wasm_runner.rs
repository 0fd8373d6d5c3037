//! What a skill hands to the control loop.

use crate::diagnostics::frequency_enforcer::LatestCommand;
use crate::io_bridge::command_vector::CommandVector;
use crate::io_bridge::wire::filled;
use crate::numeric::accuracy::{
    abs, lemma_abs_product, lemma_product_error, lemma_sizes, one_unit,
};
use crate::numeric::binary32::{number_zero, Binary32};
use crate::numeric::rounding::lemma_magnitude_compose;
use crate::numeric::whole::HALF_BITS;
use vstd::arithmetic::power2::*;
use vstd::prelude::*;

verus! {

/// The number 1.
pub const REWARD_BITS: u32 = 0x3f80_0000;

/// The number -1.
pub const PENALTY_BITS: u32 = 0xbf80_0000;

/// The reward of a skill: 0, -1 or 1, by the length of its code.
pub open spec fn reward_of(bytecode: Seq<u8>) -> Binary32 {
    if bytecode.len() % 3 == 0 {
        number_zero()
    } else if bytecode.len() % 3 == 1 {
        (Binary32 { bits: PENALTY_BITS })
    } else {
        (Binary32 { bits: REWARD_BITS })
    }
}

/// Evaluates a skill without running its code.
pub fn evaluate_reward(bytecode: &[u8]) -> (r: Binary32)
    ensures
        r == reward_of(bytecode@),
{
    let rest: usize = bytecode.len() % 3;
    if rest == 0 {
        Binary32::zero()
    } else if rest == 1 {
        Binary32 { bits: PENALTY_BITS }
    } else {
        Binary32 { bits: REWARD_BITS }
    }
}

/// The coordinates that a reward stands for.
pub open spec fn coordinates(reward: Binary32) -> Seq<Binary32> {
    seq![reward, reward.opposite(), reward.product(Binary32 { bits: HALF_BITS })]
}

/// The command of a skill.
pub fn skill_command(bytecode: &[u8]) -> (c: CommandVector)
    ensures
        c.wf(),
        c@ == coordinates(reward_of(bytecode@)),
        c.entries() == filled(coordinates(reward_of(bytecode@))),
{
    let reward: Binary32 = evaluate_reward(bytecode);
    let values: [Binary32; 3] = [
        reward,
        reward.negated(),
        reward.times(Binary32 { bits: HALF_BITS }),
    ];
    assert(values@ =~= coordinates(reward));
    let c: CommandVector = CommandVector::from_slice(&values);
    assert(c@ =~= coordinates(reward));
    c
}

/// Runs a skill: its command is put into the register that the control loop reads.
pub fn run_skill(bytecode: &[u8], output: &mut LatestCommand)
    ensures
        final(output).slot is Some,
        (final(output).slot->0)@ == coordinates(reward_of(bytecode@)),
        (final(output).slot->0).entries() == filled(coordinates(reward_of(bytecode@))),
{
    output.publish(skill_command(bytecode));
}

/// The reward goes round with the length of the code: three bytes more change nothing, and
/// the lengths that leave 1 and 2 are rewarded with -1 and 1.
pub proof fn law_reward_goes_round(a: Seq<u8>, b: Seq<u8>)
    ensures
        b.len() == a.len() + 3 ==> reward_of(a) == reward_of(b),
        a.len() % 3 == 0 ==> reward_of(a).value() == 0,
        a.len() % 3 == 1 ==> reward_of(a).value() == -(one_unit() as int),
        a.len() % 3 == 2 ==> reward_of(a).value() == one_unit(),
        reward_of(a).finite(),
{
    lemma_units();
}

proof fn lemma_units()
    ensures
        (Binary32 { bits: REWARD_BITS }).value() == one_unit(),
        (Binary32 { bits: PENALTY_BITS }).value() == -(one_unit() as int),
        number_zero().value() == 0,
        2 * (Binary32 { bits: HALF_BITS }).value() == one_unit(),
        (Binary32 { bits: HALF_BITS }).finite(),
{
    lemma2_to64();
    assert(pow2(23) == 8388608);
    lemma_magnitude_compose(23, 126, 8388608);
    lemma_magnitude_compose(23, 125, 8388608);
    lemma_magnitude_compose(23, 0, 0);
    lemma_pow2_adds(23, 126);
    lemma_pow2_adds(23, 125);
    lemma_pow2_unfold(149);
    assert(126 * 8388608 + 8388608 == REWARD_BITS as int);
    assert(125 * 8388608 + 8388608 == HALF_BITS as int);
}

/// The coordinates of a skill are its reward, the opposite of it, and half of it up to
/// rounding.
pub proof fn law_coordinates_of_reward(reward: Binary32)
    requires
        reward.finite(),
        coordinates(reward)[2].finite(),
    ensures
        coordinates(reward).len() == 3,
        coordinates(reward)[0] == reward,
        coordinates(reward)[1].value() == -reward.value(),
        8388608 * abs(reward.value() - 2 * coordinates(reward)[2].value()) <= abs(
            coordinates(reward)[2].value(),
        ) + 8388608,
{
    let half = Binary32 { bits: HALF_BITS };
    let c = reward.product(half).value();
    let one = one_unit() as int;
    let x = reward.value();
    lemma_units();
    lemma_sizes();
    lemma_product_error(reward, half);
    let h = half.value();
    assert(x * h - c * one == (x - 2 * c) * h) by (nonlinear_arith)
        requires
            one == 2 * h,
    ;
    lemma_abs_product(x - 2 * c, h);
    let off = abs(x - 2 * c);
    assert(16777216 * (off * h) <= (abs(c) + 8388608) * (2 * h));
    assert(8388608 * off <= abs(c) + 8388608) by (nonlinear_arith)
        requires
            16777216 * (off * h) <= (abs(c) + 8388608) * (2 * h),
            h > 0,
    ;
}

} // verus!
