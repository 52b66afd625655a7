//! Standalone Elias omega coding of numbers into a shared bit sequence.

use vstd::prelude::*;

verus! {

use crate::bits::{bin_bits, bit_len, bits_to_nat, from_usize, Bit, Bits};
use crate::number_encoders::omega::{
    lemma_omega_code_len_bound, lemma_omega_stream_ok, omega_code, omega_code_fn, omega_decode,
    omega_group_bits, omega_state_ok, omega_step, omega_step_fn, OmegaState,
};
use crate::number_encoders::{all_positive, as_ints, code_concat, lemma_run_snoc, machine_run,
    valid_stream};

/// Appends the Elias omega codeword of `number` to `bits`: the chain of
/// binary groups, innermost length first, then a terminating zero.
pub fn encode_number_and_append(number: usize, bits: &mut Bits)
    requires
        old(bits).wf(),
        number >= 1,
        old(bits)@.len() + omega_code(number as int).len() <= usize::MAX,
    ensures
        final(bits).wf(),
        final(bits)@ == old(bits)@ + omega_code(number as int),
{
    proof {
        lemma_omega_code_len_bound(number as int);
    }
    if number == 1 {
        bits.push_bit(Bit::ZERO);
        proof {
            assert(omega_code(1) =~= seq![false]);
            assert(bits@ =~= old(bits)@ + omega_code(1));
        }
    } else {
        let groups = omega_group_bits(number);
        bits.append_bits(&groups);
        bits.push_bit(Bit::ZERO);
        proof {
            assert(bits@ =~= old(bits)@ + omega_code(number as int));
        }
    }
}

/// The decoder's cursor as the omega machine's state: at rest right after
/// a delivered number, and otherwise inside a group with `curr_bit` bits
/// still owed.
spec fn cursor_state(buf: Seq<bool>, curr_bit: int, just_started: bool) -> OmegaState {
    if curr_bit == 0 && just_started {
        OmegaState::Empty
    } else {
        OmegaState::InsideWord { buf, remaining: curr_bit }
    }
}

/// Decodes a stream of Elias omega codewords back into the numbers.
pub fn decode_number(bytes: &Bits) -> (numbers: Vec<usize>)
    requires
        bytes.wf(),
        valid_stream(omega_code_fn(), bytes@),
    ensures
        as_ints(numbers@) == omega_decode(bytes@),
{
    let ghost ns: Seq<usize> = choose|ns: Seq<usize>|
        all_positive(as_ints(ns)) && bytes@ == code_concat(omega_code_fn(), as_ints(ns));
    let n = bytes.len();
    let mut numbers: Vec<usize> = Vec::new();
    let mut curr_bit: usize = 0;
    let mut curr_number_bits: Bits = from_usize(1);
    let mut just_started = true;
    let mut i: usize = 0;
    proof {
        assert(bin_bits(1) =~= seq![true]);
        assert(bytes@.take(0) =~= Seq::<bool>::empty());
        assert(as_ints(numbers@) =~= Seq::<int>::empty());
    }
    while i < n
        invariant
            bytes.wf(),
            curr_number_bits.wf(),
            i <= n == bytes@.len(),
            all_positive(as_ints(ns)),
            bytes@ == code_concat(omega_code_fn(), as_ints(ns)),
            just_started ==> curr_number_bits@ == seq![true],
            cursor_state(curr_number_bits@, curr_bit as int, just_started) == machine_run(
                omega_step_fn(),
                OmegaState::Empty,
                bytes@.take(i as int),
            ).0,
            as_ints(numbers@) == machine_run(
                omega_step_fn(),
                OmegaState::Empty,
                bytes@.take(i as int),
            ).1,
        decreases n - i,
    {
        let ghost ints = as_ints(ns);
        let ghost st0 = cursor_state(curr_number_bits@, curr_bit as int, just_started);
        proof {
            assert(forall|k: int| 0 <= k < ints.len() ==> ints[k] <= usize::MAX);
            lemma_omega_stream_ok(ints, i as int);
            assert(omega_state_ok(st0));
            lemma_run_snoc(omega_step_fn(), OmegaState::Empty, bytes@.take(i as int), bytes@[i as int]);
            assert(bytes@.take(i as int).push(bytes@[i as int]) =~= bytes@.take(i + 1));
            assert(bits_to_nat(seq![true]) == 1) by {
                assert(seq![true].drop_last() =~= Seq::<bool>::empty());
                assert(bits_to_nat(Seq::<bool>::empty()) == 0);
            }
        }
        let bit = bytes.get_bit(i);
        if curr_bit == 0 {
            match bit {
                Bit::ONE => {
                    curr_bit = curr_number_bits.to_usize();
                    curr_number_bits = from_usize(1);
                    proof {
                        assert(bin_bits(1) =~= seq![true]);
                        assert(cursor_state(curr_number_bits@, curr_bit as int, true)
                            == omega_step(st0, true).0);
                    }
                },
                Bit::ZERO => {
                    let ghost before = numbers@;
                    if just_started {
                        numbers.push(1);
                        proof {
                            assert(as_ints(numbers@) =~= as_ints(before) + seq![1int]);
                        }
                    } else {
                        let curr_number = curr_number_bits.to_usize();
                        numbers.push(curr_number);
                        curr_number_bits = from_usize(1);
                        proof {
                            assert(bin_bits(1) =~= seq![true]);
                            assert(as_ints(numbers@) =~= as_ints(before)
                                + seq![curr_number as int]);
                        }
                    }
                },
            }
            just_started = true;
        } else {
            curr_number_bits.push_bit(bit);
            curr_bit = curr_bit - 1;
            just_started = false;
        }
        proof {
            let stepped = omega_step(st0, bytes@[i as int]);
            assert(cursor_state(curr_number_bits@, curr_bit as int, just_started) == stepped.0);
            assert(as_ints(numbers@) =~= machine_run(
                omega_step_fn(),
                OmegaState::Empty,
                bytes@.take(i as int),
            ).1 + stepped.1);
        }
        i = i + 1;
    }
    proof {
        assert(bytes@.take(n as int) =~= bytes@);
    }
    numbers
}

/// Returns `bit_len(number)`: the 1-based position of the highest set bit,
/// or 1 when `number` is zero.
pub fn get_usize_bit_len(number: usize) -> (len: usize)
    ensures
        len == bit_len(number as int),
{
    crate::bits::get_usize_bit_len(number)
}

} // verus!
