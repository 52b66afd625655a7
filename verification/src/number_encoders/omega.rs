//! Things for implementing the omega variant of elias encoding and decoding.

use vstd::prelude::*;

verus! {

use crate::bits::{
    bin_bits, bit_len, bits_to_nat, from_usize, get_usize_bit_len, lemma_bin_bits_first,
    lemma_bin_bits_len, lemma_bin_bits_value, lemma_bit_len_le_self, lemma_bit_len_min,
    lemma_bit_len_usize, lemma_bits_to_nat_prefix, Bit, Bits,
};
use crate::number_encoders::{
    all_positive, as_ints, code_concat, lemma_code_concat_len_bound, lemma_code_concat_push,
    lemma_code_concat_split, lemma_run_append, lemma_run_snoc, machine_run,
    NumberDecoder, NumberEncoder,
};

/// The chain of binary groups of the Elias omega codeword: nothing for 1,
/// and otherwise the groups of `bit_len(n) - 1` followed by the minimal
/// binary form of `n`.
pub open spec fn omega_groups(n: int) -> Seq<bool>
    decreases n,
{
    if n < 2 {
        Seq::empty()
    } else {
        proof {
            lemma_bit_len_le_self(n);
        }
        omega_groups(bit_len(n) - 1) + bin_bits(n)
    }
}

/// The Elias omega codeword of `n >= 1`: the group chain followed by a
/// terminating zero.
pub open spec fn omega_code(n: int) -> Seq<bool> {
    omega_groups(n) + seq![false]
}

/// The omega codeword function as a value.
pub open spec fn omega_code_fn() -> spec_fn(int) -> Seq<bool> {
    |n: int| omega_code(n)
}

/// State of the omega decoder between two bits.
pub enum OmegaState {
    Empty,
    InsideWord { buf: Seq<bool>, remaining: int },
}

/// One transition of the omega decoder.
pub open spec fn omega_step(st: OmegaState, b: bool) -> (OmegaState, Seq<int>) {
    match st {
        OmegaState::Empty => if b {
            (OmegaState::InsideWord { buf: seq![true], remaining: 1 }, Seq::<int>::empty())
        } else {
            (OmegaState::Empty, seq![1int])
        },
        OmegaState::InsideWord { buf, remaining } => if remaining <= 0 {
            if b {
                (
                    OmegaState::InsideWord {
                        buf: seq![true],
                        remaining: bits_to_nat(buf) as int,
                    },
                    Seq::<int>::empty(),
                )
            } else {
                (OmegaState::Empty, seq![bits_to_nat(buf) as int])
            }
        } else {
            (
                OmegaState::InsideWord { buf: buf.push(b), remaining: remaining - 1 },
                Seq::<int>::empty(),
            )
        },
    }
}

/// The omega transition as a value.
pub open spec fn omega_step_fn() -> spec_fn(OmegaState, bool) -> (OmegaState, Seq<int>) {
    |st: OmegaState, b: bool| omega_step(st, b)
}

/// Everything the omega state machine emits on `bits`, starting from the
/// initial state.
pub open spec fn omega_decode(bits: Seq<bool>) -> Seq<int> {
    machine_run(omega_step_fn(), OmegaState::Empty, bits).1
}

/// `bit_len` never exceeds half its argument plus one.
proof fn lemma_bit_len_half(n: int)
    requires
        n >= 1,
    ensures
        bit_len(n) <= n / 2 + 1,
    decreases n,
{
    if n >= 4 {
        lemma_bit_len_half(n / 2);
    } else if n >= 2 {
        lemma_bit_len_min(n / 2);
        assert(bit_len(n) == 1 + bit_len(n / 2));
        assert(bit_len(n / 2) == 1);
    }
}

/// The group chain is comfortably short: at most `4 * bit_len(n) - 4` bits.
proof fn lemma_omega_groups_len(n: int)
    requires
        2 <= n,
    ensures
        omega_groups(n).len() <= 4 * bit_len(n) - 4,
    decreases n,
{
    let l = bit_len(n) as int;
    let m = l - 1;
    lemma_bin_bits_len(n);
    lemma_bit_len_le_self(n);
    lemma_bit_len_min(n / 2);
    assert(omega_groups(n).len() == omega_groups(m).len() + l);
    if m >= 2 {
        lemma_omega_groups_len(m);
        lemma_bit_len_half(m);
        assert(4 * bit_len(m) <= 4 * ((l - 1) / 2) + 4);
        assert(4 * ((l - 1) / 2) <= 2 * (l - 1));
        assert(l >= 3);
    } else {
        assert(omega_groups(m) =~= Seq::<bool>::empty());
    }
}

/// An omega codeword is never longer than `4 * bit_len(n)` bits.
pub proof fn lemma_omega_code_len_bound(n: int)
    requires
        1 <= n,
    ensures
        omega_code(n).len() <= 4 * bit_len(n),
        omega_code(n).len() >= 1,
{
    if n >= 2 {
        lemma_omega_groups_len(n);
    }
    lemma_bit_len_min(n);
}

/// Consuming bits while the counter is positive just fills the buffer.
proof fn lemma_omega_fill(buf: Seq<bool>, remaining: int, s: Seq<bool>, t: Seq<bool>)
    requires
        s.len() <= remaining,
    ensures
        machine_run(omega_step_fn(), OmegaState::InsideWord { buf, remaining }, s + t).0
            == machine_run(
            omega_step_fn(),
            OmegaState::InsideWord { buf: buf + s, remaining: remaining - s.len() },
            t,
        ).0,
        machine_run(omega_step_fn(), OmegaState::InsideWord { buf, remaining }, s + t).1
            == machine_run(
            omega_step_fn(),
            OmegaState::InsideWord { buf: buf + s, remaining: remaining - s.len() },
            t,
        ).1,
    decreases s.len(),
{
    if s.len() == 0 {
        assert(s + t =~= t);
        assert(buf + s =~= buf);
    } else {
        assert((s + t).first() == s.first());
        assert((s + t).drop_first() =~= s.drop_first() + t);
        lemma_omega_fill(buf.push(s.first()), remaining - 1, s.drop_first(), t);
        assert(buf.push(s.first()) + s.drop_first() =~= buf + s);
        assert(Seq::<int>::empty() + machine_run(
            omega_step_fn(),
            OmegaState::InsideWord { buf: buf + s, remaining: remaining - s.len() },
            t,
        ).1 =~= machine_run(
            omega_step_fn(),
            OmegaState::InsideWord { buf: buf + s, remaining: remaining - s.len() },
            t,
        ).1);
    }
}

/// Reading the whole group chain of `n` leaves the machine holding the
/// minimal binary form of `n`, waiting on the group terminator.
proof fn lemma_omega_groups_run(n: int, t: Seq<bool>)
    requires
        2 <= n,
    ensures
        machine_run(omega_step_fn(), OmegaState::Empty, omega_groups(n) + t).0 == machine_run(
            omega_step_fn(),
            OmegaState::InsideWord { buf: bin_bits(n), remaining: 0 },
            t,
        ).0,
        machine_run(omega_step_fn(), OmegaState::Empty, omega_groups(n) + t).1 == machine_run(
            omega_step_fn(),
            OmegaState::InsideWord { buf: bin_bits(n), remaining: 0 },
            t,
        ).1,
    decreases n,
{
    let l = bit_len(n) as int;
    let m = l - 1;
    lemma_bin_bits_len(n);
    lemma_bin_bits_first(n);
    lemma_bit_len_min(n / 2);
    lemma_bit_len_le_self(n);
    if m == 1 {
        assert(omega_groups(m) =~= Seq::<bool>::empty());
        assert(omega_groups(n) =~= bin_bits(n));
        assert((bin_bits(n) + t).first() == true);
        assert((bin_bits(n) + t).drop_first() =~= bin_bits(n).drop_first() + t);
        lemma_omega_fill(seq![true], 1, bin_bits(n).drop_first(), t);
        assert(seq![true] + bin_bits(n).drop_first() =~= bin_bits(n));
        assert(Seq::<int>::empty() + machine_run(
            omega_step_fn(),
            OmegaState::InsideWord { buf: bin_bits(n), remaining: 0 },
            t,
        ).1 =~= machine_run(
            omega_step_fn(),
            OmegaState::InsideWord { buf: bin_bits(n), remaining: 0 },
            t,
        ).1);
    } else {
        assert(omega_groups(n) + t =~= omega_groups(m) + (bin_bits(n) + t));
        lemma_omega_groups_run(m, bin_bits(n) + t);
        lemma_bin_bits_value(m);
        assert((bin_bits(n) + t).first() == true);
        assert((bin_bits(n) + t).drop_first() =~= bin_bits(n).drop_first() + t);
        lemma_omega_fill(seq![true], m, bin_bits(n).drop_first(), t);
        assert(seq![true] + bin_bits(n).drop_first() =~= bin_bits(n));
        assert(Seq::<int>::empty() + machine_run(
            omega_step_fn(),
            OmegaState::InsideWord { buf: bin_bits(n), remaining: 0 },
            t,
        ).1 =~= machine_run(
            omega_step_fn(),
            OmegaState::InsideWord { buf: bin_bits(n), remaining: 0 },
            t,
        ).1);
    }
}

/// A complete codeword emits its number and returns the machine to the
/// initial state.
proof fn lemma_omega_code_run(n: int)
    requires
        1 <= n,
    ensures
        machine_run(omega_step_fn(), OmegaState::Empty, omega_code(n)).0 == OmegaState::Empty,
        machine_run(omega_step_fn(), OmegaState::Empty, omega_code(n)).1 == seq![n],
{
    assert(seq![false] =~= Seq::<bool>::empty().push(false));
    if n == 1 {
        assert(omega_code(1) =~= Seq::<bool>::empty().push(false));
        lemma_run_snoc(omega_step_fn(), OmegaState::Empty, Seq::<bool>::empty(), false);
        assert(machine_run(omega_step_fn(), OmegaState::Empty, Seq::<bool>::empty()).1
            =~= Seq::<int>::empty());
        assert(Seq::<int>::empty() + seq![1int] =~= seq![1int]);
    } else {
        lemma_omega_groups_run(n, seq![false]);
        lemma_bin_bits_value(n);
        let mid = OmegaState::InsideWord { buf: bin_bits(n), remaining: 0 };
        lemma_run_snoc(omega_step_fn(), mid, Seq::<bool>::empty(), false);
        assert(machine_run(omega_step_fn(), mid, Seq::<bool>::empty()).1
            =~= Seq::<int>::empty());
        assert(machine_run(omega_step_fn(), mid, Seq::<bool>::empty().push(false)).1
            =~= seq![n]);
        assert(machine_run(omega_step_fn(), mid, seq![false]).1 == seq![n]);
        assert(machine_run(omega_step_fn(), mid, seq![false]).0 == OmegaState::Empty);
    }
}

/// The machine state is within machine bounds: the buffer holds a positive
/// number that fits in a word, and is itself no longer than a word.
pub open spec fn omega_state_ok(st: OmegaState) -> bool {
    match st {
        OmegaState::Empty => true,
        OmegaState::InsideWord { buf, remaining } => {
            &&& 1 <= buf.len() <= usize::BITS
            &&& 1 <= bits_to_nat(buf) <= usize::MAX
            &&& 0 <= remaining <= usize::MAX
        },
    }
}

/// Every state along one codeword of a machine-size number is in bounds.
proof fn lemma_omega_word_prefix_ok(n: int, j: int)
    requires
        1 <= n <= usize::MAX,
        0 <= j <= omega_code(n).len(),
    ensures
        omega_state_ok(machine_run(omega_step_fn(), OmegaState::Empty, omega_code(n).take(j)).0),
{
    lemma_omega_prefix_ok_general(n, omega_code(n), j);
}

/// Helper: along any prefix of `omega_groups(n) + tail` where the tail
/// keeps states bounded, all states stay bounded. Proved for the codeword
/// shape actually used: `tail` is the terminator.
proof fn lemma_omega_prefix_ok_general(n: int, whole: Seq<bool>, j: int)
    requires
        1 <= n <= usize::MAX,
        whole == omega_code(n),
        0 <= j <= whole.len(),
    ensures
        omega_state_ok(machine_run(omega_step_fn(), OmegaState::Empty, whole.take(j)).0),
{
    if j == omega_code(n).len() {
        assert(whole.take(j) =~= omega_code(n));
        lemma_omega_code_run(n);
    } else if n == 1 {
        assert(omega_code(1) =~= seq![false]);
        assert(whole.take(0) =~= Seq::<bool>::empty());
    } else {
        assert(whole.take(j) =~= omega_groups(n).take(j)) by {
            assert(omega_code(n).take(j) =~= omega_groups(n).take(j));
        }
        lemma_omega_groups_prefix_ok(n, j);
    }
}

/// Every state along a proper prefix of the group chain of `n` is bounded
/// by the machine word, provided `n` fits in one.
proof fn lemma_omega_groups_prefix_ok(n: int, j: int)
    requires
        2 <= n <= usize::MAX,
        0 <= j <= omega_groups(n).len(),
    ensures
        omega_state_ok(
            machine_run(omega_step_fn(), OmegaState::Empty, omega_groups(n).take(j)).0,
        ),
    decreases n,
{
    let l = bit_len(n) as int;
    let m = l - 1;
    lemma_bin_bits_len(n);
    lemma_bin_bits_first(n);
    lemma_bin_bits_value(n);
    lemma_bit_len_min(n / 2);
    lemma_bit_len_le_self(n);
    lemma_bit_len_usize(n as usize);
    let g = omega_groups(m);
    if j <= g.len() {
        if m == 1 {
            assert(g =~= Seq::<bool>::empty());
            assert(omega_groups(n).take(0) =~= Seq::<bool>::empty());
        } else {
            assert(omega_groups(n).take(j) =~= g.take(j));
            lemma_omega_groups_prefix_ok(m, j);
        }
    } else {
        let k = j - g.len();
        assert(omega_groups(n).take(j) =~= g + bin_bits(n).take(k));
        if m == 1 {
            assert(g =~= Seq::<bool>::empty());
            assert(omega_groups(n).take(j) =~= bin_bits(n).take(k));
        }
        let mid = OmegaState::InsideWord { buf: bin_bits(m), remaining: 0 };
        if m >= 2 {
            lemma_omega_groups_run(m, bin_bits(n).take(k));
            lemma_bin_bits_value(m);
        }
        assert(bin_bits(n).take(k).first() == true);
        assert(bin_bits(n).take(k).drop_first() =~= bin_bits(n).take(k).skip(1));
        let body = bin_bits(n).take(k).skip(1);
        lemma_omega_fill(seq![true], m, body, Seq::<bool>::empty());
        assert(body + Seq::<bool>::empty() =~= body);
        assert(seq![true] + body =~= bin_bits(n).take(k));
        lemma_bits_to_nat_prefix(bin_bits(n), k);
        crate::bits::lemma_bits_to_nat_first_one(bin_bits(n).take(k));
        if m >= 2 {
            lemma_bin_bits_len(m);
            lemma_bin_bits_first(m);
            crate::bits::lemma_bits_to_nat_first_one(bin_bits(m));
        }
    }
}

/// Every state along a stream of codewords of machine-size numbers is in
/// bounds.
pub(crate) proof fn lemma_omega_stream_ok(ns: Seq<int>, i: int)
    requires
        all_positive(ns),
        forall|k: int| 0 <= k < ns.len() ==> ns[k] <= usize::MAX,
        0 <= i <= code_concat(omega_code_fn(), ns).len(),
    ensures
        omega_state_ok(
            machine_run(
                omega_step_fn(),
                OmegaState::Empty,
                code_concat(omega_code_fn(), ns).take(i),
            ).0,
        ),
    decreases ns.len(),
{
    let code = omega_code_fn();
    let cc = code_concat(code, ns);
    if ns.len() == 0 {
        assert(cc.take(0) =~= Seq::<bool>::empty());
    } else {
        let n0 = ns.first();
        let c0 = omega_code(n0);
        let rest = ns.drop_first();
        let ccr = code_concat(code, rest);
        assert(cc == c0 + ccr);
        if i < c0.len() {
            assert(cc.take(i) =~= c0.take(i));
            lemma_omega_word_prefix_ok(n0, i);
        } else {
            let i2 = i - c0.len();
            assert(cc.take(i) =~= c0 + ccr.take(i2));
            lemma_omega_code_run(n0);
            lemma_run_append(omega_step_fn(), OmegaState::Empty, c0, ccr.take(i2));
            lemma_omega_stream_ok(rest, i2);
        }
    }
}

/// Builds the group chain of `number` as bits: each group is the minimal
/// binary form of one chain value, innermost value first.
pub(crate) fn omega_group_bits(number: usize) -> (bits: Bits)
    requires
        number >= 2,
    ensures
        bits.wf(),
        bits@ == omega_groups(number as int),
    decreases number,
{
    proof {
        lemma_bit_len_le_self(number as int);
        lemma_bit_len_min((number / 2) as int);
    }
    let prefix_len = get_usize_bit_len(number) - 1;
    let mut bits = if prefix_len >= 2 {
        omega_group_bits(prefix_len)
    } else {
        let empty = Bits::new();
        proof {
            assert(omega_groups(prefix_len as int) =~= Seq::<bool>::empty());
        }
        empty
    };
    let group = from_usize(number);
    proof {
        lemma_bin_bits_len(number as int);
        lemma_bit_len_usize(number);
        if number >= 2 {
            lemma_omega_groups_len(number as int);
        }
        lemma_bit_len_usize(prefix_len);
    }
    bits.append_bits(&group);
    bits
}

/// Omega variant of elias encoder.
pub struct EliasOmegaEncoder;

impl NumberEncoder for EliasOmegaEncoder {
    open spec fn spec_code(n: int) -> Seq<bool> {
        omega_code(n)
    }

    open spec fn spec_encode_pre(ns: Seq<usize>) -> bool {
        &&& all_positive(as_ints(ns))
        &&& code_concat(omega_code_fn(), as_ints(ns)).len() <= usize::MAX
    }

    proof fn lemma_encode_pre(ns: Seq<usize>) {
        let ints = as_ints(ns);
        assert forall|i: int| 0 <= i < ints.len() implies (#[trigger] omega_code_fn()(
            ints[i],
        )).len() <= 256 by {
            lemma_omega_code_len_bound(ints[i]);
            lemma_bit_len_usize(ns[i]);
        }
        lemma_code_concat_len_bound(omega_code_fn(), ints, 256);
        assert(ints.len() * 256 <= usize::MAX) by (nonlinear_arith)
            requires
                ints.len() <= usize::MAX / 256,
        ;
    }

    fn encode(numbers: &[usize]) -> (bits: Bits) {
        let ghost ints = as_ints(numbers@);
        let mut bits = Bits::new();
        let mut idx: usize = 0;
        proof {
            assert(ints.take(0) =~= Seq::<int>::empty());
        }
        while idx < numbers.len()
            invariant
                bits.wf(),
                idx <= numbers@.len(),
                ints == as_ints(numbers@),
                all_positive(ints),
                code_concat(omega_code_fn(), ints).len() <= usize::MAX,
                bits@ == code_concat(omega_code_fn(), ints.take(idx as int)),
            decreases numbers@.len() - idx,
        {
            let number = numbers[idx];
            proof {
                assert(ints[idx as int] == number as int);
                lemma_code_concat_push(omega_code_fn(), ints.take(idx as int), number as int);
                assert(ints.take(idx as int).push(number as int) =~= ints.take(idx + 1));
                lemma_code_concat_split(omega_code_fn(), ints, idx + 1);
                lemma_omega_code_len_bound(number as int);
            }
            if number == 1 {
                bits.push_bit(Bit::ZERO);
                proof {
                    assert(omega_code(1) =~= seq![false]);
                    assert(bits@ =~= code_concat(omega_code_fn(), ints.take(idx + 1)));
                }
            } else {
                let groups = omega_group_bits(number);
                bits.append_bits(&groups);
                bits.push_bit(Bit::ZERO);
                proof {
                    assert((bits@ =~= code_concat(omega_code_fn(), ints.take(idx + 1)))) by {
                        assert(omega_code(number as int) =~= omega_groups(number as int)
                            + seq![false]);
                    }
                }
            }
            idx = idx + 1;
        }
        proof {
            assert(ints.take(numbers@.len() as int) =~= ints);
            assert((|n: int| Self::spec_code(n)) =~= omega_code_fn());
        }
        bits
    }
}

/// State machine keeping track of elias omega decoding state.
enum DecodingState {
    Empty,
    InsideWord(Bits, usize),
}

impl DecodingState {
    /// The executable state as the specification's state.
    spec fn model(self) -> OmegaState {
        match self {
            DecodingState::Empty => OmegaState::Empty,
            DecodingState::InsideWord(buf, remaining) => OmegaState::InsideWord {
                buf: buf@,
                remaining: remaining as int,
            },
        }
    }

    /// The buffer inside the state is well formed.
    spec fn wf(self) -> bool {
        match self {
            DecodingState::InsideWord(buf, _) => buf.wf(),
            _ => true,
        }
    }
}

/// Omega variant of elias decoder.
pub struct EliasOmegaDecoder;

impl EliasOmegaDecoder {
    /// A zero bit at rest is the codeword of 1.
    fn decode_zero(numbers: &mut Vec<usize>) -> (next: DecodingState)
        ensures
            final(numbers)@ == old(numbers)@.push(1usize),
            next.model() == OmegaState::Empty,
            next.wf(),
    {
        numbers.push(1);
        DecodingState::Empty
    }

    /// A one bit at rest starts a two-bit group.
    fn start_decoding_number() -> (next: DecodingState)
        ensures
            next.model() == (OmegaState::InsideWord { buf: seq![true], remaining: 1int }),
            next.wf(),
    {
        let one = from_usize(1);
        proof {
            assert(bin_bits(1) =~= seq![true]);
        }
        DecodingState::InsideWord(one, 1)
    }

    /// A zero after a complete group: the group was the value itself.
    fn end_decoding_number(numbers: &mut Vec<usize>, bits: &Bits) -> (next: DecodingState)
        requires
            bits.wf(),
            bits_to_nat(bits@) <= usize::MAX,
        ensures
            final(numbers)@ == old(numbers)@.push((bits_to_nat(bits@) as usize)),
            next.model() == OmegaState::Empty,
            next.wf(),
    {
        let number = bits.to_usize();
        numbers.push(number);
        DecodingState::Empty
    }

    /// A one after a complete group: the group was the length, less one, of
    /// the next group.
    fn next_step(bits: &Bits) -> (next: DecodingState)
        requires
            bits.wf(),
            bits_to_nat(bits@) <= usize::MAX,
        ensures
            next.model() == (OmegaState::InsideWord {
                buf: seq![true],
                remaining: bits_to_nat(bits@) as int,
            }),
            next.wf(),
    {
        let remaining = bits.to_usize();
        let one = from_usize(1);
        proof {
            assert(bin_bits(1) =~= seq![true]);
        }
        DecodingState::InsideWord(one, remaining)
    }

    /// One more bit of the current group.
    fn next_bit(bits: Bits, curr_bit: usize, bit: Bit) -> (next: DecodingState)
        requires
            bits.wf(),
            bits@.len() < usize::MAX,
            curr_bit >= 1,
        ensures
            next.model() == (OmegaState::InsideWord {
                buf: bits@.push(bit.as_bool()),
                remaining: curr_bit - 1int,
            }),
            next.wf(),
    {
        let mut bits = bits;
        bits.push_bit(bit);
        DecodingState::InsideWord(bits, curr_bit - 1)
    }
}

impl NumberDecoder for EliasOmegaDecoder {
    open spec fn spec_code(n: int) -> Seq<bool> {
        omega_code(n)
    }

    open spec fn spec_decode(bits: Seq<bool>) -> Seq<int> {
        omega_decode(bits)
    }

    proof fn lemma_code_resets(n: int, tail: Seq<bool>) {
        lemma_run_append(omega_step_fn(), OmegaState::Empty, omega_code(n), tail);
        lemma_omega_code_run(n);
    }

    proof fn lemma_decode_empty() {
    }

    fn decode(bits: &Bits) -> (numbers: Vec<usize>) {
        proof {
            assert((|n: int| Self::spec_code(n)) =~= omega_code_fn());
        }
        let ghost ns: Seq<usize> = choose|ns: Seq<usize>|
            all_positive(as_ints(ns)) && bits@ == code_concat(omega_code_fn(), as_ints(ns));
        let n = bits.len();
        let mut numbers: Vec<usize> = Vec::new();
        let mut decoding_state = DecodingState::Empty;
        let mut i: usize = 0;
        proof {
            assert(bits@.take(0) =~= Seq::<bool>::empty());
            assert(as_ints(numbers@) =~= Seq::<int>::empty());
        }
        while i < n
            invariant
                bits.wf(),
                i <= n == bits@.len(),
                all_positive(as_ints(ns)),
                bits@ == code_concat(omega_code_fn(), as_ints(ns)),
                decoding_state.wf(),
                decoding_state.model() == machine_run(
                    omega_step_fn(),
                    OmegaState::Empty,
                    bits@.take(i as int),
                ).0,
                as_ints(numbers@) == machine_run(
                    omega_step_fn(),
                    OmegaState::Empty,
                    bits@.take(i as int),
                ).1,
            decreases n - i,
        {
            let ghost ints = as_ints(ns);
            let ghost st0 = decoding_state.model();
            proof {
                assert(forall|k: int| 0 <= k < ints.len() ==> ints[k] <= usize::MAX);
                lemma_omega_stream_ok(ints, i as int);
                lemma_run_snoc(
                    omega_step_fn(),
                    OmegaState::Empty,
                    bits@.take(i as int),
                    bits@[i as int],
                );
                assert(bits@.take(i as int).push(bits@[i as int]) =~= bits@.take(i + 1));
            }
            let bit = bits.get_bit(i);
            decoding_state = match (decoding_state, bit) {
                (DecodingState::Empty, Bit::ZERO) => {
                    proof {
                        assert(as_ints(numbers@.push(1usize)) =~= as_ints(numbers@) + seq![1int]);
                    }
                    EliasOmegaDecoder::decode_zero(&mut numbers)
                },
                (DecodingState::Empty, Bit::ONE) => EliasOmegaDecoder::start_decoding_number(),
                (DecodingState::InsideWord(word_bits, curr_bit), bit) => {
                    if curr_bit == 0 {
                        match bit {
                            Bit::ZERO => {
                                let ghost value = bits_to_nat(word_bits@) as usize;
                                proof {
                                    assert(as_ints(numbers@.push(value)) =~= as_ints(numbers@)
                                        + seq![value as int]);
                                }
                                EliasOmegaDecoder::end_decoding_number(&mut numbers, &word_bits)
                            },
                            Bit::ONE => EliasOmegaDecoder::next_step(&word_bits),
                        }
                    } else {
                        EliasOmegaDecoder::next_bit(word_bits, curr_bit, bit)
                    }
                },
            };
            proof {
                assert(machine_run(omega_step_fn(), OmegaState::Empty, bits@.take(i + 1)).1
                    =~= machine_run(omega_step_fn(), OmegaState::Empty, bits@.take(i as int)).1
                    + omega_step(st0, bits@[i as int]).1);
            }
            i = i + 1;
        }
        proof {
            assert(bits@.take(n as int) =~= bits@);
        }
        numbers
    }
}

} // verus!
