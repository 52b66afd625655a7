//! Things for implementing the gamma variant of elias encoding and decoding.

use vstd::prelude::*;

verus! {

use crate::bits::{
    bin_bits, bit_len, bits_to_nat, from_usize, get_usize_bit_len, lemma_bin_bits_first,
    lemma_bin_bits_len, lemma_bin_bits_value, lemma_bit_len_min, lemma_bit_len_usize, Bit, Bits,
};
use crate::number_encoders::{
    all_positive, as_ints, code_concat, lemma_code_concat_len_bound, lemma_code_concat_push,
    lemma_code_concat_split, lemma_run_append, lemma_run_snoc, machine_run,
    zero_bits, NumberDecoder, NumberEncoder,
};

/// The Elias gamma codeword of `n >= 1`: `bit_len(n) - 1` zeros followed by
/// the minimal binary form of `n`.
pub open spec fn gamma_code(n: int) -> Seq<bool> {
    zero_bits((bit_len(n) - 1) as nat) + bin_bits(n)
}

/// The gamma codeword function as a value.
pub open spec fn gamma_code_fn() -> spec_fn(int) -> Seq<bool> {
    |n: int| gamma_code(n)
}

/// State of the gamma decoder between two bits.
pub enum GammaState {
    Empty,
    CountingZeros { zeros: int },
    InsideNumber { buf: Seq<bool>, remaining: int },
}

/// One transition of the gamma decoder.
pub open spec fn gamma_step(st: GammaState, b: bool) -> (GammaState, Seq<int>) {
    match st {
        GammaState::Empty => if b {
            (GammaState::Empty, seq![1int])
        } else {
            (GammaState::CountingZeros { zeros: 1 }, Seq::<int>::empty())
        },
        GammaState::CountingZeros { zeros } => if b {
            (GammaState::InsideNumber { buf: seq![true], remaining: zeros }, Seq::<int>::empty())
        } else {
            (GammaState::CountingZeros { zeros: zeros + 1 }, Seq::<int>::empty())
        },
        GammaState::InsideNumber { buf, remaining } => {
            let grown = buf.push(b);
            if remaining <= 1 {
                (GammaState::Empty, seq![bits_to_nat(grown) as int])
            } else {
                (
                    GammaState::InsideNumber { buf: grown, remaining: remaining - 1 },
                    Seq::<int>::empty(),
                )
            }
        },
    }
}

/// The gamma transition as a value.
pub open spec fn gamma_step_fn() -> spec_fn(GammaState, bool) -> (GammaState, Seq<int>) {
    |st: GammaState, b: bool| gamma_step(st, b)
}

/// Everything the gamma state machine emits on `bits`, starting from the
/// initial state.
pub open spec fn gamma_decode(bits: Seq<bool>) -> Seq<int> {
    machine_run(gamma_step_fn(), GammaState::Empty, bits).1
}

/// A gamma codeword has `2 * bit_len(n) - 1` bits.
pub proof fn lemma_gamma_code_len(n: int)
    ensures
        gamma_code(n).len() == 2 * bit_len(n) - 1,
{
    lemma_bin_bits_len(n);
}

/// The decoder state after the first `j` bits of `gamma_code(n)`.
spec fn gamma_word_state(n: int, j: int) -> GammaState {
    let l = bit_len(n) as int;
    if j == 0 {
        GammaState::Empty
    } else if j <= l - 1 {
        GammaState::CountingZeros { zeros: j }
    } else {
        GammaState::InsideNumber {
            buf: bin_bits(n).take(j - (l - 1)),
            remaining: 2 * l - 1 - j,
        }
    }
}

/// One transition inside a gamma codeword moves to the next word state,
/// emitting the number exactly on the last bit.
proof fn lemma_gamma_word_step(n: int, j: int)
    requires
        1 <= n,
        0 <= j < 2 * bit_len(n) - 1,
    ensures
        j < 2 * bit_len(n) - 2 ==> {
            &&& gamma_step(gamma_word_state(n, j), gamma_code(n)[j]).0 == gamma_word_state(
                n,
                j + 1,
            )
            &&& gamma_step(gamma_word_state(n, j), gamma_code(n)[j]).1 == Seq::<int>::empty()
        },
        j == 2 * bit_len(n) - 2 ==> {
            &&& gamma_step(gamma_word_state(n, j), gamma_code(n)[j]).0 == GammaState::Empty
            &&& gamma_step(gamma_word_state(n, j), gamma_code(n)[j]).1 == seq![n]
        },
{
    let l = bit_len(n) as int;
    lemma_bin_bits_len(n);
    lemma_bin_bits_first(n);
    lemma_bin_bits_value(n);
    if j == l - 1 {
        assert(gamma_code(n)[j] == bin_bits(n)[0]);
        if j > 0 {
            assert(bin_bits(n).take(1) =~= seq![true]);
        }
        if j == 2 * l - 2 {
            if n >= 2 {
                lemma_bit_len_min(n / 2);
            }
            assert(n == 1);
            assert(gamma_step(gamma_word_state(n, j), gamma_code(n)[j]).1 =~= seq![n]);
        }
    } else if j >= l {
        let k = j - (l - 1);
        assert(gamma_code(n)[j] == bin_bits(n)[k]);
        assert(bin_bits(n).take(k).push(bin_bits(n)[k]) =~= bin_bits(n).take(k + 1));
        if j == 2 * l - 2 {
            assert(bin_bits(n).take(k + 1) =~= bin_bits(n));
            assert(bits_to_nat(bin_bits(n).take(k).push(bin_bits(n)[k])) == n);
            assert(gamma_step(gamma_word_state(n, j), gamma_code(n)[j]).1 =~= seq![n]);
        }
    }
}

/// Running the machine over a prefix of one codeword, from the initial
/// state: no emissions until the final bit, which emits the number.
proof fn lemma_gamma_run_prefix(n: int, j: int)
    requires
        1 <= n,
        0 <= j <= 2 * bit_len(n) - 1,
    ensures
        j < 2 * bit_len(n) - 1 ==> {
            &&& machine_run(gamma_step_fn(), GammaState::Empty, gamma_code(n).take(j)).0
                == gamma_word_state(n, j)
            &&& machine_run(gamma_step_fn(), GammaState::Empty, gamma_code(n).take(j)).1
                == Seq::<int>::empty()
        },
        j == 2 * bit_len(n) - 1 ==> {
            &&& machine_run(gamma_step_fn(), GammaState::Empty, gamma_code(n).take(j)).0
                == GammaState::Empty
            &&& machine_run(gamma_step_fn(), GammaState::Empty, gamma_code(n).take(j)).1
                == seq![n]
        },
    decreases j,
{
    lemma_gamma_code_len(n);
    if j == 0 {
        assert(gamma_code(n).take(0) =~= Seq::<bool>::empty());
    } else {
        lemma_gamma_run_prefix(n, j - 1);
        assert(gamma_code(n).take(j) =~= gamma_code(n).take(j - 1).push(gamma_code(n)[j - 1]));
        lemma_run_snoc(
            gamma_step_fn(),
            GammaState::Empty,
            gamma_code(n).take(j - 1),
            gamma_code(n)[j - 1],
        );
        lemma_gamma_word_step(n, j - 1);
        assert(Seq::<int>::empty() + seq![n] =~= seq![n]);
        assert(Seq::<int>::empty() + Seq::<int>::empty() =~= Seq::<int>::empty());
    }
}

/// A complete codeword emits its number and returns the machine to the
/// initial state.
proof fn lemma_gamma_code_run(n: int)
    requires
        1 <= n,
    ensures
        machine_run(gamma_step_fn(), GammaState::Empty, gamma_code(n)).0 == GammaState::Empty,
        machine_run(gamma_step_fn(), GammaState::Empty, gamma_code(n)).1 == seq![n],
{
    lemma_gamma_code_len(n);
    lemma_gamma_run_prefix(n, 2 * bit_len(n) - 1);
    assert(gamma_code(n).take(2 * bit_len(n) - 1) =~= gamma_code(n));
}

/// Where the machine stands at position `i` of a codeword stream: the
/// numbers before codeword `m` are fully decoded, and the state is `j`
/// bits into codeword `m`.
spec fn gamma_at(ns: Seq<int>, i: int, m: int, j: int) -> bool {
    &&& 0 <= m < ns.len()
    &&& 0 <= j < 2 * bit_len(ns[m]) - 1
    &&& machine_run(
        gamma_step_fn(),
        GammaState::Empty,
        code_concat(gamma_code_fn(), ns).take(i),
    ).0 == gamma_word_state(ns[m], j)
    &&& machine_run(
        gamma_step_fn(),
        GammaState::Empty,
        code_concat(gamma_code_fn(), ns).take(i),
    ).1 == ns.take(m)
    &&& code_concat(gamma_code_fn(), ns)[i] == gamma_code(ns[m])[j]
}

/// Every prefix of a codeword stream leaves the machine mid-codeword (or
/// at rest at the very end), with exactly the earlier numbers emitted.
proof fn lemma_gamma_stream_state(ns: Seq<int>, i: int)
    requires
        all_positive(ns),
        0 <= i <= code_concat(gamma_code_fn(), ns).len(),
    ensures
        i < code_concat(gamma_code_fn(), ns).len() ==> exists|m: int, j: int|
            #[trigger] gamma_at(ns, i, m, j),
        i == code_concat(gamma_code_fn(), ns).len() ==> {
            &&& machine_run(
                gamma_step_fn(),
                GammaState::Empty,
                code_concat(gamma_code_fn(), ns).take(i),
            ).0 == GammaState::Empty
            &&& machine_run(
                gamma_step_fn(),
                GammaState::Empty,
                code_concat(gamma_code_fn(), ns).take(i),
            ).1 == ns
        },
    decreases ns.len(),
{
    let code = gamma_code_fn();
    let cc = code_concat(code, ns);
    if ns.len() == 0 {
        assert(cc.take(0) =~= Seq::<bool>::empty());
        assert(ns =~= Seq::<int>::empty());
    } else {
        let n0 = ns.first();
        let c0 = gamma_code(n0);
        let rest = ns.drop_first();
        let ccr = code_concat(code, rest);
        lemma_gamma_code_len(n0);
        assert(cc == c0 + ccr);
        if i < c0.len() {
            assert(cc.take(i) =~= c0.take(i));
            lemma_gamma_run_prefix(n0, i);
            assert(ns.take(0) =~= Seq::<int>::empty());
            assert(cc[i] == c0[i]);
            assert(gamma_at(ns, i, 0, i));
        } else {
            let i2 = i - c0.len();
            assert(cc.take(i) =~= c0 + ccr.take(i2));
            lemma_gamma_code_run(n0);
            lemma_run_append(gamma_step_fn(), GammaState::Empty, c0, ccr.take(i2));
            lemma_gamma_stream_state(rest, i2);
            if i2 < ccr.len() {
                let (m2, j2) = choose|m2: int, j2: int| #[trigger] gamma_at(rest, i2, m2, j2);
                assert(seq![n0] + rest.take(m2) =~= ns.take(m2 + 1));
                assert(cc[i] == ccr[i2]);
                assert(gamma_at(ns, i, m2 + 1, j2));
            } else {
                assert(seq![n0] + rest =~= ns);
            }
        }
    }
}

/// Gamma variant of elias encoder.
pub struct EliasGammaEncoder;

impl EliasGammaEncoder {
    /// Pushes the minimal binary form of `number` onto the group list.
    fn encode_number(number: usize, all_bits: &mut Vec<Bits>)
        ensures
            final(all_bits)@.len() == old(all_bits)@.len() + 1,
            forall|i: int|
                0 <= i < old(all_bits)@.len() ==> final(all_bits)@[i] == old(all_bits)@[i],
            final(all_bits)@.last().wf(),
            final(all_bits)@.last()@ == bin_bits(number as int),
    {
        let number_bits: Bits = from_usize(number);
        all_bits.push(number_bits);
    }

    /// Pushes `bit_len(number) - 1` zeros onto the group list.
    fn encode_zeros(number: usize, all_bits: &mut Vec<Bits>)
        ensures
            final(all_bits)@.len() == old(all_bits)@.len() + 1,
            forall|i: int|
                0 <= i < old(all_bits)@.len() ==> final(all_bits)@[i] == old(all_bits)@[i],
            final(all_bits)@.last().wf(),
            final(all_bits)@.last()@ == zero_bits((bit_len(number as int) - 1) as nat),
    {
        let mut last_bits = Bits::new();
        let count = get_usize_bit_len(number) - 1;
        proof {
            lemma_bit_len_usize(number);
        }
        let mut i: usize = 0;
        while i < count
            invariant
                last_bits.wf(),
                i <= count,
                count < usize::BITS,
                last_bits@ == zero_bits(i as nat),
            decreases count - i,
        {
            last_bits.push_bit(Bit::ZERO);
            proof {
                assert(last_bits@ =~= zero_bits((i + 1) as nat));
            }
            i = i + 1;
        }
        proof {
            assert(last_bits@ =~= zero_bits((bit_len(number as int) - 1) as nat));
        }
        all_bits.push(last_bits);
    }
}

impl NumberEncoder for EliasGammaEncoder {
    open spec fn spec_code(n: int) -> Seq<bool> {
        gamma_code(n)
    }

    open spec fn spec_encode_pre(ns: Seq<usize>) -> bool {
        &&& all_positive(as_ints(ns))
        &&& code_concat(gamma_code_fn(), as_ints(ns)).len() <= usize::MAX
    }

    proof fn lemma_encode_pre(ns: Seq<usize>) {
        let ints = as_ints(ns);
        assert forall|i: int| 0 <= i < ints.len() implies (#[trigger] gamma_code_fn()(
            ints[i],
        )).len() <= 255 by {
            lemma_gamma_code_len(ints[i]);
            lemma_bit_len_usize(ns[i]);
        }
        lemma_code_concat_len_bound(gamma_code_fn(), ints, 255);
        assert(ints.len() * 255 <= usize::MAX) by (nonlinear_arith)
            requires
                ints.len() <= usize::MAX / 256,
        ;
    }

    fn encode(numbers: &[usize]) -> (bits: Bits) {
        let ghost ints = as_ints(numbers@);
        let mut bits = Bits::new();
        let mut idx: usize = 0;
        proof {
            assert(ints.take(0) =~= Seq::<int>::empty());
        }
        while idx < numbers.len()
            invariant
                bits.wf(),
                idx <= numbers@.len(),
                ints == as_ints(numbers@),
                all_positive(ints),
                code_concat(gamma_code_fn(), ints).len() <= usize::MAX,
                bits@ == code_concat(gamma_code_fn(), ints.take(idx as int)),
            decreases numbers@.len() - idx,
        {
            let number = numbers[idx];
            proof {
                lemma_code_concat_push(gamma_code_fn(), ints.take(idx as int), number as int);
                assert(ints.take(idx as int).push(number as int) =~= ints.take(idx + 1));
                lemma_code_concat_split(gamma_code_fn(), ints, idx + 1);
                lemma_gamma_code_len(number as int);
                lemma_bin_bits_len(number as int);
            }
            if number == 1 {
                bits.push_bit(Bit::ONE);
                proof {
                    assert(gamma_code(1) =~= seq![true]);
                    assert(bits@ =~= code_concat(gamma_code_fn(), ints.take(idx + 1)));
                }
            } else {
                let mut all_bits: Vec<Bits> = Vec::new();
                EliasGammaEncoder::encode_number(number, &mut all_bits);
                EliasGammaEncoder::encode_zeros(number, &mut all_bits);
                bits.append_bits(&all_bits[1]);
                bits.append_bits(&all_bits[0]);
                proof {
                    assert(bits@ =~= code_concat(gamma_code_fn(), ints.take(idx + 1)));
                }
            }
            idx = idx + 1;
        }
        proof {
            assert(ints.take(numbers@.len() as int) =~= ints);
            assert((|n: int| Self::spec_code(n)) =~= gamma_code_fn());
        }
        bits
    }
}

/// State machine keeping track of elias gamma decoding state.
enum DecodingState {
    Empty,
    InsideNumber(Bits, usize),
    CountingZeros(usize),
}

impl DecodingState {
    /// The executable state as the specification's state.
    spec fn model(self) -> GammaState {
        match self {
            DecodingState::Empty => GammaState::Empty,
            DecodingState::CountingZeros(k) => GammaState::CountingZeros { zeros: k as int },
            DecodingState::InsideNumber(buf, remaining) => GammaState::InsideNumber {
                buf: buf@,
                remaining: remaining as int,
            },
        }
    }

    /// The buffer inside the state is well formed.
    spec fn wf(self) -> bool {
        match self {
            DecodingState::InsideNumber(buf, _) => buf.wf(),
            _ => true,
        }
    }
}

/// Gamma variant of elias decoder.
pub struct EliasGammaDecoder;

impl EliasGammaDecoder {
    /// A one bit at rest is the codeword of 1.
    fn decode_one(numbers: &mut Vec<usize>) -> (next: DecodingState)
        ensures
            final(numbers)@ == old(numbers)@.push(1usize),
            next.model() == GammaState::Empty,
            next.wf(),
    {
        numbers.push(1);
        DecodingState::Empty
    }

    /// A zero bit at rest starts the zero count.
    fn start_counting_zeros() -> (next: DecodingState)
        ensures
            next.model() == (GammaState::CountingZeros { zeros: 1int }),
            next.wf(),
    {
        DecodingState::CountingZeros(1)
    }

    /// One more leading zero.
    fn count_zero(n: usize) -> (next: DecodingState)
        requires
            n < usize::MAX,
        ensures
            next.model() == (GammaState::CountingZeros { zeros: n + 1int }),
            next.wf(),
    {
        DecodingState::CountingZeros(n + 1)
    }

    /// The first one bit after `n` zeros: `n` more bits of payload follow.
    fn end_counting_zeros(n: usize) -> (next: DecodingState)
        ensures
            next.model() == (GammaState::InsideNumber { buf: seq![true], remaining: n as int }),
            next.wf(),
    {
        let one = from_usize(1);
        proof {
            assert(bin_bits(1) =~= seq![true]);
        }
        DecodingState::InsideNumber(one, n)
    }

    /// One payload bit: extend the buffer, and emit the number once the
    /// buffer is complete.
    fn get_number_bit(bits: Bits, len: usize, bit: Bit, numbers: &mut Vec<usize>) -> (next:
        DecodingState)
        requires
            bits.wf(),
            bits@.len() < usize::MAX,
            len >= 1,
            len == 1 ==> bits_to_nat(bits@.push(bit.as_bool())) <= usize::MAX,
        ensures
            next.wf(),
            next.model() == gamma_step(
                GammaState::InsideNumber { buf: bits@, remaining: len as int },
                bit.as_bool(),
            ).0,
            as_ints(final(numbers)@) == as_ints(old(numbers)@) + gamma_step(
                GammaState::InsideNumber { buf: bits@, remaining: len as int },
                bit.as_bool(),
            ).1,
    {
        let mut bits = bits;
        bits.push_bit(bit);
        if len == 1 {
            let number = bits.to_usize();
            numbers.push(number);
            proof {
                assert(as_ints(numbers@) =~= as_ints(old(numbers)@) + seq![number as int]);
            }
            DecodingState::Empty
        } else {
            proof {
                assert(as_ints(numbers@) =~= as_ints(old(numbers)@) + Seq::<int>::empty());
            }
            DecodingState::InsideNumber(bits, len - 1)
        }
    }
}

impl NumberDecoder for EliasGammaDecoder {
    open spec fn spec_code(n: int) -> Seq<bool> {
        gamma_code(n)
    }

    open spec fn spec_decode(bits: Seq<bool>) -> Seq<int> {
        gamma_decode(bits)
    }

    proof fn lemma_code_resets(n: int, tail: Seq<bool>) {
        lemma_run_append(gamma_step_fn(), GammaState::Empty, gamma_code(n), tail);
        lemma_gamma_code_run(n);
    }

    proof fn lemma_decode_empty() {
    }

    fn decode(bits: &Bits) -> (numbers: Vec<usize>) {
        proof {
            assert((|n: int| Self::spec_code(n)) =~= gamma_code_fn());
        }
        let ghost ns: Seq<usize> = choose|ns: Seq<usize>|
            all_positive(as_ints(ns)) && bits@ == code_concat(gamma_code_fn(), as_ints(ns));
        let n = bits.len();
        let mut numbers: Vec<usize> = Vec::new();
        let mut decoding_state = DecodingState::Empty;
        let mut i: usize = 0;
        proof {
            assert(bits@.take(0) =~= Seq::<bool>::empty());
            assert(as_ints(numbers@) =~= Seq::<int>::empty());
        }
        while i < n
            invariant
                bits.wf(),
                i <= n == bits@.len(),
                all_positive(as_ints(ns)),
                bits@ == code_concat(gamma_code_fn(), as_ints(ns)),
                decoding_state.wf(),
                decoding_state.model() == machine_run(
                    gamma_step_fn(),
                    GammaState::Empty,
                    bits@.take(i as int),
                ).0,
                as_ints(numbers@) == machine_run(
                    gamma_step_fn(),
                    GammaState::Empty,
                    bits@.take(i as int),
                ).1,
            decreases n - i,
        {
            let ghost ints = as_ints(ns);
            let ghost st0 = decoding_state.model();
            proof {
                lemma_gamma_stream_state(ints, i as int);
                lemma_run_snoc(gamma_step_fn(), GammaState::Empty, bits@.take(i as int), bits@[i as int]);
                assert(bits@.take(i as int).push(bits@[i as int]) =~= bits@.take(i + 1));
            }
            let ghost pos = choose|m: int, j: int| #[trigger] gamma_at(ints, i as int, m, j);
            proof {
                let (m, j) = pos;
                assert(gamma_at(ints, i as int, m, j));
                lemma_bit_len_usize(ns[m]);
                lemma_bin_bits_len(ints[m]);
                lemma_bin_bits_value(ints[m]);
                let l = bit_len(ints[m]) as int;
                if j == 2 * l - 2 && j >= l - 1 && st0 is InsideNumber {
                    assert(bin_bits(ints[m]).take(l - 1).push(bits@[i as int]) =~= bin_bits(
                        ints[m],
                    ));
                }
                assert(bits_to_nat(bin_bits(ints[m])) == ints[m]);
            }
            let bit = bits.get_bit(i);
            decoding_state = match (decoding_state, bit) {
                (DecodingState::Empty, Bit::ONE) => {
                    proof {
                        assert(as_ints(numbers@.push(1usize)) =~= as_ints(numbers@) + seq![1int]);
                    }
                    EliasGammaDecoder::decode_one(&mut numbers)
                },
                (DecodingState::Empty, Bit::ZERO) => EliasGammaDecoder::start_counting_zeros(),
                (DecodingState::CountingZeros(k), Bit::ZERO) => EliasGammaDecoder::count_zero(k),
                (DecodingState::CountingZeros(k), Bit::ONE) => EliasGammaDecoder::end_counting_zeros(
                    k,
                ),
                (DecodingState::InsideNumber(buf, len), bit) => EliasGammaDecoder::get_number_bit(
                    buf,
                    len,
                    bit,
                    &mut numbers,
                ),
            };
            proof {
                assert(machine_run(gamma_step_fn(), GammaState::Empty, bits@.take(i + 1)).1
                    =~= machine_run(gamma_step_fn(), GammaState::Empty, bits@.take(i as int)).1
                    + gamma_step(st0, bits@[i as int]).1);
            }
            i = i + 1;
        }
        proof {
            assert(bits@.take(n as int) =~= bits@);
        }
        numbers
    }
}

} // verus!
