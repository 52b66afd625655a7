//! Traits for numbers encoding and decoding, together with the shared
//! specification machinery: codeword concatenation, the generic bit-driven
//! state machine runner, and the round-trip laws every decoder obeys.

pub mod delta;
pub mod fibbonaci;
pub mod gamma;
pub mod omega;

use vstd::prelude::*;

verus! {

use crate::bits::Bits;

/// A sequence of `usize` values as mathematical integers.
pub open spec fn as_ints(ns: Seq<usize>) -> Seq<int> {
    ns.map_values(|n: usize| n as int)
}

/// Every element of the sequence is at least one.
pub open spec fn all_positive(ns: Seq<int>) -> bool {
    forall|i: int| 0 <= i < ns.len() ==> ns[i] >= 1
}

/// `k` zero bits.
pub open spec fn zero_bits(k: nat) -> Seq<bool> {
    Seq::new(k, |i: int| false)
}

/// The concatenation of the codewords of `ns` under the codeword
/// function `code`.
pub open spec fn code_concat(code: spec_fn(int) -> Seq<bool>, ns: Seq<int>) -> Seq<bool>
    decreases ns.len(),
{
    if ns.len() == 0 {
        Seq::empty()
    } else {
        code(ns.first()) + code_concat(code, ns.drop_first())
    }
}

/// Extending the number sequence appends that number's codeword.
pub proof fn lemma_code_concat_push(code: spec_fn(int) -> Seq<bool>, ns: Seq<int>, n: int)
    ensures
        code_concat(code, ns.push(n)) == code_concat(code, ns) + code(n),
    decreases ns.len(),
{
    if ns.len() == 0 {
        assert(ns.push(n).drop_first() =~= Seq::<int>::empty());
        assert(ns.push(n).first() == n);
        assert(code_concat(code, ns.push(n).drop_first()) =~= Seq::<bool>::empty());
        assert(code_concat(code, ns.push(n)) =~= code(n));
        assert(code_concat(code, ns) + code(n) =~= code(n));
    } else {
        lemma_code_concat_push(code, ns.drop_first(), n);
        assert(ns.push(n).drop_first() =~= ns.drop_first().push(n));
        assert(code(ns.first()) + (code_concat(code, ns.drop_first()) + code(n)) =~= (code(
            ns.first(),
        ) + code_concat(code, ns.drop_first())) + code(n));
    }
}

/// A codeword stream splits at any number boundary.
pub proof fn lemma_code_concat_split(code: spec_fn(int) -> Seq<bool>, ns: Seq<int>, i: int)
    requires
        0 <= i <= ns.len(),
    ensures
        code_concat(code, ns) == code_concat(code, ns.take(i)) + code_concat(code, ns.skip(i)),
    decreases i,
{
    if i == 0 {
        assert(ns.take(0) =~= Seq::<int>::empty());
        assert(ns.skip(0) =~= ns);
        assert(code_concat(code, ns.take(0)) + code_concat(code, ns) =~= code_concat(code, ns));
    } else {
        assert(ns.take(i).first() == ns.first());
        assert(ns.take(i).drop_first() =~= ns.drop_first().take(i - 1));
        assert(ns.skip(i) =~= ns.drop_first().skip(i - 1));
        lemma_code_concat_split(code, ns.drop_first(), i - 1);
        assert((code(ns.first()) + code_concat(code, ns.drop_first().take(i - 1))) + code_concat(
            code,
            ns.drop_first().skip(i - 1),
        ) =~= code(ns.first()) + (code_concat(code, ns.drop_first().take(i - 1)) + code_concat(
            code,
            ns.drop_first().skip(i - 1),
        )));
    }
}

/// A bound on every codeword bounds the length of the whole stream.
pub proof fn lemma_code_concat_len_bound(code: spec_fn(int) -> Seq<bool>, ns: Seq<int>, b: nat)
    requires
        forall|i: int| 0 <= i < ns.len() ==> (#[trigger] code(ns[i])).len() <= b,
    ensures
        code_concat(code, ns).len() <= ns.len() * b,
    decreases ns.len(),
{
    if ns.len() == 0 {
    } else {
        assert(forall|i: int|
            0 <= i < ns.drop_first().len() ==> (#[trigger] code(ns.drop_first()[i])).len() <= b);
        lemma_code_concat_len_bound(code, ns.drop_first(), b);
        assert(code(ns.first()).len() <= b);
        assert((ns.len() - 1) * b + b == ns.len() * b) by (nonlinear_arith);
    }
}

/// A bit stream the decoders accept: the concatenation of the codewords of
/// some sequence of positive machine-representable numbers.
pub open spec fn valid_stream(code: spec_fn(int) -> Seq<bool>, bits: Seq<bool>) -> bool {
    exists|ns: Seq<usize>|
        all_positive(as_ints(ns)) && bits == code_concat(code, as_ints(ns))
}

/// Runs a decoding state machine over `bits`, one transition per bit,
/// collecting everything the transitions emit.
pub open spec fn machine_run<St>(
    step: spec_fn(St, bool) -> (St, Seq<int>),
    st: St,
    bits: Seq<bool>,
) -> (St, Seq<int>)
    decreases bits.len(),
{
    if bits.len() == 0 {
        (st, Seq::empty())
    } else {
        let first = step(st, bits.first());
        let rest = machine_run(step, first.0, bits.drop_first());
        (rest.0, first.1 + rest.1)
    }
}

/// Running over a concatenation is running over the parts in order.
pub proof fn lemma_run_append<St>(
    step: spec_fn(St, bool) -> (St, Seq<int>),
    st: St,
    a: Seq<bool>,
    b: Seq<bool>,
)
    ensures
        machine_run(step, st, a + b).0 == machine_run(step, machine_run(step, st, a).0, b).0,
        machine_run(step, st, a + b).1 == machine_run(step, st, a).1 + machine_run(
            step,
            machine_run(step, st, a).0,
            b,
        ).1,
    decreases a.len(),
{
    if a.len() == 0 {
        assert(a + b =~= b);
        assert(machine_run(step, st, a).1 + machine_run(step, st, b).1 =~= machine_run(
            step,
            st,
            b,
        ).1);
    } else {
        let first = step(st, a.first());
        assert((a + b).first() == a.first());
        assert((a + b).drop_first() =~= a.drop_first() + b);
        lemma_run_append(step, first.0, a.drop_first(), b);
        let mid = machine_run(step, first.0, a.drop_first());
        assert(first.1 + (mid.1 + machine_run(step, machine_run(step, st, a).0, b).1) =~= (first.1
            + mid.1) + machine_run(step, machine_run(step, st, a).0, b).1);
    }
}

/// Running over one more bit is one more transition.
pub proof fn lemma_run_snoc<St>(
    step: spec_fn(St, bool) -> (St, Seq<int>),
    st: St,
    s: Seq<bool>,
    b: bool,
)
    ensures
        machine_run(step, st, s.push(b)).0 == step(machine_run(step, st, s).0, b).0,
        machine_run(step, st, s.push(b)).1 == machine_run(step, st, s).1 + step(
            machine_run(step, st, s).0,
            b,
        ).1,
{
    assert(s.push(b) =~= s + seq![b]);
    lemma_run_append(step, st, s, seq![b]);
    let st1 = machine_run(step, st, s).0;
    assert(machine_run(step, st1, seq![b]).0 == step(st1, b).0 && machine_run(
        step,
        st1,
        seq![b],
    ).1 == step(st1, b).1) by {
        assert(seq![b].first() == b);
        assert(seq![b].drop_first() =~= Seq::<bool>::empty());
        assert(machine_run(step, step(st1, b).0, seq![b].drop_first()).1 =~= Seq::<int>::empty());
        assert(step(st1, b).1 + Seq::<int>::empty() =~= step(st1, b).1);
    }
}

/// Trait used for encoding `usize` numbers into a self-delimiting
/// bit stream.
pub trait NumberEncoder: Sized {
    /// The codeword of one positive integer.
    spec fn spec_code(n: int) -> Seq<bool>;

    /// The inputs the executable encoder accepts: positive numbers, far
    /// enough below the machine word limit for the variant's arithmetic.
    spec fn spec_encode_pre(ns: Seq<usize>) -> bool;

    /// Positive numbers in the lower quarter of the machine range are
    /// always accepted, as long as there are few enough of them for the
    /// output bit stream to be addressable.
    proof fn lemma_encode_pre(ns: Seq<usize>)
        requires
            forall|i: int| 0 <= i < ns.len() ==> 1 <= #[trigger] ns[i] <= usize::MAX / 4,
            ns.len() <= usize::MAX / 256,
        ensures
            Self::spec_encode_pre(ns),
    ;

    /// Encodes the numbers as the concatenation of their codewords.
    fn encode(numbers: &[usize]) -> (bits: Bits)
        requires
            Self::spec_encode_pre(numbers@),
        ensures
            bits.wf(),
            bits@ == code_concat(|n: int| Self::spec_code(n), as_ints(numbers@)),
    ;
}

/// Trait used for decoding `usize` numbers from a self-delimiting
/// bit stream.
pub trait NumberDecoder: Sized {
    /// The codeword function this decoder inverts.
    spec fn spec_code(n: int) -> Seq<bool>;

    /// What the streaming state machine yields on an arbitrary bit stream,
    /// starting from its initial state.
    spec fn spec_decode(bits: Seq<bool>) -> Seq<int>;

    /// Law: a codeword followed by any tail decodes to its number followed
    /// by whatever the tail decodes to; the machine returns to its initial
    /// state after every complete codeword.
    proof fn lemma_code_resets(n: int, tail: Seq<bool>)
        requires
            n >= 1,
        ensures
            Self::spec_decode(Self::spec_code(n) + tail) == seq![n] + Self::spec_decode(tail),
    ;

    /// Decoding the empty stream yields nothing.
    proof fn lemma_decode_empty()
        ensures
            Self::spec_decode(Seq::empty()) == Seq::<int>::empty(),
    ;

    /// Decodes a well-formed stream of codewords back into the numbers.
    fn decode(bits: &Bits) -> (numbers: Vec<usize>)
        requires
            bits.wf(),
            valid_stream(|n: int| Self::spec_code(n), bits@),
        ensures
            as_ints(numbers@) == Self::spec_decode(bits@),
    ;
}

/// Law: decoding a codeword stream prepended to any tail yields the encoded
/// numbers followed by whatever the tail decodes to, for every decoder.
pub proof fn lemma_decode_prepend<D: NumberDecoder>(ns: Seq<int>, tail: Seq<bool>)
    requires
        all_positive(ns),
    ensures
        D::spec_decode(code_concat(|n: int| D::spec_code(n), ns) + tail) == ns + D::spec_decode(
            tail,
        ),
    decreases ns.len(),
{
    let code = |n: int| D::spec_code(n);
    if ns.len() == 0 {
        assert(code_concat(code, ns) + tail =~= tail);
        assert(ns + D::spec_decode(tail) =~= D::spec_decode(tail));
    } else {
        assert(code_concat(code, ns) + tail =~= code(ns.first()) + (code_concat(
            code,
            ns.drop_first(),
        ) + tail));
        D::lemma_code_resets(ns.first(), code_concat(code, ns.drop_first()) + tail);
        lemma_decode_prepend::<D>(ns.drop_first(), tail);
        assert(seq![ns.first()] + (ns.drop_first() + D::spec_decode(tail)) =~= ns
            + D::spec_decode(tail));
    }
}

/// Law: decoding inverts encoding. For every sequence of positive integers,
/// decoding the concatenation of its codewords yields the sequence back.
pub proof fn lemma_decode_encode<D: NumberDecoder>(ns: Seq<int>)
    requires
        all_positive(ns),
    ensures
        D::spec_decode(code_concat(|n: int| D::spec_code(n), ns)) == ns,
{
    let code = |n: int| D::spec_code(n);
    lemma_decode_prepend::<D>(ns, Seq::empty());
    D::lemma_decode_empty();
    assert(code_concat(code, ns) + Seq::<bool>::empty() =~= code_concat(code, ns));
    assert(ns + Seq::<int>::empty() =~= ns);
}

/// Law: the codes are concatenable. Decoding the concatenation of two
/// encoded sequences yields the concatenation of the sequences.
pub proof fn lemma_decode_concat<D: NumberDecoder>(a: Seq<int>, b: Seq<int>)
    requires
        all_positive(a),
        all_positive(b),
    ensures
        D::spec_decode(
            code_concat(|n: int| D::spec_code(n), a) + code_concat(|n: int| D::spec_code(n), b),
        ) == a + b,
{
    lemma_decode_prepend::<D>(a, code_concat(|n: int| D::spec_code(n), b));
    lemma_decode_encode::<D>(b);
}

} // verus!
