//! Things for implementing fibbonaci encoding and decoding.

use vstd::prelude::*;

verus! {

use crate::bits::{
    bit_len, lemma_bit_len_bounds, lemma_bit_len_usize, Bit, Bits,
};
use crate::number_encoders::{
    all_positive, as_ints, code_concat, lemma_code_concat_len_bound, lemma_code_concat_push,
    lemma_code_concat_split, lemma_run_append, lemma_run_snoc, machine_run,
    zero_bits, NumberDecoder, NumberEncoder,
};
use vstd::arithmetic::power2::pow2;

/// The Fibonacci numbers used by the coder, indexed from zero:
/// 1, 2, 3, 5, 8, ...
pub open spec fn fib0(i: int) -> nat
    decreases i,
{
    if i <= 0 {
        1
    } else if i == 1 {
        2
    } else {
        fib0(i - 2) + fib0(i - 1)
    }
}

/// The table strictly increases from index zero on.
pub proof fn lemma_fib0_increasing(i: int)
    requires
        i >= 0,
    ensures
        fib0(i) < fib0(i + 1),
    decreases i,
{
    if i > 0 {
        lemma_fib0_increasing(i - 1);
        lemma_fib0_pos(i - 1);
    }
}

/// Monotonicity of the table.
pub proof fn lemma_fib0_monotone(i: int, j: int)
    requires
        0 <= i <= j,
    ensures
        fib0(i) <= fib0(j),
    decreases j - i,
{
    if i < j {
        lemma_fib0_increasing(i);
        lemma_fib0_monotone(i + 1, j);
    }
}

/// Every table entry is positive.
pub proof fn lemma_fib0_pos(i: int)
    ensures
        fib0(i) >= 1,
    decreases i,
{
    if i >= 2 {
        lemma_fib0_pos(i - 1);
    }
}

/// The table grows at least as fast as the index.
pub proof fn lemma_fib0_lower(i: int)
    requires
        i >= 0,
    ensures
        fib0(i) >= i + 1,
    decreases i,
{
    if i >= 2 {
        lemma_fib0_lower(i - 1);
        lemma_fib0_pos(i - 2);
    }
}

/// The smallest index at or above `i` whose Fibonacci number exceeds `n`.
pub open spec fn fib_search(n: int, i: int) -> int
    decreases (if fib0(i) > n {
        0int
    } else {
        n + 1 - fib0(i)
    }), (if i < 1 {
        1 - i
    } else {
        0int
    }),
{
    if fib0(i) > n {
        i
    } else {
        proof {
            if i >= 0 {
                lemma_fib0_increasing(i);
            }
        }
        fib_search(n, i + 1)
    }
}

/// The smallest index `i >= 1` with `fib0(i) > n`.
pub open spec fn fib_index(n: int) -> int {
    fib_search(n, 1)
}

/// What `fib_search` returns: the least index from `i` up whose value
/// exceeds `n`.
proof fn lemma_fib_search_props(n: int, i: int)
    ensures
        fib_search(n, i) >= i,
        fib0(fib_search(n, i)) > n,
        forall|j: int| i <= j < fib_search(n, i) ==> fib0(j) <= n,
    decreases (if fib0(i) > n {
        0int
    } else {
        n + 1 - fib0(i)
    }), (if i < 1 {
        1 - i
    } else {
        0int
    }),
{
    if fib0(i) > n {
    } else {
        if i >= 0 {
            lemma_fib0_increasing(i);
        }
        lemma_fib_search_props(n, i + 1);
    }
}

/// The least-index properties of `fib_index`.
pub proof fn lemma_fib_index_props(n: int)
    ensures
        fib_index(n) >= 1,
        fib0(fib_index(n)) > n,
        forall|j: int| 1 <= j < fib_index(n) ==> fib0(j) <= n,
{
    lemma_fib_search_props(n, 1);
}

/// Skipping two indices at least doubles the Fibonacci number.
proof fn lemma_fib0_doubling(k: int)
    requires
        k >= 0,
    ensures
        fib0(2 * k) >= pow2(k as nat),
    decreases k,
{
    if k == 0 {
        assert(pow2(0) == 1) by {
            vstd::arithmetic::power2::lemma2_to64();
        }
    } else {
        lemma_fib0_doubling(k - 1);
        vstd::arithmetic::power2::lemma_pow2_unfold(k as nat);
        lemma_fib0_monotone(2 * k - 2, 2 * k - 1);
        assert(fib0(2 * k) == fib0(2 * k - 2) + fib0(2 * k - 1));
    }
}

/// The codeword index of a machine-size number is small.
pub proof fn lemma_fib_index_bound(n: int)
    requires
        1 <= n,
    ensures
        fib_index(n) <= 2 * bit_len(n),
{
    let l = bit_len(n) as int;
    lemma_fib0_doubling(l);
    lemma_bit_len_bounds(n);
    lemma_fib_index_props(n);
    if fib_index(n) > 2 * l {
        assert(fib0(2 * l) <= n);
        assert(fib0(2 * l) >= pow2(l as nat));
    }
}

/// The greedy Zeckendorf bits of `n` over positions `0 .. i`, highest
/// position chosen first.
pub open spec fn zeck_bits(n: int, i: int) -> Seq<bool>
    decreases i,
{
    if i <= 0 {
        Seq::empty()
    } else {
        let taken = fib0(i - 1) <= n;
        let rest = if taken {
            n - fib0(i - 1)
        } else {
            n
        };
        zeck_bits(rest, i - 1).push(taken)
    }
}

/// The Fibonacci value of a bit sequence: the sum of `fib0(j)` over its
/// set positions `j`.
pub open spec fn fib_sum(c: Seq<bool>) -> int
    decreases c.len(),
{
    if c.len() == 0 {
        0
    } else {
        fib_sum(c.drop_last()) + if c.last() {
            fib0(c.len() - 1) as int
        } else {
            0
        }
    }
}

/// The Fibonacci codeword of `n >= 1`: its Zeckendorf bits up to the first
/// index whose Fibonacci number exceeds `n`, then a terminating one, which
/// forms the only adjacent pair of ones.
pub open spec fn fib_code(n: int) -> Seq<bool> {
    zeck_bits(n, fib_index(n)).push(true)
}

/// The fibbonaci codeword function as a value.
pub open spec fn fib_code_fn() -> spec_fn(int) -> Seq<bool> {
    |n: int| fib_code(n)
}

/// The greedy choice is exact, keeps the remainder below every remaining
/// Fibonacci number, and never picks two adjacent positions.
proof fn lemma_zeck(n: int, i: int)
    requires
        0 <= n < fib0(i),
        i >= 0,
    ensures
        zeck_bits(n, i).len() == i,
        fib_sum(zeck_bits(n, i)) == n,
        forall|j: int| 1 <= j < i ==> !((#[trigger] zeck_bits(n, i)[j]) && zeck_bits(n, i)[j - 1]),
        i >= 1 ==> zeck_bits(n, i)[i - 1] == (fib0(i - 1) <= n),
    decreases i,
{
    if i > 0 {
        let c = zeck_bits(n, i);
        let taken = fib0(i - 1) <= n;
        let rest = if taken {
            n - fib0(i - 1)
        } else {
            n
        };
        assert(rest < fib0(i - 1)) by {
            if taken {
                if i >= 2 {
                    lemma_fib0_monotone(i - 2, i - 1);
                    assert(fib0(i) == fib0(i - 2) + fib0(i - 1));
                }
            }
        }
        lemma_zeck(rest, i - 1);
        assert(c.drop_last() =~= zeck_bits(rest, i - 1));
        assert forall|j: int| 1 <= j < i implies !((#[trigger] c[j]) && c[j - 1]) by {
            if j == i - 1 && i >= 2 {
                if taken && c[i - 2] {
                    assert(zeck_bits(rest, i - 1)[i - 2] == (fib0(i - 2) <= rest));
                    assert(rest < fib0(i - 2)) by {
                        lemma_fib0_monotone(i - 2, i - 1);
                        assert(fib0(i) == fib0(i - 2) + fib0(i - 1));
                    }
                }
            } else if j < i - 1 {
                assert(!((zeck_bits(rest, i - 1)[j]) && zeck_bits(rest, i - 1)[j - 1]));
            }
        }
    }
}

/// The Zeckendorf bits of zero are all zero.
proof fn lemma_zeck_zero(i: int)
    requires
        i >= 0,
    ensures
        zeck_bits(0, i) =~= zero_bits(i as nat),
    decreases i,
{
    if i > 0 {
        lemma_fib0_pos(i - 1);
        lemma_zeck_zero(i - 1);
        assert(fib0(i - 1) > 0);
    }
}

/// A prefix of the Zeckendorf sum never exceeds the whole.
proof fn lemma_fib_sum_prefix(c: Seq<bool>, j: int)
    requires
        0 <= j <= c.len(),
    ensures
        0 <= fib_sum(c.take(j)) <= fib_sum(c),
        fib_sum(c) >= 0,
    decreases c.len(),
{
    if c.len() == 0 {
        assert(c.take(j) =~= c);
    } else if j == c.len() {
        assert(c.take(j) =~= c);
        lemma_fib_sum_prefix(c.drop_last(), c.len() - 1);
        assert(c.drop_last().take(c.len() - 1) =~= c.drop_last());
    } else {
        lemma_fib_sum_prefix(c.drop_last(), j);
        assert(c.take(j) =~= c.drop_last().take(j));
    }
}

/// State of the fibbonaci decoder between two bits.
pub enum FibState {
    Empty,
    InsideNumber { acc: int, index: int, prev_one: bool },
}

/// One transition of the fibbonaci decoder.
pub open spec fn fib_step(st: FibState, b: bool) -> (FibState, Seq<int>) {
    match st {
        FibState::Empty => if b {
            (FibState::InsideNumber { acc: 1, index: 1, prev_one: true }, Seq::<int>::empty())
        } else {
            (FibState::InsideNumber { acc: 0, index: 1, prev_one: false }, Seq::<int>::empty())
        },
        FibState::InsideNumber { acc, index, prev_one } => if prev_one && b {
            (FibState::Empty, seq![acc])
        } else if b {
            (
                FibState::InsideNumber {
                    acc: acc + fib0(index),
                    index: index + 1,
                    prev_one: true,
                },
                Seq::<int>::empty(),
            )
        } else {
            (
                FibState::InsideNumber { acc, index: index + 1, prev_one: false },
                Seq::<int>::empty(),
            )
        },
    }
}

/// The fibbonaci transition as a value.
pub open spec fn fib_step_fn() -> spec_fn(FibState, bool) -> (FibState, Seq<int>) {
    |st: FibState, b: bool| fib_step(st, b)
}

/// Everything the fibbonaci state machine emits on `bits`, starting from
/// the initial state.
pub open spec fn fib_decode(bits: Seq<bool>) -> Seq<int> {
    machine_run(fib_step_fn(), FibState::Empty, bits).1
}

/// The decoder state after the first `j` bits of `fib_code(n)`.
spec fn fib_word_state(n: int, j: int) -> FibState {
    let c = zeck_bits(n, fib_index(n));
    if j == 0 {
        FibState::Empty
    } else {
        FibState::InsideNumber { acc: fib_sum(c.take(j)), index: j, prev_one: c[j - 1] }
    }
}

/// One transition inside a fibbonaci codeword moves to the next word
/// state, emitting the number exactly on the terminating one.
proof fn lemma_fib_word_step(n: int, j: int)
    requires
        1 <= n,
        0 <= j <= fib_index(n),
    ensures
        j < fib_index(n) ==> {
            &&& fib_step(fib_word_state(n, j), fib_code(n)[j]).0 == fib_word_state(n, j + 1)
            &&& fib_step(fib_word_state(n, j), fib_code(n)[j]).1 == Seq::<int>::empty()
        },
        j == fib_index(n) ==> {
            &&& fib_step(fib_word_state(n, j), fib_code(n)[j]).0 == FibState::Empty
            &&& fib_step(fib_word_state(n, j), fib_code(n)[j]).1 == seq![n]
        },
{
    let l = fib_index(n);
    lemma_fib_index_props(n);
    lemma_zeck(n, l);
    let c = zeck_bits(n, l);
    assert(fib_code(n).len() == l + 1);
    if j < l {
        assert(fib_code(n)[j] == c[j]);
        assert(c.take(j).push(c[j]) =~= c.take(j + 1));
        if j >= 1 {
            assert(!(c[j - 1] && c[j]));
            if c[j] {
                assert(fib_sum(c.take(j + 1)) == fib_sum(c.take(j)) + fib0(j)) by {
                    assert(c.take(j + 1).drop_last() =~= c.take(j));
                }
            } else {
                assert(fib_sum(c.take(j + 1)) == fib_sum(c.take(j))) by {
                    assert(c.take(j + 1).drop_last() =~= c.take(j));
                }
            }
        } else {
            assert(c.take(1).drop_last() =~= Seq::<bool>::empty());
            assert(fib_sum(Seq::<bool>::empty()) == 0);
            assert(fib_sum(c.take(1)) == if c[0] {
                1int
            } else {
                0int
            });
        }
    } else {
        assert(fib_code(n)[l] == true);
        assert(c[l - 1] == (fib0(l - 1) <= n));
        assert(fib0(l - 1) <= n) by {
            if l == 1 {
            }
        }
        assert(c.take(l) =~= c);
        assert(fib_sum(c) == n);
    }
}

/// Running the machine over a prefix of one codeword, from the initial
/// state: no emissions until the final bit, which emits the number.
proof fn lemma_fib_run_prefix(n: int, j: int)
    requires
        1 <= n,
        0 <= j <= fib_index(n) + 1,
    ensures
        j < fib_index(n) + 1 ==> {
            &&& machine_run(fib_step_fn(), FibState::Empty, fib_code(n).take(j)).0
                == fib_word_state(n, j)
            &&& machine_run(fib_step_fn(), FibState::Empty, fib_code(n).take(j)).1
                == Seq::<int>::empty()
        },
        j == fib_index(n) + 1 ==> {
            &&& machine_run(fib_step_fn(), FibState::Empty, fib_code(n).take(j)).0
                == FibState::Empty
            &&& machine_run(fib_step_fn(), FibState::Empty, fib_code(n).take(j)).1 == seq![n]
        },
    decreases j,
{
    lemma_fib_index_props(n);
    lemma_zeck(n, fib_index(n));
    assert(fib_code(n).len() == fib_index(n) + 1);
    if j == 0 {
        assert(fib_code(n).take(0) =~= Seq::<bool>::empty());
    } else {
        lemma_fib_run_prefix(n, j - 1);
        assert(fib_code(n).take(j) =~= fib_code(n).take(j - 1).push(fib_code(n)[j - 1]));
        lemma_run_snoc(
            fib_step_fn(),
            FibState::Empty,
            fib_code(n).take(j - 1),
            fib_code(n)[j - 1],
        );
        lemma_fib_word_step(n, j - 1);
        assert(Seq::<int>::empty() + seq![n] =~= seq![n]);
        assert(Seq::<int>::empty() + Seq::<int>::empty() =~= Seq::<int>::empty());
    }
}

/// A complete codeword emits its number and returns the machine to the
/// initial state.
proof fn lemma_fib_code_run(n: int)
    requires
        1 <= n,
    ensures
        machine_run(fib_step_fn(), FibState::Empty, fib_code(n)).0 == FibState::Empty,
        machine_run(fib_step_fn(), FibState::Empty, fib_code(n)).1 == seq![n],
{
    lemma_fib_index_props(n);
    lemma_zeck(n, fib_index(n));
    lemma_fib_run_prefix(n, fib_index(n) + 1);
    assert(fib_code(n).take(fib_index(n) + 1) =~= fib_code(n));
}

/// Where the machine stands at position `i` of a codeword stream: the
/// numbers before codeword `m` are fully decoded, and the state is `j`
/// bits into codeword `m`.
spec fn fib_at(ns: Seq<int>, i: int, m: int, j: int) -> bool {
    &&& 0 <= m < ns.len()
    &&& 0 <= j < fib_index(ns[m]) + 1
    &&& machine_run(
        fib_step_fn(),
        FibState::Empty,
        code_concat(fib_code_fn(), ns).take(i),
    ).0 == fib_word_state(ns[m], j)
    &&& machine_run(
        fib_step_fn(),
        FibState::Empty,
        code_concat(fib_code_fn(), ns).take(i),
    ).1 == ns.take(m)
    &&& code_concat(fib_code_fn(), ns)[i] == fib_code(ns[m])[j]
}

/// Every prefix of a codeword stream leaves the machine mid-codeword (or
/// at rest at the very end), with exactly the earlier numbers emitted.
proof fn lemma_fib_stream_state(ns: Seq<int>, i: int)
    requires
        all_positive(ns),
        0 <= i <= code_concat(fib_code_fn(), ns).len(),
    ensures
        i < code_concat(fib_code_fn(), ns).len() ==> exists|m: int, j: int|
            #[trigger] fib_at(ns, i, m, j),
        i == code_concat(fib_code_fn(), ns).len() ==> {
            &&& machine_run(
                fib_step_fn(),
                FibState::Empty,
                code_concat(fib_code_fn(), ns).take(i),
            ).0 == FibState::Empty
            &&& machine_run(
                fib_step_fn(),
                FibState::Empty,
                code_concat(fib_code_fn(), ns).take(i),
            ).1 == ns
        },
    decreases ns.len(),
{
    let code = fib_code_fn();
    let cc = code_concat(code, ns);
    if ns.len() == 0 {
        assert(cc.take(0) =~= Seq::<bool>::empty());
        assert(ns =~= Seq::<int>::empty());
    } else {
        let n0 = ns.first();
        let c0 = fib_code(n0);
        let rest = ns.drop_first();
        let ccr = code_concat(code, rest);
        lemma_fib_index_props(n0);
        lemma_zeck(n0, fib_index(n0));
        assert(cc == c0 + ccr);
        if i < c0.len() {
            assert(cc.take(i) =~= c0.take(i));
            lemma_fib_run_prefix(n0, i);
            assert(ns.take(0) =~= Seq::<int>::empty());
            assert(cc[i] == c0[i]);
            assert(fib_at(ns, i, 0, i));
        } else {
            let i2 = i - c0.len();
            assert(cc.take(i) =~= c0 + ccr.take(i2));
            lemma_fib_code_run(n0);
            lemma_run_append(fib_step_fn(), FibState::Empty, c0, ccr.take(i2));
            lemma_fib_stream_state(rest, i2);
            if i2 < ccr.len() {
                let (m2, j2) = choose|m2: int, j2: int| #[trigger] fib_at(rest, i2, m2, j2);
                assert(seq![n0] + rest.take(m2) =~= ns.take(m2 + 1));
                assert(cc[i] == ccr[i2]);
                assert(fib_at(ns, i, m2 + 1, j2));
            } else {
                assert(seq![n0] + rest =~= ns);
            }
        }
    }
}

/// A lazily extended table of Fibonacci numbers.
pub struct Fibbonaci {
    cache: Vec<usize>,
}

impl Fibbonaci {
    /// Every cached entry is the Fibonacci number of its index, and the
    /// two seed entries are present.
    pub closed spec fn wf(self) -> bool {
        &&& self.cache@.len() >= 2
        &&& forall|k: int| 0 <= k < self.cache@.len() ==> self.cache@[k] == fib0(k)
    }

    /// Creates the table holding the two seed values.
    pub fn new() -> (table: Fibbonaci)
        ensures
            table.wf(),
    {
        let mut cache: Vec<usize> = Vec::new();
        cache.push(1);
        cache.push(2);
        Fibbonaci { cache }
    }

    /// Extends the cache up to and including `index`.
    fn adjust_cache(&mut self, index: usize)
        requires
            old(self).wf(),
            old(self).cache@.len() <= index,
            fib0(index as int) <= usize::MAX,
        ensures
            final(self).wf(),
            final(self).cache@.len() > index,
    {
        proof {
            lemma_fib0_lower(index as int);
        }
        let curr_len = self.cache.len();
        let mut i = curr_len;
        while i <= index
            invariant
                self.wf(),
                2 <= i == self.cache@.len(),
                fib0(index as int) <= usize::MAX,
                i <= index + 1,
                index < usize::MAX,
            decreases index + 1 - i,
        {
            proof {
                lemma_fib0_monotone(i as int, index as int);
                lemma_fib0_monotone(i as int - 2, i as int - 1);
            }
            let next_number = self.cache[i - 2] + self.cache[i - 1];
            self.cache.push(next_number);
            i = i + 1;
        }
    }

    /// The Fibonacci number at `index`, extending the cache as needed.
    fn get(&mut self, index: usize) -> (value: usize)
        requires
            old(self).wf(),
            fib0(index as int) <= usize::MAX,
        ensures
            final(self).wf(),
            value == fib0(index as int),
    {
        if index >= self.cache.len() {
            self.adjust_cache(index);
        }
        self.cache[index]
    }

    /// The smallest index `i >= 1` whose Fibonacci number exceeds `number`.
    pub fn find_greater_index(&mut self, number: usize) -> (index: usize)
        requires
            old(self).wf(),
            number <= usize::MAX / 2,
        ensures
            final(self).wf(),
            index == fib_index(number as int),
            1 <= index,
            fib0(index as int) > number,
            forall|j: int| 1 <= j < index ==> fib0(j) <= number,
    {
        let ghost target = fib_index(number as int);
        proof {
            lemma_fib_index_props(number as int);
            if number >= 1 {
                lemma_fib_index_bound(number as int);
                lemma_bit_len_usize(number);
            } else if target > 1 {
                assert(fib0(1) <= 0);
            }
            assert(target <= 2 * usize::BITS);
        }
        let mut curr_index: usize = 1;
        loop
            invariant
                self.wf(),
                1 <= curr_index,
                number <= usize::MAX / 2,
                target == fib_index(number as int),
                target <= 2 * usize::BITS,
                forall|j: int| 1 <= j < curr_index ==> fib0(j) <= number,
                curr_index <= target,
            ensures
                self.wf(),
                curr_index == fib_index(number as int),
            decreases target - curr_index,
        {
            proof {
                lemma_fib_index_props(number as int);
                assert(fib0(curr_index as int) <= usize::MAX) by {
                    if curr_index >= 2 {
                        assert(fib0(curr_index as int - 1) <= number);
                        lemma_fib0_monotone(curr_index as int - 2, curr_index as int - 1);
                    }
                }
            }
            let value = self.get(curr_index);
            if value > number {
                proof {
                    if (curr_index as int) < target {
                        assert(fib0(curr_index as int) <= number);
                    }
                }
                break ;
            }
            proof {
                if curr_index as int >= target {
                    lemma_fib0_monotone(target, curr_index as int);
                }
            }
            curr_index = curr_index + 1;
        }
        curr_index
    }
}

/// Fibonacci coding law: the table starts at one and two, and every later
/// entry is the sum of the two before it.
pub proof fn lemma_fibonacci_recurrence(i: int)
    ensures
        fib0(0) == 1,
        fib0(1) == 2,
        i >= 2 ==> fib0(i) == fib0(i - 1) + fib0(i - 2),
{
}

/// Fibonacci encoder.
pub struct FibbonaciEncoder;

impl NumberEncoder for FibbonaciEncoder {
    open spec fn spec_code(n: int) -> Seq<bool> {
        fib_code(n)
    }

    open spec fn spec_encode_pre(ns: Seq<usize>) -> bool {
        &&& all_positive(as_ints(ns))
        &&& forall|i: int| 0 <= i < ns.len() ==> #[trigger] ns[i] <= usize::MAX / 2
        &&& code_concat(fib_code_fn(), as_ints(ns)).len() <= usize::MAX
    }

    proof fn lemma_encode_pre(ns: Seq<usize>) {
        let ints = as_ints(ns);
        assert forall|i: int| 0 <= i < ints.len() implies (#[trigger] fib_code_fn()(
            ints[i],
        )).len() <= 256 by {
            lemma_fib_index_bound(ints[i]);
            lemma_fib_index_props(ints[i]);
            lemma_zeck(ints[i], fib_index(ints[i]));
            lemma_bit_len_usize(ns[i]);
        }
        lemma_code_concat_len_bound(fib_code_fn(), ints, 256);
        assert(ints.len() * 256 <= usize::MAX) by (nonlinear_arith)
            requires
                ints.len() <= usize::MAX / 256,
        ;
        assert(usize::MAX / 4 <= usize::MAX / 2);
    }

    fn encode(numbers: &[usize]) -> (bits: Bits) {
        let ghost ints = as_ints(numbers@);
        let mut bits = Bits::new();
        let mut fibbonaci = Fibbonaci::new();
        let mut idx: usize = 0;
        proof {
            assert(ints.take(0) =~= Seq::<int>::empty());
        }
        while idx < numbers.len()
            invariant
                bits.wf(),
                fibbonaci.wf(),
                idx <= numbers@.len(),
                ints == as_ints(numbers@),
                all_positive(ints),
                forall|i: int| 0 <= i < numbers@.len() ==> #[trigger] numbers@[i] <= usize::MAX
                    / 2,
                code_concat(fib_code_fn(), ints).len() <= usize::MAX,
                bits@ == code_concat(fib_code_fn(), ints.take(idx as int)),
            decreases numbers@.len() - idx,
        {
            let mut number = numbers[idx];
            let ghost n0 = number as int;
            proof {
                assert(ints[idx as int] == number as int);
                lemma_code_concat_push(fib_code_fn(), ints.take(idx as int), number as int);
                assert(ints.take(idx as int).push(number as int) =~= ints.take(idx + 1));
                lemma_code_concat_split(fib_code_fn(), ints, idx + 1);
                lemma_fib_index_props(n0);
                lemma_zeck(n0, fib_index(n0));
                lemma_fib_index_bound(n0);
                lemma_bit_len_usize(number);
            }
            let mut curr_bits = Bits::new();
            let curr_bits_len = fibbonaci.find_greater_index(number);
            let mut i: usize = 0;
            while i < curr_bits_len
                invariant
                    curr_bits.wf(),
                    i <= curr_bits_len,
                    curr_bits_len <= 2 * usize::BITS,
                    curr_bits@ == zero_bits(i as nat),
                decreases curr_bits_len - i,
            {
                curr_bits.push_bit(Bit::ZERO);
                proof {
                    assert(curr_bits@ =~= zero_bits((i + 1) as nat));
                }
                i = i + 1;
            }
            curr_bits.push_bit(Bit::ONE);
            let ghost l = fib_index(n0);
            let mut curr_bits_index = curr_bits_len;
            while number > 0
                invariant
                    curr_bits.wf(),
                    fibbonaci.wf(),
                    curr_bits_index <= curr_bits_len == l,
                    curr_bits@.len() == l + 1,
                    curr_bits@[l as int] == true,
                    0 <= number,
                    number as int <= n0 <= usize::MAX / 2,
                    number < fib0(curr_bits_index as int),
                    1 <= n0,
                    l == fib_index(n0),
                    forall|k: int| 0 <= k < curr_bits_index ==> curr_bits@[k] == false,
                    zeck_bits(n0, l) == zeck_bits(number as int, curr_bits_index as int)
                        + curr_bits@.subrange(curr_bits_index as int, l as int),
                decreases curr_bits_index,
            {
                proof {
                    if curr_bits_index == 0 {
                        assert(number == 0);
                    }
                }
                curr_bits_index = curr_bits_index - 1;
                proof {
                    lemma_fib0_monotone(curr_bits_index as int, l - 1);
                    lemma_fib_index_props(n0);
                    if l >= 2 {
                        assert(fib0(l - 1) <= n0);
                    }
                    assert(fib0(curr_bits_index as int) <= usize::MAX);
                }
                let fib_number = fibbonaci.get(curr_bits_index);
                let ghost taken = fib_number <= number;
                let ghost prev_view = curr_bits@;
                if fib_number <= number {
                    number = number - fib_number;
                    curr_bits.set_bit(curr_bits_index, Bit::ONE);
                }
                proof {
                    let ci = curr_bits_index as int;
                    assert(zeck_bits(number as int, ci) + curr_bits@.subrange(ci, l as int)
                        =~= zeck_bits(n0, l)) by {
                        assert(curr_bits@.subrange(ci, l as int) =~= seq![taken]
                            + prev_view.subrange(ci + 1, l as int));
                        assert(zeck_bits(number as int, ci).push(taken) =~= zeck_bits(
                            number as int,
                            ci,
                        ) + seq![taken]);
                    }
                    if number > 0 {
                        assert(number < fib0(ci)) by {
                            if taken {
                                lemma_fib0_monotone(ci - 1, ci);
                                if ci >= 1 {
                                    assert(fib0(ci + 1) == fib0(ci - 1) + fib0(ci));
                                }
                            }
                        }
                    }
                }
            }
            proof {
                lemma_zeck_zero(curr_bits_index as int);
                assert(curr_bits@ =~= fib_code(n0)) by {
                    assert(zeck_bits(0, curr_bits_index as int) =~= zero_bits(
                        curr_bits_index as nat,
                    ));
                    assert(curr_bits@.take(l as int) =~= zeck_bits(n0, l)) by {
                        assert forall|k: int| 0 <= k < l implies curr_bits@[k] == zeck_bits(
                            n0,
                            l,
                        )[k] by {
                            if k < curr_bits_index {
                                assert(zeck_bits(n0, l)[k] == zeck_bits(
                                    0,
                                    curr_bits_index as int,
                                )[k]);
                            } else {
                                assert(zeck_bits(n0, l)[k] == curr_bits@.subrange(
                                    curr_bits_index as int,
                                    l as int,
                                )[k - curr_bits_index]);
                            }
                        }
                    }
                    assert(curr_bits@ =~= curr_bits@.take(l as int).push(true));
                }
            }
            bits.append_bits(&curr_bits);
            proof {
                assert(bits@ =~= code_concat(fib_code_fn(), ints.take(idx + 1)));
            }
            idx = idx + 1;
        }
        proof {
            assert(ints.take(numbers@.len() as int) =~= ints);
            assert((|n: int| Self::spec_code(n)) =~= fib_code_fn());
        }
        bits
    }
}

/// State machine keeping track of fibbonaci decoder decoding state.
enum DecodingState {
    Empty,
    InsideNumber(usize, usize, bool),
}

impl DecodingState {
    /// The executable state as the specification's state.
    spec fn model(self) -> FibState {
        match self {
            DecodingState::Empty => FibState::Empty,
            DecodingState::InsideNumber(acc, index, prev_one) => FibState::InsideNumber {
                acc: acc as int,
                index: index as int,
                prev_one,
            },
        }
    }
}

/// Fibonacci decoder.
pub struct FibbonaciDecoder;

impl NumberDecoder for FibbonaciDecoder {
    open spec fn spec_code(n: int) -> Seq<bool> {
        fib_code(n)
    }

    open spec fn spec_decode(bits: Seq<bool>) -> Seq<int> {
        fib_decode(bits)
    }

    proof fn lemma_code_resets(n: int, tail: Seq<bool>) {
        lemma_run_append(fib_step_fn(), FibState::Empty, fib_code(n), tail);
        lemma_fib_code_run(n);
    }

    proof fn lemma_decode_empty() {
    }

    fn decode(bits: &Bits) -> (numbers: Vec<usize>) {
        proof {
            assert((|n: int| Self::spec_code(n)) =~= fib_code_fn());
        }
        let ghost ns: Seq<usize> = choose|ns: Seq<usize>|
            all_positive(as_ints(ns)) && bits@ == code_concat(fib_code_fn(), as_ints(ns));
        let n = bits.len();
        let mut numbers: Vec<usize> = Vec::new();
        let mut fibbonaci = Fibbonaci::new();
        let mut decoding_state = DecodingState::Empty;
        let mut i: usize = 0;
        proof {
            assert(bits@.take(0) =~= Seq::<bool>::empty());
            assert(as_ints(numbers@) =~= Seq::<int>::empty());
        }
        while i < n
            invariant
                bits.wf(),
                fibbonaci.wf(),
                i <= n == bits@.len(),
                all_positive(as_ints(ns)),
                bits@ == code_concat(fib_code_fn(), as_ints(ns)),
                decoding_state.model() == machine_run(
                    fib_step_fn(),
                    FibState::Empty,
                    bits@.take(i as int),
                ).0,
                as_ints(numbers@) == machine_run(
                    fib_step_fn(),
                    FibState::Empty,
                    bits@.take(i as int),
                ).1,
            decreases n - i,
        {
            let ghost ints = as_ints(ns);
            let ghost st0 = decoding_state.model();
            proof {
                lemma_fib_stream_state(ints, i as int);
                lemma_run_snoc(
                    fib_step_fn(),
                    FibState::Empty,
                    bits@.take(i as int),
                    bits@[i as int],
                );
                assert(bits@.take(i as int).push(bits@[i as int]) =~= bits@.take(i + 1));
            }
            let ghost pos = choose|m: int, j: int| #[trigger] fib_at(ints, i as int, m, j);
            proof {
                let (m, j) = pos;
                assert(fib_at(ints, i as int, m, j));
                let nm = ints[m];
                let l = fib_index(nm);
                lemma_fib_index_props(nm);
                lemma_zeck(nm, l);
                lemma_fib_index_bound(nm);
                lemma_bit_len_usize(ns[m]);
                let c = zeck_bits(nm, l);
                if 1 <= j && j < l {
                    lemma_fib_sum_prefix(c, j + 1);
                    assert(fib_sum(c.take(c.len() as int)) == nm) by {
                        assert(c.take(c.len() as int) =~= c);
                    }
                    lemma_fib_sum_prefix(c, j);
                    if c[j] && !c[j - 1] {
                        assert(c.take(j + 1).drop_last() =~= c.take(j));
                        assert(fib_sum(c.take(j + 1)) == fib_sum(c.take(j)) + fib0(j));
                    }
                    assert(fib_sum(c.take(j + 1)) <= nm) by {
                        lemma_fib_sum_prefix(c, c.len() as int);
                        assert(c.take(c.len() as int) =~= c);
                        lemma_fib_sum_prefix(c, j + 1);
                    }
                }
            }
            let bit = bits.get_bit(i);
            decoding_state = match (decoding_state, bit) {
                (DecodingState::Empty, bit) => {
                    match bit {
                        Bit::ONE => DecodingState::InsideNumber(1, 1, true),
                        Bit::ZERO => DecodingState::InsideNumber(0, 1, false),
                    }
                },
                (DecodingState::InsideNumber(number, index, true), Bit::ONE) => {
                    proof {
                        assert(as_ints(numbers@.push(number)) =~= as_ints(numbers@)
                            + seq![number as int]);
                    }
                    numbers.push(number);
                    DecodingState::Empty
                },
                (DecodingState::InsideNumber(number, index, _), Bit::ONE) => {
                    let value = fibbonaci.get(index);
                    DecodingState::InsideNumber(number + value, index + 1, true)
                },
                (DecodingState::InsideNumber(number, index, _), Bit::ZERO) => {
                    DecodingState::InsideNumber(number, index + 1, false)
                },
            };
            proof {
                assert(machine_run(fib_step_fn(), FibState::Empty, bits@.take(i + 1)).1
                    =~= machine_run(fib_step_fn(), FibState::Empty, bits@.take(i as int)).1
                    + fib_step(st0, bits@[i as int]).1);
            }
            i = i + 1;
        }
        proof {
            assert(bits@.take(n as int) =~= bits@);
        }
        numbers
    }
}

} // verus!
