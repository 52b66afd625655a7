//! Append-only bit sequence with random-access read and in-place overwrite.
//! Bits are packed big-endian within each byte: bit 0 of the sequence is the
//! most significant bit of byte 0. The exact bit count is carried separately
//! from the byte storage.

use vstd::prelude::*;

verus! {

use vstd::arithmetic::power2::*;

/// Half of the representable range: the most significant bit of a `usize`.
pub const USIZE_HALF: usize = usize::MAX - (usize::MAX >> 1);

/// Doubling `USIZE_HALF` lands exactly one past `usize::MAX`.
proof fn lemma_usize_half()
    ensures
        2 * (USIZE_HALF as int) == usize::MAX + 1,
        USIZE_HALF == pow2((usize::BITS - 1) as nat),
{
    let mx: usize = usize::MAX;
    assert(mx >> 1 == mx / 2) by (bit_vector);
    vstd::layout::unsigned_int_max_values();
    lemma_pow2_unfold(usize::BITS as nat);
    assert(usize::MAX as int == 2 * pow2((usize::BITS - 1) as nat) - 1);
}

/// A single bit.
#[derive(Clone, Copy, Debug, PartialEq, Eq, Structural)]
pub enum Bit {
    ONE,
    ZERO,
}

impl Bit {
    /// The bit as a boolean, `ONE` being `true`.
    pub open spec fn as_bool(self) -> bool {
        self is ONE
    }
}

/// True when bit `pos` of `byte` is set, counting from the most significant
/// bit (position 0) down to the least significant (position 7).
pub open spec fn byte_bit(byte: u8, pos: int) -> bool
    recommends
        0 <= pos < 8,
{
    (byte >> ((7 - pos) as u8)) & 1u8 == 1u8
}

/// The mask that selects bit `pos` of a byte, most significant bit first.
pub open spec fn spec_mask(pos: int) -> u8
    recommends
        0 <= pos < 8,
{
    1u8 << ((7 - pos) as u8)
}

proof fn lemma_byte_zero(j: u8)
    requires
        j < 8,
    ensures
        !byte_bit(0u8, j as int),
{
    assert((0u8 >> ((7 - j) as u8)) & 1u8 == 0u8) by (bit_vector);
}

proof fn lemma_bit_or(b: u8, p: u8, j: u8)
    requires
        p < 8,
        j < 8,
    ensures
        byte_bit(b | spec_mask(p as int), j as int) == if j == p {
            true
        } else {
            byte_bit(b, j as int)
        },
{
    assert(((b | (1u8 << ((7 - p) as u8))) >> ((7 - j) as u8)) & 1u8 == (if j == p {
        1u8
    } else {
        (b >> ((7 - j) as u8)) & 1u8
    })) by (bit_vector)
        requires
            p < 8,
            j < 8,
    ;
    assert((b >> ((7 - j) as u8)) & 1u8 == 1u8 || (b >> ((7 - j) as u8)) & 1u8 == 0u8)
        by (bit_vector);
}

proof fn lemma_bit_and_not(b: u8, p: u8, j: u8)
    requires
        p < 8,
        j < 8,
    ensures
        byte_bit(b & !spec_mask(p as int), j as int) == if j == p {
            false
        } else {
            byte_bit(b, j as int)
        },
{
    assert(((b & !(1u8 << ((7 - p) as u8))) >> ((7 - j) as u8)) & 1u8 == (if j == p {
        0u8
    } else {
        (b >> ((7 - j) as u8)) & 1u8
    })) by (bit_vector)
        requires
            p < 8,
            j < 8,
    ;
    assert((b >> ((7 - j) as u8)) & 1u8 == 1u8 || (b >> ((7 - j) as u8)) & 1u8 == 0u8)
        by (bit_vector);
}

proof fn lemma_mask_test(b: u8, p: u8)
    requires
        p < 8,
    ensures
        (b & spec_mask(p as int) > 0) == byte_bit(b, p as int),
{
    assert((b & (1u8 << ((7 - p) as u8)) > 0) == ((b >> ((7 - p) as u8)) & 1u8 == 1u8))
        by (bit_vector)
        requires
            p < 8,
    ;
}

/// True when `i` is a valid index of `s` and the bit there is set.
pub open spec fn bit_at(s: Seq<bool>, i: int) -> bool {
    0 <= i < s.len() && s[i]
}

/// Byte `k` of the canonical big-endian-within-byte packing of `s`:
/// bit `8 * k` of the sequence is the most significant bit, and positions
/// past the end of the sequence are zero.
pub open spec fn packed_byte(s: Seq<bool>, k: int) -> u8 {
    ((if bit_at(s, 8 * k) {
        128int
    } else {
        0int
    }) + (if bit_at(s, 8 * k + 1) {
        64int
    } else {
        0int
    }) + (if bit_at(s, 8 * k + 2) {
        32int
    } else {
        0int
    }) + (if bit_at(s, 8 * k + 3) {
        16int
    } else {
        0int
    }) + (if bit_at(s, 8 * k + 4) {
        8int
    } else {
        0int
    }) + (if bit_at(s, 8 * k + 5) {
        4int
    } else {
        0int
    }) + (if bit_at(s, 8 * k + 6) {
        2int
    } else {
        0int
    }) + (if bit_at(s, 8 * k + 7) {
        1int
    } else {
        0int
    })) as u8
}

/// The canonical byte packing of a bit sequence: `ceil(len / 8)` bytes,
/// most significant bit first within each byte, trailing bits zero.
pub open spec fn packed_bytes(s: Seq<bool>) -> Seq<u8> {
    Seq::new(((s.len() + 7) / 8) as nat, |k: int| packed_byte(s, k))
}

proof fn lemma_byte_decompose(b: u8)
    ensures
        b as int == (if byte_bit(b, 0) {
            128int
        } else {
            0int
        }) + (if byte_bit(b, 1) {
            64int
        } else {
            0int
        }) + (if byte_bit(b, 2) {
            32int
        } else {
            0int
        }) + (if byte_bit(b, 3) {
            16int
        } else {
            0int
        }) + (if byte_bit(b, 4) {
            8int
        } else {
            0int
        }) + (if byte_bit(b, 5) {
            4int
        } else {
            0int
        }) + (if byte_bit(b, 6) {
            2int
        } else {
            0int
        }) + (if byte_bit(b, 7) {
            1int
        } else {
            0int
        }),
{
    assert(b == ((b >> 7u8) & 1u8) * 128 + ((b >> 6u8) & 1u8) * 64 + ((b >> 5u8) & 1u8) * 32 + ((b
        >> 4u8) & 1u8) * 16 + ((b >> 3u8) & 1u8) * 8 + ((b >> 2u8) & 1u8) * 4 + ((b >> 1u8) & 1u8)
        * 2 + ((b >> 0u8) & 1u8) * 1) by (bit_vector);
    assert forall|s: u8| s < 8 implies (b >> s) & 1u8 == 1u8 || (b >> s) & 1u8 == 0u8 by {
        let bb = b;
        assert((bb >> s) & 1u8 == 1u8 || (bb >> s) & 1u8 == 0u8) by (bit_vector);
    }
}

/// An ordered sequence of bits, seen in specifications as a `Seq<bool>`.
pub struct Bits {
    bytes: Vec<u8>,
    size: usize,
}

impl View for Bits {
    type V = Seq<bool>;

    closed spec fn view(&self) -> Seq<bool> {
        Seq::new(self.size as nat, |i: int| byte_bit(self.bytes@[i / 8], i % 8))
    }
}

impl Bits {
    /// The storage holds exactly the bytes the bit count asks for, and the
    /// unused bits of the last byte are zero. Constructors establish this
    /// and every method preserves it.
    pub closed spec fn wf(self) -> bool {
        &&& self.bytes@.len() == (self.size + 7) / 8
        &&& forall|i: int|
            self.size <= i < 8 * self.bytes@.len() ==> #[trigger] byte_bit(
                self.bytes@[i / 8],
                i % 8,
            ) == false
    }

    /// Creates an empty bit sequence.
    pub fn new() -> (bits: Bits)
        ensures
            bits.wf(),
            bits@ == Seq::<bool>::empty(),
    {
        let bits = Bits { bytes: Vec::new(), size: 0 };
        proof {
            assert(bits@ =~= Seq::<bool>::empty());
        }
        bits
    }

    /// The number of bits held.
    pub fn len(&self) -> (n: usize)
        ensures
            n == self@.len(),
    {
        self.size
    }

    fn create_mask(bit_position: usize) -> (mask: u8)
        requires
            bit_position < 8,
        ensures
            mask == spec_mask(bit_position as int),
    {
        1u8 << ((7 - bit_position) as u8)
    }

    /// Returns the bit at index `index`.
    pub fn get_bit(&self, index: usize) -> (bit: Bit)
        requires
            self.wf(),
            index < self@.len(),
        ensures
            bit.as_bool() == self@[index as int],
    {
        let byte = index / 8;
        let bit_position = index % 8;
        let mask = Bits::create_mask(bit_position);
        proof {
            lemma_mask_test(self.bytes@[byte as int], bit_position as u8);
        }
        if self.bytes[byte] & mask > 0 {
            Bit::ONE
        } else {
            Bit::ZERO
        }
    }

    /// Overwrites the bit at index `index`, preserving all other bits.
    pub fn set_bit(&mut self, index: usize, bit: Bit)
        requires
            old(self).wf(),
            index < old(self)@.len(),
        ensures
            final(self).wf(),
            final(self)@ == old(self)@.update(index as int, bit.as_bool()),
    {
        let byte_index = index / 8;
        let bit_position = index % 8;
        let mask = Bits::create_mask(bit_position);
        let b = self.bytes[byte_index];
        let nb = if let Bit::ONE = bit {
            b | mask
        } else {
            b & !mask
        };
        proof {
            assert forall|j: u8| j < 8 implies byte_bit(nb, j as int) == if j == bit_position as u8 {
                bit.as_bool()
            } else {
                byte_bit(b, j as int)
            } by {
                if bit is ONE {
                    lemma_bit_or(b, bit_position as u8, j);
                } else {
                    lemma_bit_and_not(b, bit_position as u8, j);
                }
            }
        }
        self.bytes[byte_index] = nb;
        proof {
            assert(self@ =~= old(self)@.update(index as int, bit.as_bool()));
        }
    }

    /// Appends one bit, growing the storage by a zeroed byte whenever the
    /// current length is a multiple of 8.
    pub fn push_bit(&mut self, bit: Bit)
        requires
            old(self).wf(),
            old(self)@.len() < usize::MAX,
        ensures
            final(self).wf(),
            final(self)@ == old(self)@.push(bit.as_bool()),
    {
        let ghost n = self.size as int;
        let bit_position = self.size % 8;
        if bit_position == 0 {
            self.bytes.push(0);
        }
        let byte = self.size / 8;
        let mask = Bits::create_mask(bit_position);
        let b = self.bytes[byte];
        let nb = if let Bit::ONE = bit {
            b | mask
        } else {
            b
        };
        proof {
            if bit_position == 0 {
                assert(b == 0u8);
                lemma_byte_zero(0);
            } else {
                assert(byte_bit(old(self).bytes@[n / 8], n % 8) == false);
            }
            assert forall|j: int| 0 <= j < 8 implies byte_bit(nb, j) == if j == bit_position as int {
                bit.as_bool()
            } else {
                byte_bit(b, j)
            } by {
                if bit is ONE {
                    lemma_bit_or(b, bit_position as u8, j as u8);
                } else {
                    if j == bit_position as int {
                        if bit_position == 0 {
                            lemma_byte_zero(j as u8);
                        }
                    }
                }
            }
        }
        self.bytes[byte] = nb;
        self.size = self.size + 1;
        proof {
            let s = old(self)@;
            let p = n % 8;
            assert(byte_bit(nb, p) == bit.as_bool());
            assert forall|i: int| n < i < 8 * self.bytes@.len() implies #[trigger] byte_bit(
                self.bytes@[i / 8],
                i % 8,
            ) == false by {
                assert(i / 8 == n / 8);
                assert(byte_bit(nb, i % 8) == byte_bit(b, i % 8));
                if bit_position == 0 {
                    assert(b == 0u8);
                    lemma_byte_zero((i % 8) as u8);
                } else {
                    assert(byte_bit(old(self).bytes@[i / 8], i % 8) == false);
                    assert(old(self).bytes@[i / 8] == b);
                }
            }
            assert forall|i: int| 0 <= i < n implies self@[i] == s[i] by {
                if i / 8 == n / 8 {
                    assert(old(self).bytes@[i / 8] == b);
                    assert(i % 8 != p);
                } else {
                    assert(self.bytes@[i / 8] == old(self).bytes@[i / 8]);
                }
            }
            assert(self@[n] == bit.as_bool());
            assert(self@ =~= old(self)@.push(bit.as_bool()));
        }
    }

    /// Builds a bit sequence directly from its packed byte storage and its
    /// exact bit count. The caller is trusted to pass exactly
    /// `ceil(size / 8)` bytes whose bits past `size` are all zero.
    pub fn from_vec(size: usize, bytes: Vec<u8>) -> (bits: Bits)
        requires
            bytes@.len() == (size + 7) / 8,
            forall|i: int|
                size <= i < 8 * bytes@.len() ==> #[trigger] byte_bit(bytes@[i / 8], i % 8)
                    == false,
        ensures
            bits.wf(),
            bits@.len() == size,
            forall|i: int| 0 <= i < size ==> bits@[i] == byte_bit(bytes@[i / 8], i % 8),
    {
        Bits { size, bytes }
    }

    /// The packed byte storage.
    pub fn get_bits(&self) -> (bytes: &[u8])
        requires
            self.wf(),
        ensures
            bytes@ == packed_bytes(self@),
    {
        proof {
            assert forall|k: int| 0 <= k < self.bytes@.len() implies self.bytes@[k] == packed_byte(
                self@,
                k,
            ) by {
                lemma_byte_decompose(self.bytes@[k]);
                assert forall|j: int| 0 <= j < 8 implies bit_at(self@, 8 * k + j) == byte_bit(
                    self.bytes@[k],
                    j,
                ) by {
                    let i = 8 * k + j;
                    assert(i / 8 == k && i % 8 == j);
                    if i >= self.size {
                        assert(byte_bit(self.bytes@[i / 8], i % 8) == false);
                    }
                }
            }
            assert(self.bytes@ =~= packed_bytes(self@));
        }
        self.bytes.as_slice()
    }

    /// Appends all of `other`'s bits, in order.
    pub fn append_bits(&mut self, bits: &Bits)
        requires
            old(self).wf(),
            bits.wf(),
            old(self)@.len() + bits@.len() <= usize::MAX,
        ensures
            final(self).wf(),
            final(self)@ == old(self)@ + bits@,
    {
        let n = bits.len();
        let mut i: usize = 0;
        while i < n
            invariant
                self.wf(),
                bits.wf(),
                i <= n,
                n == bits@.len(),
                old(self)@.len() + n <= usize::MAX,
                self@ == old(self)@ + bits@.take(i as int),
            decreases n - i,
        {
            self.push_bit(bits.get_bit(i));
            proof {
                assert(bits@.take(i as int).push(bits@[i as int]) =~= bits@.take(i + 1));
                assert((old(self)@ + bits@.take(i as int)).push(bits@[i as int]) =~= old(self)@
                    + bits@.take(i + 1));
            }
            i = i + 1;
        }
        proof {
            assert(bits@.take(n as int) =~= bits@);
        }
    }

    /// Drops the first bit (index 0) and shortens the sequence by one,
    /// shifting every remaining bit one place towards index 0.
    pub fn shift_left_and_shrink_size(&mut self)
        requires
            old(self).wf(),
            old(self)@.len() >= 1,
        ensures
            final(self).wf(),
            final(self)@ == old(self)@.subrange(1, old(self)@.len() as int),
    {
        let n = self.size;
        let mut i: usize = 0;
        while i < n - 1
            invariant
                self.wf(),
                1 <= n == self@.len(),
                n == old(self)@.len(),
                i <= n - 1,
                forall|j: int| 0 <= j < i ==> self@[j] == old(self)@[j + 1],
                forall|j: int| i <= j < n ==> self@[j] == old(self)@[j],
            decreases n - i,
        {
            let b = self.get_bit(i + 1);
            self.set_bit(i, b);
            i = i + 1;
        }
        self.set_bit(n - 1, Bit::ZERO);
        let ghost prev = *self;
        proof {
            assert(prev@.len() == n);
            assert(self.size == n);
        }
        self.size = self.size - 1;
        proof {
            assert forall|j: int|
                self.size <= j < 8 * self.bytes@.len() implies #[trigger] byte_bit(
                self.bytes@[j / 8],
                j % 8,
            ) == false by {
                if j < n {
                    assert(j == n - 1);
                    assert(prev@[j] == false);
                } else {
                    assert(byte_bit(prev.bytes@[j / 8], j % 8) == false);
                }
            }
        }
        let needed = self.size / 8 + if self.size % 8 == 0 {
            0
        } else {
            1
        };
        proof {
            assert(needed == (self.size + 7) / 8);
        }
        if self.bytes.len() > needed {
            let ghost before = *self;
            self.bytes.pop();
            proof {
                assert(self.bytes@ =~= before.bytes@.take(self.bytes@.len() as int));
            }
        }
        proof {
            assert forall|j: int| 0 <= j < n - 1 implies self@[j] == old(self)@[j + 1] by {
                assert(self@[j] == byte_bit(self.bytes@[j / 8], j % 8));
                assert(self.bytes@[j / 8] == prev.bytes@[j / 8]);
                assert(prev@[j] == byte_bit(prev.bytes@[j / 8], j % 8));
            }
            assert(self@ =~= old(self)@.subrange(1, old(self)@.len() as int));
        }
    }
}

/// A cursor over the bits of a [`Bits`], yielding them in index order.
pub struct BitsIterator<'a> {
    bits: &'a Bits,
    index: usize,
}

impl<'a> BitsIterator<'a> {
    /// The underlying bit sequence.
    pub closed spec fn seq(self) -> Seq<bool> {
        self.bits@
    }

    /// How many bits have been yielded so far.
    pub closed spec fn pos(self) -> int {
        self.index as int
    }

    /// The cursor points into a well-formed sequence and never runs past it.
    pub closed spec fn wf(self) -> bool {
        self.bits.wf() && self.index <= self.bits@.len()
    }

    /// Yields the next bit, or `None` once every bit has been yielded.
    pub fn next(&mut self) -> (r: Option<Bit>)
        requires
            old(self).wf(),
        ensures
            final(self).wf(),
            final(self).seq() == old(self).seq(),
            old(self).pos() < old(self).seq().len() ==> {
                &&& r is Some
                &&& r->0.as_bool() == old(self).seq()[old(self).pos()]
                &&& final(self).pos() == old(self).pos() + 1
            },
            old(self).pos() >= old(self).seq().len() ==> {
                &&& r is None
                &&& final(self).pos() == old(self).pos()
            },
    {
        if self.index < self.bits.len() {
            let bit = self.bits.get_bit(self.index);
            self.index = self.index + 1;
            Some(bit)
        } else {
            None
        }
    }
}

impl Bits {
    /// A cursor over this sequence's bits, starting at index 0.
    pub fn iter(&self) -> (it: BitsIterator<'_>)
        requires
            self.wf(),
        ensures
            it.wf(),
            it.seq() == self@,
            it.pos() == 0,
    {
        BitsIterator { bits: self, index: 0 }
    }
}

/// The position of the highest set bit of `n`, counted 1-based from the
/// least significant bit; 1 for `n <= 1`. Equivalently, the smallest
/// `k >= 1` with `n < 2^k`.
pub open spec fn bit_len(n: int) -> nat
    decreases n,
{
    if n < 2 {
        1
    } else {
        1 + bit_len(n / 2)
    }
}

/// The minimal binary form of `n`, most significant bit first: exactly
/// `bit_len(n)` bits, with a leading one whenever `n >= 1`.
pub open spec fn bin_bits(n: int) -> Seq<bool>
    decreases n,
{
    if n < 2 {
        seq![n == 1]
    } else {
        bin_bits(n / 2).push(n % 2 == 1)
    }
}

/// The non-negative integer a bit sequence denotes, most significant
/// bit first.
pub open spec fn bits_to_nat(s: Seq<bool>) -> nat
    decreases s.len(),
{
    if s.len() == 0 {
        0
    } else {
        2 * bits_to_nat(s.drop_last()) + if s.last() {
            1nat
        } else {
            0nat
        }
    }
}

/// The minimal binary form has exactly `bit_len(n)` bits.
pub proof fn lemma_bin_bits_len(n: int)
    ensures
        bin_bits(n).len() == bit_len(n),
    decreases n,
{
    if n >= 2 {
        lemma_bin_bits_len(n / 2);
    }
}

/// The minimal binary form of a positive integer starts with a one.
pub proof fn lemma_bin_bits_first(n: int)
    requires
        n >= 1,
    ensures
        bin_bits(n).len() >= 1,
        bin_bits(n)[0] == true,
    decreases n,
{
    if n >= 2 {
        lemma_bin_bits_first(n / 2);
    }
}

/// Reading the minimal binary form of `n` back as an integer gives `n`.
pub proof fn lemma_bin_bits_value(n: int)
    requires
        n >= 0,
    ensures
        bits_to_nat(bin_bits(n)) == n,
    decreases n,
{
    if n < 2 {
        assert(bin_bits(n).drop_last() =~= Seq::<bool>::empty());
        assert(bits_to_nat(Seq::<bool>::empty()) == 0);
    } else {
        lemma_bin_bits_value(n / 2);
        assert(bin_bits(n).drop_last() =~= bin_bits(n / 2));
    }
}


/// `bit_len(n)` is the unique `k >= 1` with `2^(k-1) <= max(n, 1) < 2^k`.
pub proof fn lemma_bit_len_bounds(n: int)
    requires
        n >= 1,
    ensures
        pow2((bit_len(n) - 1) as nat) <= n < pow2(bit_len(n)),
    decreases n,
{
    if n < 2 {
        lemma2_to64();
    } else {
        lemma_bit_len_bounds(n / 2);
        lemma_pow2_unfold(bit_len(n));
        lemma_pow2_unfold((bit_len(n) - 1) as nat);
    }
}

/// Any `k >= 1` whose powers of two bracket `n` is `bit_len(n)`.
pub proof fn lemma_bit_len_of_bracket(n: int, k: nat)
    requires
        n >= 1,
        k >= 1,
        pow2((k - 1) as nat) <= n < pow2(k),
    ensures
        bit_len(n) == k,
{
    lemma_bit_len_bounds(n);
    if bit_len(n) < k {
        lemma_pow2_adds((bit_len(n)) as nat, (k - 1 - bit_len(n)) as nat);
        lemma_pow2_pos((k - 1 - bit_len(n)) as nat);
        assert(pow2((k - 1) as nat) >= pow2(bit_len(n))) by (nonlinear_arith)
            requires
                pow2((k - 1) as nat) == pow2(bit_len(n)) * pow2((k - 1 - bit_len(n)) as nat),
                pow2((k - 1 - bit_len(n)) as nat) >= 1,
                pow2(bit_len(n)) >= 0,
        ;
    }
    if bit_len(n) > k {
        lemma_pow2_adds(k, (bit_len(n) - 1 - k) as nat);
        lemma_pow2_pos((bit_len(n) - 1 - k) as nat);
        assert(pow2((bit_len(n) - 1) as nat) >= pow2(k)) by (nonlinear_arith)
            requires
                pow2((bit_len(n) - 1) as nat) == pow2(k) * pow2((bit_len(n) - 1 - k) as nat),
                pow2((bit_len(n) - 1 - k) as nat) >= 1,
                pow2(k) >= 0,
        ;
    }
}

/// Appending bit sequences multiplies the head's value by a power of two.
pub proof fn lemma_bits_to_nat_append(a: Seq<bool>, b: Seq<bool>)
    ensures
        bits_to_nat(a + b) == bits_to_nat(a) * pow2(b.len()) + bits_to_nat(b),
    decreases b.len(),
{
    if b.len() == 0 {
        assert(a + b =~= a);
        lemma2_to64();
        assert(bits_to_nat(b) == 0);
        assert(bits_to_nat(a) * pow2(b.len()) == bits_to_nat(a) * 1);
    } else {
        lemma_bits_to_nat_append(a, b.drop_last());
        assert((a + b).drop_last() =~= a + b.drop_last());
        assert((a + b).len() > 0);
        assert((a + b).last() == b.last());
        lemma_pow2_unfold(b.len());
        assert(bits_to_nat(a) * pow2(b.len()) == 2 * (bits_to_nat(a) * pow2(
            (b.len() - 1) as nat,
        ))) by (nonlinear_arith)
            requires
                pow2(b.len()) == 2 * pow2((b.len() - 1) as nat),
        ;
        assert(bits_to_nat(a + b) == 2 * bits_to_nat(a + b.drop_last()) + if b.last() {
            1nat
        } else {
            0nat
        });
        assert(bits_to_nat(b) == 2 * bits_to_nat(b.drop_last()) + if b.last() {
            1nat
        } else {
            0nat
        });
    }
}

/// The value of a prefix never exceeds the value of the whole sequence.
pub proof fn lemma_bits_to_nat_prefix(s: Seq<bool>, j: int)
    requires
        0 <= j <= s.len(),
    ensures
        bits_to_nat(s.take(j)) <= bits_to_nat(s),
{
    lemma_bits_to_nat_append(s.take(j), s.skip(j));
    assert(s.take(j) + s.skip(j) =~= s);
    lemma_pow2_pos(s.skip(j).len());
    assert(bits_to_nat(s.take(j)) * pow2(s.skip(j).len()) >= bits_to_nat(s.take(j)))
        by (nonlinear_arith)
        requires
            pow2(s.skip(j).len()) >= 1,
            bits_to_nat(s.take(j)) >= 0,
    ;
}


/// Returns `bit_len(number)`: the 1-based position of the highest set bit,
/// or 1 when `number` is zero.
pub fn get_usize_bit_len(number: usize) -> (len: usize)
    ensures
        len == bit_len(number as int),
{
    let mut size: usize = 1;
    let mut mask: usize = 1;
    proof {
        lemma2_to64();
        lemma_usize_half();
    }
    while mask < USIZE_HALF && 2 * mask <= number
        invariant
            1 <= size <= usize::BITS,
            1 <= mask,
            mask == pow2((size - 1) as nat),
            2 * (USIZE_HALF as int) == usize::MAX + 1,
            USIZE_HALF == pow2((usize::BITS - 1) as nat),
            size == 1 || mask <= number,
        decreases usize::MAX - mask,
    {
        proof {
            lemma_pow2_unfold(size as nat);
            if size - 1 >= usize::BITS - 1 {
                if size - 1 > usize::BITS - 1 {
                    lemma_pow2_strictly_increases((usize::BITS - 1) as nat, (size - 1) as nat);
                }
                assert(false);
            }
        }
        mask = mask * 2;
        size = size + 1;
    }
    proof {
        lemma_usize_half();
        lemma_pow2_pos((size - 1) as nat);
        if number >= 1 {
            assert(number < 2 * mask);
            lemma_pow2_unfold(size as nat);
            assert(pow2((size - 1) as nat) <= number as int);
            lemma_bit_len_of_bracket(number as int, size as nat);
        }
    }
    size
}

/// The minimal binary form of `n` as a bit sequence: exactly
/// `bit_len(n)` bits, most significant first.
pub fn from_usize(n: usize) -> (bits: Bits)
    ensures
        bits.wf(),
        bits@ == bin_bits(n as int),
    decreases n,
{
    if n < 2 {
        let mut bits = Bits::new();
        bits.push_bit(if n == 1 {
            Bit::ONE
        } else {
            Bit::ZERO
        });
        proof {
            assert(bits@ =~= bin_bits(n as int));
        }
        bits
    } else {
        let mut bits = from_usize(n / 2);
        proof {
            lemma_bin_bits_len((n / 2) as int);
            lemma_bit_len_le((n / 2) as int);
        }
        bits.push_bit(if n % 2 == 1 {
            Bit::ONE
        } else {
            Bit::ZERO
        });
        bits
    }
}

/// A sequence with a leading one denotes a positive number.
pub proof fn lemma_bits_to_nat_first_one(s: Seq<bool>)
    requires
        s.len() >= 1,
        s[0],
    ensures
        bits_to_nat(s) >= 1,
{
    lemma_bits_to_nat_append(seq![true], s.skip(1));
    assert(seq![true] + s.skip(1) =~= s);
    assert(bits_to_nat(seq![true]) == 1) by {
        assert(seq![true].drop_last() =~= Seq::<bool>::empty());
        assert(bits_to_nat(Seq::<bool>::empty()) == 0);
    }
    lemma_pow2_pos(s.skip(1).len());
    assert(1 * pow2(s.skip(1).len()) >= 1) by (nonlinear_arith)
        requires
            pow2(s.skip(1).len()) >= 1,
    ;
}

/// No `usize` needs more bits than the machine word has.
pub proof fn lemma_bit_len_usize(n: usize)
    ensures
        bit_len(n as int) <= usize::BITS,
{
    if n == 0 {
    } else if bit_len(n as int) > usize::BITS {
        lemma_bit_len_bounds(n as int);
        vstd::layout::unsigned_int_max_values();
        if bit_len(n as int) - 1 > usize::BITS {
            lemma_pow2_strictly_increases(usize::BITS as nat, (bit_len(n as int) - 1) as nat);
        }
        assert(pow2((bit_len(n as int) - 1) as nat) >= pow2(usize::BITS as nat));
        assert(false);
    }
}

/// Every integer needs at least one bit.
pub proof fn lemma_bit_len_min(n: int)
    ensures
        bit_len(n) >= 1,
{
}

/// A positive integer needs no more bits than its own value.
pub proof fn lemma_bit_len_le_self(n: int)
    requires
        n >= 1,
    ensures
        bit_len(n) <= n,
    decreases n,
{
    if n >= 2 {
        lemma_bit_len_le_self(n / 2);
    }
}

/// `bit_len(n)` never exceeds `n + 1`.
pub proof fn lemma_bit_len_le(n: int)
    requires
        n >= 0,
    ensures
        bit_len(n) <= n + 1,
    decreases n,
{
    if n >= 2 {
        lemma_bit_len_le(n / 2);
    }
}

impl Bits {
    /// Interprets the whole sequence, most significant bit first, as a
    /// non-negative integer.
    pub fn to_usize(&self) -> (number: usize)
        requires
            self.wf(),
            bits_to_nat(self@) <= usize::MAX,
        ensures
            number == bits_to_nat(self@),
    {
        let n = self.len();
        let mut number: usize = 0;
        let mut i: usize = 0;
        proof {
            assert(self@.take(0) =~= Seq::<bool>::empty());
        }
        while i < n
            invariant
                self.wf(),
                i <= n == self@.len(),
                bits_to_nat(self@) <= usize::MAX,
                number == bits_to_nat(self@.take(i as int)),
            decreases n - i,
        {
            proof {
                lemma_bits_to_nat_prefix(self@, i + 1);
                assert(self@.take(i + 1).drop_last() =~= self@.take(i as int));
                assert(self@.take(i + 1).last() == self@[i as int]);
            }
            let bit = self.get_bit(i);
            number = 2 * number + if let Bit::ONE = bit {
                1
            } else {
                0
            };
            i = i + 1;
        }
        proof {
            assert(self@.take(n as int) =~= self@);
        }
        number
    }
}

} // verus!
