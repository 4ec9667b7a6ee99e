use vstd::prelude::*;
use crate::codec::{
    bytes_value, byte_bound, is_big, lemma_byte_bound_sixteen, lemma_value_bound, lemma_word_bytes_len,
    lemma_word_round_trip, order_is_big, push_word_bytes, read_word, word_bytes, ByteOrder,
};
use crate::error::FlagError;
use crate::layout::words_for;
use vstd::arithmetic::div_mod::{lemma_div_pos_is_pos, lemma_fundamental_div_mod, lemma_mod_pos_bound};

verus! {

/// Word width used by [`Bitmask::new`].
pub const BITMASK_BITS: u32 = 64;

/// Bit `j` (0 = least significant) of the word `w`.
pub open spec fn word_bit(w: u128, j: u128) -> bool {
    (w >> j) & 1u128 == 1u128
}

/// Whether position `j` of word `k`, with words of `w` bits, stands for one
/// of `n` bits.
pub open spec fn bit_in_use(n: nat, w: nat, k: int, j: int) -> bool {
    0 <= j < w && k * w + j < n
}

/// Whether every bit set in the word `x` stands for one of `n` bits, when
/// `x` is word `k` of words of `w` bits.
pub open spec fn word_fits(x: u128, n: nat, w: nat, k: int) -> bool {
    forall|j: u128| j < 128 && #[trigger] word_bit(x, j) ==> bit_in_use(n, w, k, j as int)
}

/// Whether `w` is a word width that a [`Bitmask`] can be packed into.
pub open spec fn is_mask_width(w: nat) -> bool {
    w == 8 || w == 16 || w == 32 || w == 64 || w == 128
}

/// Bit facts about single words, shared by the whole engine.
proof fn lemma_bit_ops(a: u128, b: u128)
    by (bit_vector)
    ensures
        forall|j: u128| j < 128 ==> #[trigger] word_bit(a & b, j) == (word_bit(a, j) && word_bit(b, j)),
        forall|j: u128| j < 128 ==> #[trigger] word_bit(a | b, j) == (word_bit(a, j) || word_bit(b, j)),
        forall|j: u128| j < 128 ==> #[trigger] word_bit(a ^ b, j) == (word_bit(a, j) != word_bit(b, j)),
        forall|j: u128| j < 128 ==> #[trigger] word_bit(!a, j) == !word_bit(a, j),
{
}

proof fn lemma_zero_word()
    by (bit_vector)
    ensures
        forall|j: u128| j < 128 ==> !#[trigger] word_bit(0u128, j),
        forall|j: u128| j < 128 ==> #[trigger] word_bit(0xffff_ffff_ffff_ffff_ffff_ffff_ffff_ffffu128, j),
{
}

proof fn lemma_single_bit(b: u128)
    by (bit_vector)
    requires
        b < 128,
    ensures
        forall|j: u128| j < 128 ==> #[trigger] word_bit(1u128 << b, j) == (j == b),
{
}

proof fn lemma_low_bits(v: u128)
    by (bit_vector)
    requires
        v < 128,
    ensures
        (1u128 << v) >= 1,
        forall|j: u128| j < 128 ==> #[trigger] word_bit(((1u128 << v) - 1u128) as u128, j) == (j < v),
{
}

/// A word is determined by its 128 bits.
proof fn lemma_word_ext(x: u128, y: u128)
    requires
        forall|j: u128| j < 128 ==> #[trigger] word_bit(x, j) == word_bit(y, j),
    ensures
        x == y,
{
    lemma_shr_eq(x, y, 0);
    assert(x >> 0 == x && y >> 0 == y) by (bit_vector);
}

proof fn lemma_shr_eq(x: u128, y: u128, n: u128)
    requires
        n < 128,
        forall|j: u128| j < 128 ==> #[trigger] word_bit(x, j) == word_bit(y, j),
    ensures
        x >> n == y >> n,
    decreases 127 - n,
{
    if n == 127 {
        assert(word_bit(x, 127) == word_bit(y, 127));
        assert((word_bit(x, 127) == word_bit(y, 127)) ==> x >> 127 == y >> 127) by (bit_vector);
    } else {
        lemma_shr_eq(x, y, (n + 1) as u128);
        assert(word_bit(x, n) == word_bit(y, n));
        lemma_shr_step(x, y, n);
    }
}

proof fn lemma_shr_step(x: u128, y: u128, m: u128)
    by (bit_vector)
    requires
        m < 127,
        x >> ((m + 1) as u128) == y >> ((m + 1) as u128),
        word_bit(x, m) == word_bit(y, m),
    ensures
        x >> m == y >> m,
{
}

/// Division of a bit index by a supported word width.
proof fn lemma_split_index(i: int, w: int)
    requires
        is_mask_width(w as nat),
        w > 0,
        i >= 0,
    ensures
        i == (i / w) * w + i % w,
        0 <= i % w < w,
        i / w >= 0,
{
    lemma_fundamental_div_mod(i, w);
    lemma_mod_pos_bound(i, w);
    lemma_div_pos_is_pos(i, w);
    assert(w * (i / w) == (i / w) * w) by (nonlinear_arith);
}

/// Joining a word index and a bit position within the word.
proof fn lemma_join_index(k: int, j: int, w: int)
    requires
        is_mask_width(w as nat),
        w > 0,
        k >= 0,
        0 <= j < w,
    ensures
        (k * w + j) / w == k,
        (k * w + j) % w == j,
{
    if w == 8 {
    } else if w == 16 {
    } else if w == 32 {
    } else {
    }
}

proof fn lemma_word_count(n: int, w: int, k: int)
    requires
        is_mask_width(w as nat),
        w > 0,
        n >= 0,
        0 <= k,
    ensures
        k < words_for(n as nat, w as nat) <==> k * w < n,
{
    let m = n + w - 1;
    let q = m / w;
    let r = m % w;
    lemma_fundamental_div_mod(m, w);
    lemma_mod_pos_bound(m, w);
    assert(words_for(n as nat, w as nat) == q);
    if k < q {
        assert(k * w <= (q - 1) * w) by (nonlinear_arith)
            requires
                k <= q - 1,
                w > 0,
        ;
        assert((q - 1) * w == w * q - w) by (nonlinear_arith);
    } else {
        assert(k * w >= q * w) by (nonlinear_arith)
            requires
                k >= q,
                w > 0,
        ;
        assert(q * w == w * q) by (nonlinear_arith);
    }
}

/// A fixed-size set of flags, packed into words of `mask_bits` bits each
/// (stored in `u128`s).
///
/// Bit `i` lives in word `i / mask_bits` at position `i % mask_bits`. Only
/// the low `bit_count` bits are in use; every other bit of every word (the
/// padding of the last word and, for narrow widths, the high bits of each
/// `u128`) stays zero.
#[derive(Debug)]
pub struct Bitmask {
    pub masks: Vec<u128>,
    pub bit_count: u32,
    pub mask_bits: u32,
}

impl View for Bitmask {
    type V = Seq<bool>;

    open spec fn view(&self) -> Seq<bool> {
        Seq::new(self.bit_count as nat, |i: int| self.bit(i))
    }
}

impl Bitmask {
    /// The word width as an integer.
    pub open spec fn width(self) -> int {
        self.mask_bits as int
    }

    /// Bit `i`, read from the words.
    pub open spec fn bit(self, i: int) -> bool {
        word_bit(
            self.masks@[i / self.width()],
            (i % self.width()) as u128,
        )
    }

    /// Whether position `j` of word `k` stands for one of the `bit_count` bits.
    pub open spec fn valid_bit(self, k: int, j: int) -> bool {
        bit_in_use(self.bit_count as nat, self.mask_bits as nat, k, j)
    }

    /// The sizes are consistent: `bit_count` fits the arithmetic that counts bits.
    pub open spec fn shape_ok(bit_count: nat, mask_bits: nat) -> bool {
        is_mask_width(mask_bits) && bit_count + 128 <= u32::MAX
    }

    /// Well-formedness: the word count matches the bit count and every bit
    /// outside the used positions is zero.
    pub open spec fn wf(self) -> bool {
        &&& Self::shape_ok(self.bit_count as nat, self.mask_bits as nat)
        &&& self.masks@.len() == words_for(self.bit_count as nat, self.mask_bits as nat)
        &&& forall|k: int, j: u128|
            0 <= k < self.masks@.len() && j < 128 && #[trigger] word_bit(self.masks@[k], j)
                ==> self.valid_bit(k, j as int)
    }

    /// Same bit count and word width.
    pub open spec fn same_shape(self, other: Bitmask) -> bool {
        self.bit_count == other.bit_count && self.mask_bits == other.mask_bits
    }

    proof fn lemma_bit_position(self, i: int)
        requires
            self.wf(),
            0 <= i < self.bit_count,
        ensures
            0 <= i / self.width() < self.masks@.len(),
            0 <= i % self.width() < self.mask_bits,
            self.valid_bit(i / self.width(), i % self.width()),
    {
        let w = self.width();
        lemma_split_index(i, w);
        lemma_word_count(self.bit_count as int, w, i / w);
        assert((i / w) * w <= i);
    }

    /// Creates an empty set of `bit_count` flags in words of `mask_bits` bits.
    pub fn zero(bit_count: u32, mask_bits: u32) -> (r: Bitmask)
        requires
            Self::shape_ok(bit_count as nat, mask_bits as nat),
        ensures
            r.wf(),
            r.bit_count == bit_count,
            r.mask_bits == mask_bits,
            r@ == Seq::new(bit_count as nat, |i: int| false),
    {
        let count: u32 = (bit_count + (mask_bits - 1)) / mask_bits;
        let mut masks: Vec<u128> = Vec::new();
        let mut k: u32 = 0;
        proof {
            lemma_zero_word();
        }
        while k < count
            invariant
                count == words_for(bit_count as nat, mask_bits as nat),
                k <= count,
                masks@.len() == k,
                forall|kk: int| 0 <= kk < k ==> masks@[kk] == 0u128,
            decreases count - k,
        {
            masks.push(0u128);
            k = k + 1;
        }
        let r = Bitmask { masks, bit_count, mask_bits };
        proof {
            assert forall|i: int| 0 <= i < bit_count implies !r.bit(i) by {
                r.lemma_bit_position(i);
            }
            assert(r@ =~= Seq::new(bit_count as nat, |i: int| false));
        }
        r
    }

    /// Creates an empty set of `bit_count` flags in 64-bit words.
    pub fn new(bit_count: u32) -> (r: Bitmask)
        requires
            Self::shape_ok(bit_count as nat, BITMASK_BITS as nat),
        ensures
            r.wf(),
            r.bit_count == bit_count,
            r.mask_bits == BITMASK_BITS,
            r@ == Seq::new(bit_count as nat, |i: int| false),
    {
        Self::zero(bit_count, BITMASK_BITS)
    }
}

/// The word index and the bit position within the word of bit `index`.
fn mask_indices(index: u32, mask_bits: u32) -> (r: (usize, u32))
    requires
        mask_bits > 0,
    ensures
        r.0 == index / mask_bits,
        r.1 == index % mask_bits,
{
    let mask_index = index / mask_bits;
    let bit_index = index % mask_bits;
    (mask_index as usize, bit_index)
}

impl Bitmask {
    /// A bitmask whose words hold, at each used position, what `g` says of
    /// it, and zero elsewhere, is well formed and holds `g` bit by bit.
    proof fn lemma_from_words(r: Bitmask, g: spec_fn(int, u128) -> bool)
        requires
            Self::shape_ok(r.bit_count as nat, r.mask_bits as nat),
            r.masks@.len() == words_for(r.bit_count as nat, r.mask_bits as nat),
            forall|k: int, j: u128|
                0 <= k < r.masks@.len() && j < 128 ==> #[trigger] word_bit(r.masks@[k], j) == (g(
                    k,
                    j,
                ) && r.valid_bit(k, j as int)),
        ensures
            r.wf(),
            forall|i: int|
                0 <= i < r.bit_count ==> #[trigger] r@[i] == g(
                    i / r.width(),
                    (i % r.width()) as u128,
                ),
    {
        assert forall|i: int| 0 <= i < r.bit_count implies #[trigger] r@[i] == g(
            i / r.width(),
            (i % r.width()) as u128,
        ) by {
            r.lemma_bit_position(i);
        }
    }

    /// Two well-formed bitmasks of one shape with the same bits have the same words.
    pub proof fn lemma_view_eq(a: Bitmask, b: Bitmask)
        requires
            a.wf(),
            b.wf(),
            a.same_shape(b),
            a@ == b@,
        ensures
            a.masks@ == b.masks@,
    {
        let w = a.width();
        assert forall|k: int| 0 <= k < a.masks@.len() implies a.masks@[k] == b.masks@[k] by {
            assert forall|j: u128| j < 128 implies #[trigger] word_bit(a.masks@[k], j) == word_bit(
                b.masks@[k],
                j,
            ) by {
                if a.valid_bit(k, j as int) {
                    let i = k * w + j;
                    lemma_join_index(k, j as int, w);
                    assert(a@[i] == a.bit(i));
                    assert(b@[i] == b.bit(i));
                    assert(a@[i] == b@[i]);
                } else {
                    assert(!word_bit(a.masks@[k], j));
                    assert(!word_bit(b.masks@[k], j));
                }
            }
            lemma_word_ext(a.masks@[k], b.masks@[k]);
        }
        assert(a.masks@ =~= b.masks@);
    }

    /// Reads bit `index`.
    pub fn get_bit(&self, index: u32) -> (r: bool)
        requires
            self.wf(),
            index < self.bit_count,
        ensures
            r == self@[index as int],
    {
        proof {
            self.lemma_bit_position(index as int);
        }
        let (mask, bit) = mask_indices(index, self.mask_bits);
        let bitmask: u128 = 1u128 << bit;
        proof {
            lemma_single_bit(bit as u128);
            lemma_bit_ops(self.masks@[mask as int], bitmask);
            let x = self.masks@[mask as int];
            assert(((x & (1u128 << bit)) == (1u128 << bit)) == word_bit(x, bit as u128)) by (bit_vector)
                requires
                    bit < 128,
            ;
        }
        (self.masks[mask] & bitmask) == bitmask
    }

    /// Sets bit `index` to `on`.
    pub fn set_bit(&mut self, index: u32, on: bool)
        requires
            old(self).wf(),
            index < old(self).bit_count,
        ensures
            final(self).wf(),
            final(self).same_shape(*old(self)),
            final(self)@ == old(self)@.update(index as int, on),
    {
        proof {
            self.lemma_bit_position(index as int);
        }
        let ghost before = *self;
        let (mask, bit) = mask_indices(index, self.mask_bits);
        let bitmask: u128 = 1u128 << bit;
        let word = self.masks[mask];
        let new_word = if on {
            word | bitmask
        } else {
            word & !bitmask
        };
        proof {
            lemma_single_bit(bit as u128);
            lemma_bit_ops(word, bitmask);
            lemma_bit_ops(bitmask, 0);
            lemma_bit_ops(word, !bitmask);
        }
        self.masks.set(mask, new_word);
        proof {
            let m = mask as int;
            let b = bit as u128;
            let g = |k: int, j: u128|
                if k == m && j == b {
                    on
                } else {
                    word_bit(before.masks@[k], j)
                };
            assert forall|k: int, j: u128| 0 <= k < self.masks@.len() && j < 128 implies #[trigger] word_bit(
                self.masks@[k],
                j,
            ) == (g(k, j) && self.valid_bit(k, j as int)) by {
                if k == m {
                    assert(word_bit(!bitmask, j) == !word_bit(bitmask, j));
                    if j == b {
                        assert(self.valid_bit(k, j as int));
                    } else {
                        assert(word_bit(self.masks@[k], j) == word_bit(word, j));
                        if word_bit(word, j) {
                            assert(before.valid_bit(k, j as int));
                        }
                    }
                } else {
                    assert(self.masks@[k] == before.masks@[k]);
                    if word_bit(before.masks@[k], j) {
                        assert(before.valid_bit(k, j as int));
                    }
                }
            }
            Self::lemma_from_words(*self, g);
            assert forall|i: int| 0 <= i < self.bit_count implies #[trigger] self@[i] == before@.update(
                index as int,
                on,
            )[i] by {
                before.lemma_bit_position(i);
                lemma_split_index(i, self.width());
                lemma_split_index(index as int, self.width());
            }
            assert(self@ =~= before@.update(index as int, on));
        }
    }

    /// Returns `self` with bit `index` set.
    pub fn with_bit(self, index: u32) -> (r: Bitmask)
        requires
            self.wf(),
            index < self.bit_count,
        ensures
            r.wf(),
            r.same_shape(self),
            r@ == self@.update(index as int, true),
    {
        let mut r = self;
        r.set_bit(index, true);
        r
    }

    /// A set of `bit_count` flags in 64-bit words with only bit `bit_index` set.
    pub fn new_flag(bit_count: u32, bit_index: u32) -> (r: Bitmask)
        requires
            Self::shape_ok(bit_count as nat, BITMASK_BITS as nat),
            bit_index < bit_count,
        ensures
            r.wf(),
            r.bit_count == bit_count,
            r.mask_bits == BITMASK_BITS,
            r@ == Seq::new(bit_count as nat, |i: int| i == bit_index),
    {
        let r = Self::new(bit_count).with_bit(bit_index);
        assert(r@ =~= Seq::new(bit_count as nat, |i: int| i == bit_index));
        r
    }
}

/// The word-wise boolean operations of the engine.
#[derive(Clone, Copy, Debug, PartialEq, Eq, Structural)]
pub enum BitOp {
    Not,
    And,
    Or,
    Xor,
    Nand,
    Nor,
    Xnor,
    Imply,
    Nimply,
}

impl BitOp {
    /// The truth table of the operation (`Not` ignores its second input).
    pub open spec fn spec_apply(self, a: bool, b: bool) -> bool {
        match self {
            BitOp::Not => !a,
            BitOp::And => a && b,
            BitOp::Or => a || b,
            BitOp::Xor => a != b,
            BitOp::Nand => !(a && b),
            BitOp::Nor => !(a || b),
            BitOp::Xnor => a == b,
            BitOp::Imply => !a || b,
            BitOp::Nimply => a && !b,
        }
    }

    /// Whether the operation turns two zero bits into a one, so that its
    /// result must be masked to keep the unused bits at zero.
    pub fn needs_tail_mask(self) -> (r: bool)
        ensures
            r == self.spec_apply(false, false),
    {
        match self {
            BitOp::Not | BitOp::Nand | BitOp::Nor | BitOp::Xnor | BitOp::Imply => true,
            BitOp::And | BitOp::Or | BitOp::Xor | BitOp::Nimply => false,
        }
    }

    /// Applies the operation to every bit of two words.
    pub fn apply_word(self, a: u128, b: u128) -> (r: u128)
        ensures
            forall|j: u128| j < 128 ==> #[trigger] word_bit(r, j) == self.spec_apply(word_bit(a, j), word_bit(b, j)),
    {
        let r = match self {
            BitOp::Not => !a,
            BitOp::And => a & b,
            BitOp::Or => a | b,
            BitOp::Xor => a ^ b,
            BitOp::Nand => !(a & b),
            BitOp::Nor => !(a | b),
            BitOp::Xnor => !(a ^ b),
            BitOp::Imply => !a | b,
            BitOp::Nimply => a & !b,
        };
        proof {
            lemma_bit_ops(a, b);
            lemma_bit_ops(!a, b);
            lemma_bit_ops(a, !b);
            lemma_bit_ops(a & b, 0);
            lemma_bit_ops(a | b, 0);
            lemma_bit_ops(a ^ b, 0);
            lemma_bit_ops(b, 0);
            assert forall|j: u128| j < 128 implies #[trigger] word_bit(r, j) == self.spec_apply(
                word_bit(a, j),
                word_bit(b, j),
            ) by {
                match self {
                    BitOp::Not => assert(word_bit(r, j) == !word_bit(a, j)),
                    BitOp::And => assert(word_bit(r, j) == (word_bit(a, j) && word_bit(b, j))),
                    BitOp::Or => assert(word_bit(r, j) == (word_bit(a, j) || word_bit(b, j))),
                    BitOp::Xor => assert(word_bit(r, j) == (word_bit(a, j) != word_bit(b, j))),
                    BitOp::Nand => assert(word_bit(r, j) == !(word_bit(a, j) && word_bit(b, j))),
                    BitOp::Nor => assert(word_bit(r, j) == !(word_bit(a, j) || word_bit(b, j))),
                    BitOp::Xnor => assert(word_bit(r, j) == (word_bit(a, j) == word_bit(b, j))),
                    BitOp::Imply => assert(word_bit(r, j) == (!word_bit(a, j) || word_bit(b, j))),
                    BitOp::Nimply => assert(word_bit(r, j) == (word_bit(a, j) && !word_bit(b, j))),
                }
            }
        }
        r
    }
}

/// Bit-by-bit combination of two equally long bit sequences.
pub open spec fn zip_bits(a: Seq<bool>, b: Seq<bool>, op: BitOp) -> Seq<bool> {
    Seq::new(a.len(), |i: int| op.spec_apply(a[i], b[i]))
}

impl Bitmask {
    /// The word that has a one at exactly the used positions of word `k`
    /// (the tail mask, for the last word).
    fn valid_word_mask(&self, k: usize) -> (r: u128)
        requires
            Self::shape_ok(self.bit_count as nat, self.mask_bits as nat),
            k < words_for(self.bit_count as nat, self.mask_bits as nat),
        ensures
            forall|j: u128| j < 128 ==> #[trigger] word_bit(r, j) == self.valid_bit(k as int, j as int),
    {
        proof {
            lemma_word_count(self.bit_count as int, self.width(), k as int);
            assert(k * self.mask_bits <= self.bit_count);
        }
        let start: u32 = (k as u32) * self.mask_bits;
        let rest: u32 = self.bit_count - start;
        let used: u32 = if rest < self.mask_bits {
            rest
        } else {
            self.mask_bits
        };
        if used == 128 {
            proof {
                lemma_zero_word();
            }
            0xffff_ffff_ffff_ffff_ffff_ffff_ffff_ffffu128
        } else {
            proof {
                lemma_low_bits(used as u128);
            }
            (1u128 << used) - 1
        }
    }

    /// Combines `self` and `other` word by word with `op`, clearing the
    /// unused bits again where `op` can set them.
    pub fn combine(&self, other: &Bitmask, op: BitOp) -> (r: Bitmask)
        requires
            self.wf(),
            other.wf(),
            self.same_shape(*other),
        ensures
            r.wf(),
            r.same_shape(*self),
            r@ == zip_bits(self@, other@, op),
    {
        let masked = op.needs_tail_mask();
        let mut masks: Vec<u128> = Vec::new();
        let mut k: usize = 0;
        let n = self.masks.len();
        while k < n
            invariant
                self.wf(),
                other.wf(),
                self.same_shape(*other),
                masked == op.spec_apply(false, false),
                n == self.masks@.len(),
                k <= n,
                masks@.len() == k,
                forall|kk: int, j: u128|
                    0 <= kk < k && j < 128 ==> #[trigger] word_bit(masks@[kk], j) == (op.spec_apply(
                        word_bit(self.masks@[kk], j),
                        word_bit(other.masks@[kk], j),
                    ) && self.valid_bit(kk, j as int)),
            decreases n - k,
        {
            let word = op.apply_word(self.masks[k], other.masks[k]);
            let word = if masked {
                let valid = self.valid_word_mask(k);
                proof {
                    lemma_bit_ops(word, valid);
                }
                word & valid
            } else {
                proof {
                    assert forall|j: u128| j < 128 && word_bit(word, j) implies self.valid_bit(
                        k as int,
                        j as int,
                    ) by {
                        if !self.valid_bit(k as int, j as int) {
                            assert(!word_bit(self.masks@[k as int], j));
                            assert(!word_bit(other.masks@[k as int], j));
                        }
                    }
                }
                word
            };
            masks.push(word);
            k = k + 1;
        }
        let r = Bitmask { masks, bit_count: self.bit_count, mask_bits: self.mask_bits };
        proof {
            let g = |kk: int, j: u128|
                op.spec_apply(word_bit(self.masks@[kk], j), word_bit(other.masks@[kk], j));
            Self::lemma_from_words(r, g);
            assert forall|i: int| 0 <= i < r.bit_count implies #[trigger] r@[i] == zip_bits(
                self@,
                other@,
                op,
            )[i] by {
                assert(self@[i] == self.bit(i));
                assert(other@[i] == other.bit(i));
            }
            assert(r@ =~= zip_bits(self@, other@, op));
        }
        r
    }

    /// Adds every flag of `other`.
    pub fn add(&mut self, other: &Bitmask)
        requires
            old(self).wf(),
            other.wf(),
            old(self).same_shape(*other),
        ensures
            final(self).wf(),
            final(self).same_shape(*old(self)),
            final(self)@ == Seq::new(old(self)@.len(), |i: int| old(self)@[i] || other@[i]),
    {
        let r = self.combine(other, BitOp::Or);
        proof {
            assert(r@ =~= Seq::new(self@.len(), |i: int| self@[i] || other@[i]));
        }
        *self = r;
    }

    /// Removes every flag of `other`.
    pub fn remove(&mut self, other: &Bitmask)
        requires
            old(self).wf(),
            other.wf(),
            old(self).same_shape(*other),
        ensures
            final(self).wf(),
            final(self).same_shape(*old(self)),
            final(self)@ == Seq::new(old(self)@.len(), |i: int| old(self)@[i] && !other@[i]),
    {
        let r = self.combine(other, BitOp::Nimply);
        proof {
            assert(r@ =~= Seq::new(self@.len(), |i: int| self@[i] && !other@[i]));
        }
        *self = r;
    }
}

impl Bitmask {
    /// Bitwise NOT: the flags that `self` lacks.
    pub fn not(&self) -> (r: Bitmask)
        requires
            self.wf(),
        ensures
            r.wf(),
            r.same_shape(*self),
            r@ == complement(self@),
    {
        let r = self.combine(self, BitOp::Not);
        assert(r@ =~= complement(self@));
        r
    }

    /// Bitwise AND: the flags in both.
    pub fn and(&self, other: &Bitmask) -> (r: Bitmask)
        requires
            self.wf(),
            other.wf(),
            self.same_shape(*other),
        ensures
            r.wf(),
            r.same_shape(*self),
            r@ == Seq::new(self@.len(), |i: int| self@[i] && other@[i]),
    {
        let r = self.combine(other, BitOp::And);
        assert(r@ =~= Seq::new(self@.len(), |i: int| self@[i] && other@[i]));
        r
    }

    /// Bitwise OR: the flags in either.
    pub fn or(&self, other: &Bitmask) -> (r: Bitmask)
        requires
            self.wf(),
            other.wf(),
            self.same_shape(*other),
        ensures
            r.wf(),
            r.same_shape(*self),
            r@ == Seq::new(self@.len(), |i: int| self@[i] || other@[i]),
    {
        let r = self.combine(other, BitOp::Or);
        assert(r@ =~= Seq::new(self@.len(), |i: int| self@[i] || other@[i]));
        r
    }

    /// Bitwise XOR: the flags in exactly one.
    pub fn xor(&self, other: &Bitmask) -> (r: Bitmask)
        requires
            self.wf(),
            other.wf(),
            self.same_shape(*other),
        ensures
            r.wf(),
            r.same_shape(*self),
            r@ == Seq::new(self@.len(), |i: int| self@[i] != other@[i]),
    {
        let r = self.combine(other, BitOp::Xor);
        assert(r@ =~= Seq::new(self@.len(), |i: int| self@[i] != other@[i]));
        r
    }

    /// Bitwise NAND: the flags not in both.
    pub fn nand(&self, other: &Bitmask) -> (r: Bitmask)
        requires
            self.wf(),
            other.wf(),
            self.same_shape(*other),
        ensures
            r.wf(),
            r.same_shape(*self),
            r@ == Seq::new(self@.len(), |i: int| !(self@[i] && other@[i])),
    {
        let r = self.combine(other, BitOp::Nand);
        assert(r@ =~= Seq::new(self@.len(), |i: int| !(self@[i] && other@[i])));
        r
    }

    /// Bitwise NOR: the flags in neither.
    pub fn nor(&self, other: &Bitmask) -> (r: Bitmask)
        requires
            self.wf(),
            other.wf(),
            self.same_shape(*other),
        ensures
            r.wf(),
            r.same_shape(*self),
            r@ == Seq::new(self@.len(), |i: int| !(self@[i] || other@[i])),
    {
        let r = self.combine(other, BitOp::Nor);
        assert(r@ =~= Seq::new(self@.len(), |i: int| !(self@[i] || other@[i])));
        r
    }

    /// Bitwise XNOR: the flags in both or in neither.
    pub fn xnor(&self, other: &Bitmask) -> (r: Bitmask)
        requires
            self.wf(),
            other.wf(),
            self.same_shape(*other),
        ensures
            r.wf(),
            r.same_shape(*self),
            r@ == Seq::new(self@.len(), |i: int| self@[i] == other@[i]),
    {
        let r = self.combine(other, BitOp::Xnor);
        assert(r@ =~= Seq::new(self@.len(), |i: int| self@[i] == other@[i]));
        r
    }

    /// Bitwise IMPLY: the flags that are in `other` or not in `self`.
    pub fn imply(&self, other: &Bitmask) -> (r: Bitmask)
        requires
            self.wf(),
            other.wf(),
            self.same_shape(*other),
        ensures
            r.wf(),
            r.same_shape(*self),
            r@ == Seq::new(self@.len(), |i: int| !self@[i] || other@[i]),
    {
        let r = self.combine(other, BitOp::Imply);
        assert(r@ =~= Seq::new(self@.len(), |i: int| !self@[i] || other@[i]));
        r
    }

    /// Bitwise NIMPLY: the flags in `self` and not in `other`.
    pub fn nimply(&self, other: &Bitmask) -> (r: Bitmask)
        requires
            self.wf(),
            other.wf(),
            self.same_shape(*other),
        ensures
            r.wf(),
            r.same_shape(*self),
            r@ == Seq::new(self@.len(), |i: int| self@[i] && !other@[i]),
    {
        let r = self.combine(other, BitOp::Nimply);
        assert(r@ =~= Seq::new(self@.len(), |i: int| self@[i] && !other@[i]));
        r
    }
}

/// The sequence with every bit flipped.
pub open spec fn complement(s: Seq<bool>) -> Seq<bool> {
    Seq::new(s.len(), |i: int| !s[i])
}

/// Every bit set in `b` is set in `a`.
pub open spec fn contains_all(a: Seq<bool>, b: Seq<bool>) -> bool {
    forall|i: int| 0 <= i < b.len() && #[trigger] b[i] ==> a[i]
}

/// No bit set in `b` is set in `a`.
pub open spec fn contains_none(a: Seq<bool>, b: Seq<bool>) -> bool {
    forall|i: int| 0 <= i < b.len() && #[trigger] b[i] ==> !a[i]
}

/// Some bit set in `b` is set in `a`.
pub open spec fn contains_any(a: Seq<bool>, b: Seq<bool>) -> bool {
    exists|i: int| 0 <= i < b.len() && #[trigger] b[i] && a[i]
}

/// The number of set bits.
pub open spec fn count_true(s: Seq<bool>) -> nat
    decreases s.len(),
{
    if s.len() == 0 {
        0
    } else {
        count_true(s.drop_last()) + if s.last() {
            1nat
        } else {
            0nat
        }
    }
}

proof fn lemma_count_true_bound(s: Seq<bool>)
    ensures
        count_true(s) <= s.len(),
    decreases s.len(),
{
    if s.len() > 0 {
        lemma_count_true_bound(s.drop_last());
    }
}

/// A run of `r` bits equal to `v` at the low end of `s`, ending at the end
/// of `s` or at a bit that differs.
pub open spec fn is_trailing_run(s: Seq<bool>, v: bool, r: nat) -> bool {
    &&& r <= s.len()
    &&& forall|i: int| 0 <= i < r ==> #[trigger] s[i] == v
    &&& (r == s.len() || s[r as int] != v)
}

/// A run of `r` bits equal to `v` at the high end of `s` (the last
/// positions), ending at the start of `s` or at a bit that differs.
pub open spec fn is_leading_run(s: Seq<bool>, v: bool, r: nat) -> bool {
    &&& r <= s.len()
    &&& forall|i: int| s.len() - r <= i < s.len() ==> #[trigger] s[i] == v
    &&& (r == s.len() || s[s.len() - 1 - r] != v)
}

impl Bitmask {
    /// Creates a set of `bit_count` flags with every flag set.
    pub fn all(bit_count: u32, mask_bits: u32) -> (r: Bitmask)
        requires
            Self::shape_ok(bit_count as nat, mask_bits as nat),
        ensures
            r.wf(),
            r.bit_count == bit_count,
            r.mask_bits == mask_bits,
            r@ == Seq::new(bit_count as nat, |i: int| true),
    {
        let r = Self::zero(bit_count, mask_bits).not();
        assert(r@ =~= Seq::new(bit_count as nat, |i: int| true));
        r
    }

    /// A copy of `self`.
    pub fn duplicate(&self) -> (r: Bitmask)
        ensures
            r.masks@ == self.masks@,
            r.bit_count == self.bit_count,
            r.mask_bits == self.mask_bits,
    {
        let masks = self.masks.clone();
        proof {
            assert(masks@ =~= self.masks@);
        }
        Bitmask { masks, bit_count: self.bit_count, mask_bits: self.mask_bits }
    }

    /// Whether the two sets hold the same flags; compares word by word.
    pub fn eq(&self, other: &Bitmask) -> (r: bool)
        requires
            self.wf(),
            other.wf(),
            self.same_shape(*other),
        ensures
            r == (self@ == other@),
    {
        let n = self.masks.len();
        let mut k: usize = 0;
        while k < n
            invariant
                self.wf(),
                other.wf(),
                self.same_shape(*other),
                n == self.masks@.len(),
                n == other.masks@.len(),
                k <= n,
                forall|kk: int| 0 <= kk < k ==> self.masks@[kk] == other.masks@[kk],
            decreases n - k,
        {
            if self.masks[k] != other.masks[k] {
                proof {
                    if self@ == other@ {
                        Self::lemma_view_eq(*self, *other);
                    }
                }
                return false;
            }
            k = k + 1;
        }
        proof {
            assert(self.masks@ =~= other.masks@);
            assert(self@ =~= other@);
        }
        true
    }

    /// Whether any flag differs.
    pub fn ne(&self, other: &Bitmask) -> (r: bool)
        requires
            self.wf(),
            other.wf(),
            self.same_shape(*other),
        ensures
            r == (self@ != other@),
    {
        !self.eq(other)
    }

    /// Whether no flag is set.
    pub fn is_empty(&self) -> (r: bool)
        requires
            self.wf(),
        ensures
            r == (self@ == Seq::new(self@.len(), |i: int| false)),
    {
        let none = Self::zero(self.bit_count, self.mask_bits);
        self.eq(&none)
    }

    /// Whether every flag of `flag` is set in `self`.
    pub fn has_all(&self, flag: &Bitmask) -> (r: bool)
        requires
            self.wf(),
            flag.wf(),
            self.same_shape(*flag),
        ensures
            r == contains_all(self@, flag@),
    {
        let both = self.and(flag);
        let r = both.eq(flag);
        proof {
            if contains_all(self@, flag@) {
                assert(both@ =~= flag@);
            } else {
                let i = choose|i: int| 0 <= i < flag@.len() && #[trigger] flag@[i] && !self@[i];
                assert(both@[i] != flag@[i]);
            }
        }
        r
    }

    /// Whether no flag of `flag` is set in `self`.
    pub fn has_none(&self, flag: &Bitmask) -> (r: bool)
        requires
            self.wf(),
            flag.wf(),
            self.same_shape(*flag),
        ensures
            r == contains_none(self@, flag@),
    {
        let both = self.and(flag);
        let r = both.is_empty();
        proof {
            if contains_none(self@, flag@) {
                assert(both@ =~= Seq::new(both@.len(), |i: int| false));
            } else {
                let i = choose|i: int| 0 <= i < flag@.len() && #[trigger] flag@[i] && self@[i];
                assert(both@[i]);
            }
        }
        r
    }

    /// Whether some flag of `flag` is set in `self`.
    pub fn has_any(&self, flag: &Bitmask) -> (r: bool)
        requires
            self.wf(),
            flag.wf(),
            self.same_shape(*flag),
        ensures
            r == contains_any(self@, flag@),
    {
        !self.has_none(flag)
    }

    /// Whether some, but not all, flags of `flag` are set in `self`.
    pub fn has_some(&self, flag: &Bitmask) -> (r: bool)
        requires
            self.wf(),
            flag.wf(),
            self.same_shape(*flag),
        ensures
            r == (contains_any(self@, flag@) && !contains_all(self@, flag@)),
    {
        self.has_any(flag) && !self.has_all(flag)
    }

    /// The number of flags set.
    pub fn count_ones(&self) -> (r: u32)
        requires
            self.wf(),
        ensures
            r == count_true(self@),
    {
        let mut count: u32 = 0;
        let mut i: u32 = 0;
        while i < self.bit_count
            invariant
                self.wf(),
                i <= self.bit_count,
                count == count_true(self@.take(i as int)),
                count <= i,
            decreases self.bit_count - i,
        {
            let bit = self.get_bit(i);
            proof {
                assert(self@.take(i + 1).drop_last() =~= self@.take(i as int));
            }
            if bit {
                count = count + 1;
            }
            i = i + 1;
        }
        proof {
            assert(self@.take(i as int) =~= self@);
        }
        count
    }

    /// The number of flags not set: the total bits less the padding and the ones.
    pub fn count_zeros(&self) -> (r: u32)
        requires
            self.wf(),
        ensures
            r == self.bit_count - count_true(self@),
    {
        let ones = self.count_ones();
        proof {
            lemma_count_true_bound(self@);
        }
        self.bit_count - ones
    }

    /// Whether every used bit of word `k` equals `v`: one comparison of the
    /// word with zero or with the word's mask of used bits.
    fn word_is_uniform(&self, k: usize, v: bool) -> (r: bool)
        requires
            self.wf(),
            k < self.masks@.len(),
        ensures
            r == (forall|j: u128| j < 128 && self.valid_bit(k as int, j as int) ==> #[trigger] word_bit(self.masks@[k as int], j) == v),
    {
        let valid = self.valid_word_mask(k);
        let target: u128 = if v {
            valid
        } else {
            0
        };
        proof {
            lemma_zero_word();
            let word = self.masks@[k as int];
            if forall|j: u128| j < 128 && self.valid_bit(k as int, j as int) ==> #[trigger] word_bit(word, j) == v {
                assert forall|j: u128| j < 128 implies #[trigger] word_bit(word, j) == word_bit(target, j) by {
                    if !self.valid_bit(k as int, j as int) {
                        assert(!word_bit(word, j));
                    }
                }
                lemma_word_ext(word, target);
            }
        }
        self.masks[k] == target
    }

    /// The bits of a used word position agree with the view.
    proof fn lemma_word_position(self, k: int, j: int)
        requires
            self.wf(),
            0 <= k,
            0 <= j < self.mask_bits,
            k * self.mask_bits + j < self.bit_count,
        ensures
            0 <= k < self.masks@.len(),
            self.valid_bit(k, j),
            self@[k * self.width() + j] == word_bit(self.masks@[k], j as u128),
    {
        lemma_join_index(k, j, self.width());
        lemma_word_count(self.bit_count as int, self.width(), k);
        assert(k * self.width() >= 0) by (nonlinear_arith)
            requires
                k >= 0,
                self.width() > 0,
        ;
    }

    /// The length of the run of bits equal to `v` from bit 0 upwards:
    /// whole words first, then the bits of the first word that differs.
    fn trailing_run(&self, v: bool) -> (r: u32)
        requires
            self.wf(),
        ensures
            is_trailing_run(self@, v, r as nat),
    {
        let w = self.mask_bits;
        let n = self.bit_count;
        let mut k: usize = 0;
        let mut i: u32 = 0;
        while i + w <= n
            invariant
                self.wf(),
                w == self.mask_bits,
                n == self.bit_count,
                i == k * w,
                i <= n,
                forall|p: int| 0 <= p < i ==> #[trigger] self@[p] == v,
            decreases n - i,
        {
            proof {
                self.lemma_word_position(k as int, 0);
            }
            if !self.word_is_uniform(k, v) {
                break;
            }
            proof {
                assert forall|p: int| 0 <= p < i + w implies #[trigger] self@[p] == v by {
                    if p >= i {
                        self.lemma_word_position(k as int, p - i);
                        assert(k * self.width() + (p - i) == p);
                    }
                }
                assert((k + 1) * w == k * w + w) by (nonlinear_arith);
            }
            i = i + w;
            k = k + 1;
        }
        while i < n
            invariant
                self.wf(),
                n == self.bit_count,
                i <= n,
                forall|p: int| 0 <= p < i ==> #[trigger] self@[p] == v,
            decreases n - i,
        {
            if self.get_bit(i) != v {
                return i;
            }
            i = i + 1;
        }
        i
    }

    /// The length of the run of bits equal to `v` from the highest used bit
    /// downwards: the bits of a partly used last word, then whole words,
    /// then the bits of the first word that differs.
    fn leading_run(&self, v: bool) -> (r: u32)
        requires
            self.wf(),
        ensures
            is_leading_run(self@, v, r as nat),
    {
        let w = self.mask_bits;
        let n = self.bit_count;
        let whole: u32 = (n / w) * w;
        proof {
            lemma_split_index(n as int, w as int);
        }
        let mut r: u32 = 0;
        while r < n - whole
            invariant
                self.wf(),
                n == self.bit_count,
                whole <= n,
                r <= n - whole,
                forall|p: int| n - r <= p < n ==> #[trigger] self@[p] == v,
            decreases n - r,
        {
            if self.get_bit(n - 1 - r) != v {
                return r;
            }
            r = r + 1;
        }
        let mut words: usize = (n / w) as usize;
        while r < n
            invariant
                self.wf(),
                w == self.mask_bits,
                n == self.bit_count,
                r <= n,
                n - r == words * w,
                forall|p: int| n - r <= p < n ==> #[trigger] self@[p] == v,
            decreases words,
        {
            proof {
                assert(words > 0) by (nonlinear_arith)
                    requires
                        n - r == words * w,
                        r < n,
                ;
                assert((words - 1) * w == words * w - w) by (nonlinear_arith);
                self.lemma_word_position((words - 1) as int, 0);
            }
            if !self.word_is_uniform(words - 1, v) {
                break;
            }
            proof {
                let base = (words - 1) * w;
                assert forall|p: int| n - r - w <= p < n implies #[trigger] self@[p] == v by {
                    if p < n - r {
                        self.lemma_word_position((words - 1) as int, p - base);
                        assert((words - 1) * self.width() + (p - base) == p);
                    }
                }
            }
            r = r + w;
            words = words - 1;
        }
        while r < n
            invariant
                self.wf(),
                n == self.bit_count,
                r <= n,
                forall|p: int| n - r <= p < n ==> #[trigger] self@[p] == v,
            decreases n - r,
        {
            if self.get_bit(n - 1 - r) != v {
                return r;
            }
            r = r + 1;
        }
        r
    }

    /// The number of unset flags below the lowest set one (all flags when none is set).
    pub fn trailing_zeros(&self) -> (r: u32)
        requires
            self.wf(),
        ensures
            is_trailing_run(self@, false, r as nat),
    {
        self.trailing_run(false)
    }

    /// The number of set flags below the lowest unset one.
    pub fn trailing_ones(&self) -> (r: u32)
        requires
            self.wf(),
        ensures
            is_trailing_run(self@, true, r as nat),
    {
        self.trailing_run(true)
    }

    /// The number of unset flags above the highest set one, counted from the
    /// highest used bit (padding bits do not count).
    pub fn leading_zeros(&self) -> (r: u32)
        requires
            self.wf(),
        ensures
            is_leading_run(self@, false, r as nat),
    {
        self.leading_run(false)
    }

    /// The number of set flags above the highest unset one, counted from the
    /// highest used bit (padding bits do not count).
    pub fn leading_ones(&self) -> (r: u32)
        requires
            self.wf(),
        ensures
            is_leading_run(self@, true, r as nat),
    {
        self.leading_run(true)
    }

    /// Bit `index`, or `OutOfRange` when `index` is not below the flag count.
    pub fn get(&self, index: u32) -> (r: Result<bool, FlagError>)
        requires
            self.wf(),
        ensures
            index < self.bit_count ==> r == Ok::<bool, FlagError>(self@[index as int]),
            index >= self.bit_count ==> r == Err::<bool, FlagError>(
                FlagError::OutOfRange { index, bit_count: self.bit_count },
            ),
    {
        if index < self.bit_count {
            Ok(self.get_bit(index))
        } else {
            Err(FlagError::OutOfRange { index, bit_count: self.bit_count })
        }
    }

    /// Sets bit `index` to `on`; `OutOfRange`, with `self` unchanged, when
    /// `index` is not below the flag count.
    pub fn set(&mut self, index: u32, on: bool) -> (r: Result<(), FlagError>)
        requires
            old(self).wf(),
        ensures
            final(self).wf(),
            final(self).same_shape(*old(self)),
            index < old(self).bit_count ==> r is Ok && final(self)@ == old(self)@.update(
                index as int,
                on,
            ),
            index >= old(self).bit_count ==> r == Err::<(), FlagError>(
                FlagError::OutOfRange { index, bit_count: old(self).bit_count },
            ) && *final(self) == *old(self),
    {
        if index < self.bit_count {
            self.set_bit(index, on);
            Ok(())
        } else {
            Err(FlagError::OutOfRange { index, bit_count: self.bit_count })
        }
    }

    /// Sets bit `index` to `on` and returns its previous value; `OutOfRange`,
    /// with `self` unchanged, when `index` is not below the flag count.
    pub fn swap(&mut self, index: u32, on: bool) -> (r: Result<bool, FlagError>)
        requires
            old(self).wf(),
        ensures
            final(self).wf(),
            final(self).same_shape(*old(self)),
            index < old(self).bit_count ==> r == Ok::<bool, FlagError>(old(self)@[index as int])
                && final(self)@ == old(self)@.update(index as int, on),
            index >= old(self).bit_count ==> r == Err::<bool, FlagError>(
                FlagError::OutOfRange { index, bit_count: old(self).bit_count },
            ) && *final(self) == *old(self),
    {
        if index < self.bit_count {
            let previous = self.get_bit(index);
            self.set_bit(index, on);
            Ok(previous)
        } else {
            Err(FlagError::OutOfRange { index, bit_count: self.bit_count })
        }
    }

    /// The set with only flag `index`; `OutOfRange` when `index` is not
    /// below `bit_count`.
    pub fn from_index(bit_count: u32, mask_bits: u32, index: u32) -> (r: Result<Bitmask, FlagError>)
        requires
            Self::shape_ok(bit_count as nat, mask_bits as nat),
        ensures
            index < bit_count ==> r is Ok && r->Ok_0.wf() && r->Ok_0.bit_count == bit_count
                && r->Ok_0.mask_bits == mask_bits && r->Ok_0@ == Seq::new(
                bit_count as nat,
                |i: int| i == index,
            ),
            index >= bit_count ==> r == Err::<Bitmask, FlagError>(
                FlagError::OutOfRange { index, bit_count },
            ),
    {
        if index < bit_count {
            let r = Self::zero(bit_count, mask_bits).with_bit(index);
            assert(r@ =~= Seq::new(bit_count as nat, |i: int| i == index));
            Ok(r)
        } else {
            Err(FlagError::OutOfRange { index, bit_count })
        }
    }
}

/// The bytes of the words `ws`, `n` bytes per word, in word order.
pub open spec fn encode_words(ws: Seq<u128>, n: nat, big: bool) -> Seq<u8>
    decreases ws.len(),
{
    if ws.len() == 0 {
        Seq::empty()
    } else {
        encode_words(ws.drop_last(), n, big) + word_bytes(ws.last() as nat, n, big)
    }
}

/// The words of a bitmask of `bit_count` bits in words of `mask_bits` bits
/// read from `bytes`: none when the length is wrong or a word has a bit set
/// outside the used positions.
pub open spec fn decode_words(bytes: Seq<u8>, bit_count: nat, mask_bits: nat, big: bool) -> Option<
    Seq<u128>,
> {
    let n = mask_bits / 8;
    let count = words_for(bit_count, mask_bits);
    let ws = Seq::new(
        count,
        |k: int| bytes_value(bytes.subrange(k * n, k * n + n), big) as u128,
    );
    if bytes.len() == count * n && forall|k: int|
        0 <= k < count ==> #[trigger] bytes_value(bytes.subrange(k * n, k * n + n), big)
            < byte_bound(n) && word_fits(ws[k], bit_count, mask_bits, k) {
        Some(ws)
    } else {
        None
    }
}

proof fn lemma_encode_len(ws: Seq<u128>, n: nat, big: bool)
    ensures
        encode_words(ws, n, big).len() == ws.len() * n,
    decreases ws.len(),
{
    if ws.len() > 0 {
        lemma_encode_len(ws.drop_last(), n, big);
        lemma_word_bytes_len(ws.last() as nat, n, big);
        assert((ws.len() - 1) * n + n == ws.len() * n) by (nonlinear_arith);
    }
}

/// Word `k` is found at bytes `k * n .. k * n + n` of the encoding.
proof fn lemma_encode_slice(ws: Seq<u128>, n: nat, big: bool, k: int)
    requires
        0 <= k < ws.len(),
    ensures
        encode_words(ws, n, big).subrange(k * n, k * n + n) == word_bytes(ws[k] as nat, n, big),
    decreases ws.len(),
{
    let prefix = encode_words(ws.drop_last(), n, big);
    lemma_encode_len(ws.drop_last(), n, big);
    lemma_word_bytes_len(ws.last() as nat, n, big);
    let whole = encode_words(ws, n, big);
    if k == ws.len() - 1 {
        assert(k * n == prefix.len());
        assert(whole.subrange(k * n, k * n + n) =~= word_bytes(ws[k] as nat, n, big));
    } else {
        lemma_encode_slice(ws.drop_last(), n, big, k);
        assert(k * n + n <= (ws.len() - 1) * n) by (nonlinear_arith)
            requires
                k + 1 <= ws.len() - 1,
        ;
        assert(k * n >= 0) by (nonlinear_arith)
            requires
                k >= 0,
        ;
        assert(whole.subrange(k * n, k * n + n) =~= prefix.subrange(k * n, k * n + n));
    }
}

/// A word of a well-formed bitmask fits in `mask_bits / 8` bytes.
proof fn lemma_word_in_bytes(x: u128, w: u128)
    requires
        is_mask_width(w as nat),
        forall|j: u128| j < 128 && #[trigger] word_bit(x, j) ==> j < w,
    ensures
        (x as nat) < byte_bound((w / 8) as nat),
{
    lemma_byte_bound_sixteen();
    if w < 128 {
        assert(forall|j: u128| j < 128 ==> #[trigger] word_bit(x >> w, j) == (j + w < 128 && word_bit(x, (j + w) as u128))) by (bit_vector)
            requires
                w < 128,
        ;
        lemma_zero_word();
        lemma_word_ext(x >> w, 0u128);
        reveal_with_fuel(byte_bound, 9);
        if w == 8 {
            assert(x >> 8 == 0 ==> x < 0x100) by (bit_vector);
        } else if w == 16 {
            assert(x >> 16 == 0 ==> x < 0x1_0000) by (bit_vector);
        } else if w == 32 {
            assert(x >> 32 == 0 ==> x < 0x1_0000_0000) by (bit_vector);
        } else {
            assert(x >> 64 == 0 ==> x < 0x1_0000_0000_0000_0000) by (bit_vector);
        }
    }
}

/// Writing a well-formed bitmask's words to bytes and reading them back, in
/// any byte order, gives the same words.
pub proof fn lemma_bytes_round_trip(v: Bitmask, order: ByteOrder)
    requires
        v.wf(),
    ensures
        decode_words(
            encode_words(v.masks@, (v.mask_bits / 8) as nat, is_big(order)),
            v.bit_count as nat,
            v.mask_bits as nat,
            is_big(order),
        ) == Some(v.masks@),
{
    let n = (v.mask_bits / 8) as nat;
    let big = is_big(order);
    let bytes = encode_words(v.masks@, n, big);
    let count = words_for(v.bit_count as nat, v.mask_bits as nat);
    lemma_encode_len(v.masks@, n, big);
    assert forall|k: int| 0 <= k < count implies #[trigger] bytes_value(
        bytes.subrange(k * n, k * n + n),
        big,
    ) == v.masks@[k] as nat && bytes_value(bytes.subrange(k * n, k * n + n), big) < byte_bound(n)
        && word_fits(v.masks@[k], v.bit_count as nat, v.mask_bits as nat, k) by {
        lemma_encode_slice(v.masks@, n, big, k);
        assert forall|j: u128| j < 128 && #[trigger] word_bit(v.masks@[k], j) implies j < v.mask_bits by {
            assert(v.valid_bit(k, j as int));
        }
        lemma_word_in_bytes(v.masks@[k], v.mask_bits as u128);
        lemma_word_round_trip(v.masks@[k] as nat, n, big);
        assert forall|j: u128| j < 128 && #[trigger] word_bit(v.masks@[k], j) implies bit_in_use(
            v.bit_count as nat,
            v.mask_bits as nat,
            k,
            j as int,
        ) by {
            assert(v.valid_bit(k, j as int));
        }
    }
    let ws = Seq::new(
        count,
        |k: int| bytes_value(bytes.subrange(k * n, k * n + n), big) as u128,
    );
    assert(ws =~= v.masks@);
}

impl Bitmask {
    /// The words of `self`, `mask_bits / 8` bytes each, in word order, each
    /// word's bytes in the given order.
    pub fn to_bytes(&self, order: ByteOrder) -> (r: Vec<u8>)
        requires
            self.wf(),
        ensures
            r@ == encode_words(self.masks@, (self.mask_bits / 8) as nat, is_big(order)),
    {
        let big = order_is_big(order);
        let n: usize = (self.mask_bits / 8) as usize;
        let mut out: Vec<u8> = Vec::new();
        let mut k: usize = 0;
        while k < self.masks.len()
            invariant
                k <= self.masks@.len(),
                n == self.mask_bits / 8,
                big == is_big(order),
                out@ == encode_words(self.masks@.take(k as int), n as nat, big),
            decreases self.masks@.len() - k,
        {
            proof {
                assert(self.masks@.take(k + 1).drop_last() =~= self.masks@.take(k as int));
            }
            push_word_bytes(&mut out, self.masks[k], n, big);
            k = k + 1;
        }
        proof {
            assert(self.masks@.take(k as int) =~= self.masks@);
        }
        out
    }

    /// Reads a bitmask of `bit_count` flags in words of `mask_bits` bits
    /// from bytes written by [`Bitmask::to_bytes`] with the same order.
    /// `None` when the length is not `mask_bits / 8` bytes per word or a
    /// bit outside the used positions is set.
    pub fn from_bytes(bytes: &[u8], bit_count: u32, mask_bits: u32, order: ByteOrder) -> (r: Option<Bitmask>)
        requires
            Self::shape_ok(bit_count as nat, mask_bits as nat),
        ensures
            match decode_words(bytes@, bit_count as nat, mask_bits as nat, is_big(order)) {
                Some(ws) => r is Some && r->Some_0.wf() && r->Some_0.bit_count == bit_count
                    && r->Some_0.mask_bits == mask_bits && r->Some_0.masks@ == ws,
                None => r is None,
            },
    {
        let big = order_is_big(order);
        let n: usize = (mask_bits / 8) as usize;
        let count: u32 = (bit_count + (mask_bits - 1)) / mask_bits;
        let ghost expected = decode_words(bytes@, bit_count as nat, mask_bits as nat, big);
        let ghost ws = Seq::new(
            count as nat,
            |k: int| bytes_value(bytes@.subrange(k * n, k * n + n), big) as u128,
        );
        proof {
            assert(count * n <= 0x1_0000_0000 * 16) by (nonlinear_arith)
                requires
                    count < 0x1_0000_0000,
                    n <= 16,
            ;
        }
        let total = bytes.len();
        if total as u128 != (count as u128) * (n as u128) {
            return None;
        }
        let shape = Bitmask { masks: Vec::new(), bit_count, mask_bits };
        let mut masks: Vec<u128> = Vec::new();
        let mut k: usize = 0;
        while k < count as usize
            invariant
                Self::shape_ok(bit_count as nat, mask_bits as nat),
                count == words_for(bit_count as nat, mask_bits as nat),
                n == mask_bits / 8,
                big == is_big(order),
                bytes@.len() == count * n,
                total == bytes@.len(),
                shape.bit_count == bit_count,
                shape.mask_bits == mask_bits,
                ws == Seq::new(
                    count as nat,
                    |k: int| bytes_value(bytes@.subrange(k * n, k * n + n), big) as u128,
                ),
                k <= count,
                masks@ == ws.take(k as int),
                forall|kk: int| 0 <= kk < k ==> word_fits(ws[kk], bit_count as nat, mask_bits as nat, kk),
            decreases count - k,
        {
            proof {
                assert(k * n + n <= count * n) by (nonlinear_arith)
                    requires
                        k + 1 <= count,
                ;
                assert(k * n >= 0) by (nonlinear_arith)
                    requires
                        k >= 0,
                ;
            }
            let word = read_word(bytes, k * n, n, big);
            let valid = shape.valid_word_mask(k);
            proof {
                lemma_bit_ops(word, !valid);
                lemma_bit_ops(valid, 0);
                lemma_zero_word();
            }
            if word & !valid != 0 {
                proof {
                    assert(word == ws[k as int]);
                    if !word_fits(word, bit_count as nat, mask_bits as nat, k as int) {
                    } else {
                        assert forall|j: u128| j < 128 implies #[trigger] word_bit(word & !valid, j) == word_bit(0u128, j) by {}
                        lemma_word_ext(word & !valid, 0u128);
                    }
                }
                return None;
            }
            proof {
                assert(word == ws[k as int]);
                assert forall|j: u128| j < 128 && #[trigger] word_bit(word, j) implies bit_in_use(
                    bit_count as nat,
                    mask_bits as nat,
                    k as int,
                    j as int,
                ) by {
                    assert(word_bit(word & !valid, j) == word_bit(0u128, j));
                }
                assert(ws.take(k + 1) =~= ws.take(k as int).push(word));
            }
            masks.push(word);
            k = k + 1;
        }
        let r = Bitmask { masks, bit_count, mask_bits };
        proof {
            assert(ws.take(k as int) =~= ws);
            assert forall|kk: int| 0 <= kk < count implies #[trigger] bytes_value(
                bytes@.subrange(kk * n, kk * n + n),
                big,
            ) < byte_bound(n as nat) && word_fits(ws[kk], bit_count as nat, mask_bits as nat, kk) by {
                assert(kk * n + n <= count * n) by (nonlinear_arith)
                    requires
                        kk + 1 <= count,
                ;
                assert(kk * n >= 0) by (nonlinear_arith)
                    requires
                        kk >= 0,
                ;
                lemma_value_bound(bytes@.subrange(kk * n, kk * n + n), big);
            }
            assert(expected == Some(ws));
        }
        Some(r)
    }
}

impl Bitmask {
    /// The union of `flags`, as a set of `bit_count` flags in words of `mask_bits` bits.
    pub fn union(flags: &Vec<Bitmask>, bit_count: u32, mask_bits: u32) -> (r: Bitmask)
        requires
            Self::shape_ok(bit_count as nat, mask_bits as nat),
            forall|k: int|
                0 <= k < flags@.len() ==> (#[trigger] flags@[k]).wf() && flags@[k].bit_count
                    == bit_count && flags@[k].mask_bits == mask_bits,
        ensures
            r.wf(),
            r.bit_count == bit_count,
            r.mask_bits == mask_bits,
            r@ == Seq::new(
                bit_count as nat,
                |i: int| exists|k: int| 0 <= k < flags@.len() && (#[trigger] flags@[k])@[i],
            ),
    {
        let mut acc = Self::zero(bit_count, mask_bits);
        let mut k: usize = 0;
        while k < flags.len()
            invariant
                Self::shape_ok(bit_count as nat, mask_bits as nat),
                forall|t: int|
                    0 <= t < flags@.len() ==> (#[trigger] flags@[t]).wf() && flags@[t].bit_count
                        == bit_count && flags@[t].mask_bits == mask_bits,
                k <= flags@.len(),
                acc.wf(),
                acc.bit_count == bit_count,
                acc.mask_bits == mask_bits,
                acc@ == Seq::new(
                    bit_count as nat,
                    |i: int| exists|t: int| 0 <= t < k && (#[trigger] flags@[t])@[i],
                ),
            decreases flags@.len() - k,
        {
            let ghost before = acc@;
            acc.add(&flags[k]);
            proof {
                assert forall|i: int| 0 <= i < bit_count implies acc@[i] == (exists|t: int|
                    0 <= t < k + 1 && (#[trigger] flags@[t])@[i]) by {
                    if before[i] {
                        let t = choose|t: int| 0 <= t < k && (#[trigger] flags@[t])@[i];
                        assert(0 <= t < k + 1 && flags@[t]@[i]);
                    }
                    if exists|t: int| 0 <= t < k + 1 && (#[trigger] flags@[t])@[i] {
                        let t = choose|t: int| 0 <= t < k + 1 && (#[trigger] flags@[t])@[i];
                        if t < k {
                            assert(before[i]);
                        }
                    }
                }
                assert(acc@ =~= Seq::new(
                    bit_count as nat,
                    |i: int| exists|t: int| 0 <= t < k + 1 && (#[trigger] flags@[t])@[i],
                ));
            }
            k = k + 1;
        }
        acc
    }
}

impl Bitmask {
    /// Whether `self` is well formed: a supported word width, the right
    /// number of words, and no bit set outside the used positions.
    pub fn is_valid(&self) -> (r: bool)
        ensures
            r == self.wf(),
    {
        let w = self.mask_bits;
        if !(w == 8 || w == 16 || w == 32 || w == 64 || w == 128) || self.bit_count > u32::MAX - 128 {
            return false;
        }
        let count: u32 = (self.bit_count + (w - 1)) / w;
        if self.masks.len() != count as usize {
            return false;
        }
        let mut k: usize = 0;
        while k < self.masks.len()
            invariant
                Self::shape_ok(self.bit_count as nat, self.mask_bits as nat),
                self.masks@.len() == words_for(self.bit_count as nat, self.mask_bits as nat),
                k <= self.masks@.len(),
                forall|kk: int, j: u128|
                    0 <= kk < k && j < 128 && #[trigger] word_bit(self.masks@[kk], j) ==> self.valid_bit(
                        kk,
                        j as int,
                    ),
            decreases self.masks@.len() - k,
        {
            let valid = self.valid_word_mask(k);
            let word = self.masks[k];
            proof {
                lemma_bit_ops(word, !valid);
                lemma_bit_ops(valid, 0);
                lemma_zero_word();
            }
            if word & !valid != 0 {
                proof {
                    if forall|j: u128| j < 128 && #[trigger] word_bit(word, j) ==> self.valid_bit(k as int, j as int) {
                        assert forall|j: u128| j < 128 implies #[trigger] word_bit(word & !valid, j) == word_bit(0u128, j) by {}
                        lemma_word_ext(word & !valid, 0u128);
                    }
                }
                return false;
            }
            proof {
                assert forall|j: u128| j < 128 && #[trigger] word_bit(word, j) implies self.valid_bit(
                    k as int,
                    j as int,
                ) by {
                    assert(word_bit(word & !valid, j) == word_bit(0u128, j));
                }
            }
            k = k + 1;
        }
        true
    }
}

} // verus!
