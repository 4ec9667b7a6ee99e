use vstd::prelude::*;

verus! {

/// Sizes of the packed representation of a flag set.
#[derive(Clone, Copy, Debug, PartialEq, Eq, Structural)]
pub struct Layout {
    /// Number of machine words.
    pub word_count: u32,
    /// Bits held by all the words together.
    pub total_bits: u32,
    /// Unused high-order bits of the last word.
    pub padding_bits: u32,
}

/// Whether `w` is the width in bits of a supported unsigned machine word.
pub open spec fn is_word_width(w: nat) -> bool {
    w == 8 || w == 16 || w == 32 || w == 64 || w == 128
}

/// The number of words of width `w` needed for `n` bits: `ceil(n / w)`.
pub open spec fn words_for(n: nat, w: nat) -> nat
    recommends
        w > 0,
{
    ((n + w - 1) / (w as int)) as nat
}

proof fn lemma_words_for(n: nat, w: nat)
    requires
        is_word_width(w),
    ensures
        words_for(n, w) * w >= n,
        words_for(n, w) * w < n + w,
{
}

impl Layout {
    /// The layout for `single_count` flags packed into words of `word_width` bits.
    pub open spec fn spec_new(single_count: nat, word_width: nat) -> Layout {
        let words = words_for(single_count, word_width);
        Layout {
            word_count: words as u32,
            total_bits: (words * word_width) as u32,
            padding_bits: (words * word_width - single_count) as u32,
        }
    }

    /// Computes word count, total bits and padding bits.
    pub fn new(single_count: u32, word_width: u32) -> (r: Layout)
        requires
            is_word_width(word_width as nat),
            single_count <= 65536,
        ensures
            r == Layout::spec_new(single_count as nat, word_width as nat),
            r.word_count as nat * word_width as nat == r.total_bits as nat,
            r.total_bits as nat == single_count as nat + r.padding_bits as nat,
            r.padding_bits < word_width,
    {
        proof {
            lemma_words_for(single_count as nat, word_width as nat);
        }
        let word_count: u32 = (single_count + (word_width - 1)) / word_width;
        let total_bits: u32 = word_count * word_width;
        Layout { word_count, total_bits, padding_bits: total_bits - single_count }
    }
}

} // verus!
