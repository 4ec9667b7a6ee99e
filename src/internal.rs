use vstd::prelude::*;
use core::cmp::Ordering;
use crate::sealed::Sealed;
use vstd::string::StringSliceAdditionalSpecFns;

verus! {

/// Marks the unsigned integer types that can serve as words of a flag type.
/// `usize` is left out: its width differs between targets, which would
/// change the serialized form.
pub trait MustBeUnsignedInt: Sealed + Clone + Copy {}

impl MustBeUnsignedInt for u8 {}

impl MustBeUnsignedInt for u16 {}

impl MustBeUnsignedInt for u32 {}

impl MustBeUnsignedInt for u64 {}

impl MustBeUnsignedInt for u128 {}

/// Compiles only for a word type that [`MustBeUnsignedInt`] accepts.
pub fn mask_type_check<MaskType: MustBeUnsignedInt>() {
}

/// Lexicographic order of byte strings: the first differing byte decides,
/// else the shorter string comes first.
pub open spec fn lex_cmp(a: Seq<u8>, b: Seq<u8>) -> Ordering
    decreases a.len(),
{
    if a.len() == 0 && b.len() == 0 {
        Ordering::Equal
    } else if a.len() == 0 {
        Ordering::Less
    } else if b.len() == 0 {
        Ordering::Greater
    } else if a[0] < b[0] {
        Ordering::Less
    } else if a[0] > b[0] {
        Ordering::Greater
    } else {
        lex_cmp(a.drop_first(), b.drop_first())
    }
}

/// Compares two strings byte by byte.
pub fn const_cmp_str(lhs: &str, rhs: &str) -> (r: Ordering)
    ensures
        r == lex_cmp(lhs.spec_bytes(), rhs.spec_bytes()),
{
    let ghost a = lhs.spec_bytes();
    let ghost b = rhs.spec_bytes();
    let lb = lhs.as_bytes();
    let rb = rhs.as_bytes();
    let min_len = if lb.len() <= rb.len() {
        lb.len()
    } else {
        rb.len()
    };
    let mut byte_index: usize = 0;
    proof {
        assert(a.skip(0) =~= a);
        assert(b.skip(0) =~= b);
    }
    while byte_index < min_len
        invariant
            a == lhs.spec_bytes(),
            b == rhs.spec_bytes(),
            lb@ == a,
            rb@ == b,
            min_len <= a.len(),
            min_len <= b.len(),
            min_len == a.len() || min_len == b.len(),
            byte_index <= min_len,
            lex_cmp(a, b) == lex_cmp(a.skip(byte_index as int), b.skip(byte_index as int)),
        decreases min_len - byte_index,
    {
        let x = lb[byte_index];
        let y = rb[byte_index];
        proof {
            assert(a.skip(byte_index as int)[0] == x);
            assert(b.skip(byte_index as int)[0] == y);
            assert(a.skip(byte_index as int).len() > 0);
            assert(b.skip(byte_index as int).len() > 0);
        }
        if x < y {
            proof {
                let sa = a.skip(byte_index as int);
                let sb = b.skip(byte_index as int);
                assert(!(sa.len() == 0 && sb.len() == 0));
                assert(sa[0] < sb[0]);
                assert(lex_cmp(sa, sb) == Ordering::Less);
            }
            return Ordering::Less;
        } else if x > y {
            proof {
                let sa = a.skip(byte_index as int);
                let sb = b.skip(byte_index as int);
                assert(sa[0] > sb[0]);
                assert(lex_cmp(sa, sb) == Ordering::Greater);
            }
            return Ordering::Greater;
        }
        proof {
            assert(a.skip(byte_index as int).drop_first() =~= a.skip(byte_index + 1));
            assert(b.skip(byte_index as int).drop_first() =~= b.skip(byte_index + 1));
        }
        byte_index += 1;
    }
    proof {
        assert(a.skip(byte_index as int).len() == a.len() - byte_index);
        assert(b.skip(byte_index as int).len() == b.len() - byte_index);
    }
    if lb.len() == rb.len() {
        Ordering::Equal
    } else if lb.len() <= rb.len() {
        Ordering::Less
    } else {
        Ordering::Greater
    }
}

/// A counter that hands out consecutive values.
pub struct ConstCounter<T> {
    pub count: T,
}

impl<T> ConstCounter<T> {
    /// A counter whose next value is `start`.
    pub fn new(start: T) -> (r: Self)
        ensures
            r.count == start,
    {
        Self { count: start }
    }
}

impl ConstCounter<u8> {
    /// Returns the current value and advances.
    pub fn next(&mut self) -> (r: u8)
        requires
            old(self).count < u8::MAX,
        ensures
            r == old(self).count,
            final(self).count == old(self).count + 1,
    {
        let next = self.count;
        self.count += 1;
        next
    }

    /// Advances without returning the value.
    pub fn incr(&mut self)
        requires
            old(self).count < u8::MAX,
        ensures
            final(self).count == old(self).count + 1,
    {
        let _ = self.next();
    }
}

impl ConstCounter<u16> {
    /// Returns the current value and advances.
    pub fn next(&mut self) -> (r: u16)
        requires
            old(self).count < u16::MAX,
        ensures
            r == old(self).count,
            final(self).count == old(self).count + 1,
    {
        let next = self.count;
        self.count += 1;
        next
    }

    /// Advances without returning the value.
    pub fn incr(&mut self)
        requires
            old(self).count < u16::MAX,
        ensures
            final(self).count == old(self).count + 1,
    {
        let _ = self.next();
    }
}

impl ConstCounter<u32> {
    /// Returns the current value and advances.
    pub fn next(&mut self) -> (r: u32)
        requires
            old(self).count < u32::MAX,
        ensures
            r == old(self).count,
            final(self).count == old(self).count + 1,
    {
        let next = self.count;
        self.count += 1;
        next
    }

    /// Advances without returning the value.
    pub fn incr(&mut self)
        requires
            old(self).count < u32::MAX,
        ensures
            final(self).count == old(self).count + 1,
    {
        let _ = self.next();
    }
}

impl ConstCounter<u64> {
    /// Returns the current value and advances.
    pub fn next(&mut self) -> (r: u64)
        requires
            old(self).count < u64::MAX,
        ensures
            r == old(self).count,
            final(self).count == old(self).count + 1,
    {
        let next = self.count;
        self.count += 1;
        next
    }

    /// Advances without returning the value.
    pub fn incr(&mut self)
        requires
            old(self).count < u64::MAX,
        ensures
            final(self).count == old(self).count + 1,
    {
        let _ = self.next();
    }
}

impl ConstCounter<usize> {
    /// Returns the current value and advances.
    pub fn next(&mut self) -> (r: usize)
        requires
            old(self).count < usize::MAX,
        ensures
            r == old(self).count,
            final(self).count == old(self).count + 1,
    {
        let next = self.count;
        self.count += 1;
        next
    }

    /// Advances without returning the value.
    pub fn incr(&mut self)
        requires
            old(self).count < usize::MAX,
        ensures
            final(self).count == old(self).count + 1,
    {
        let _ = self.next();
    }
}

/// Where a bit lives: the word and the position within the word.
#[derive(Clone, Copy, Debug, PartialEq, Eq, Structural)]
pub struct MaskIndex {
    pub mask: usize,
    pub bit: u32,
}

impl MaskIndex {
    /// The word and position of bit `index` for words of `bit_size` bits.
    pub fn new(index: u32, bit_size: u32) -> (r: Self)
        requires
            bit_size > 0,
        ensures
            r.mask == index / bit_size,
            r.bit == index % bit_size,
    {
        Self { mask: (index / bit_size) as usize, bit: index % bit_size }
    }
}

} // verus!
