use vstd::prelude::*;
use vstd::endian::{endianness, Endian};

verus! {

/// The byte order in which each word of a bitmask is written.
#[derive(Clone, Copy, Debug, PartialEq, Eq, Structural)]
pub enum ByteOrder {
    BigEndian,
    LittleEndian,
    /// The order of the machine that runs the code; for local use only.
    NativeEndian,
}

/// Whether `order` puts the most significant byte of a word first.
pub open spec fn is_big(order: ByteOrder) -> bool {
    match order {
        ByteOrder::BigEndian => true,
        ByteOrder::LittleEndian => false,
        ByteOrder::NativeEndian => endianness() == Endian::Big,
    }
}

/// `256^n`: one more than the largest value of `n` bytes.
pub open spec fn byte_bound(n: nat) -> nat
    decreases n,
{
    if n == 0 {
        1
    } else {
        256 * byte_bound((n - 1) as nat)
    }
}

/// The `n` low bytes of `w`, least significant first.
pub open spec fn le_bytes(w: nat, n: nat) -> Seq<u8>
    decreases n,
{
    if n == 0 {
        Seq::empty()
    } else {
        seq![(w % 256) as u8] + le_bytes(w / 256, (n - 1) as nat)
    }
}

/// The `n` low bytes of `w`, most significant first.
pub open spec fn be_bytes(w: nat, n: nat) -> Seq<u8>
    decreases n,
{
    if n == 0 {
        Seq::empty()
    } else {
        be_bytes(w / 256, (n - 1) as nat).push((w % 256) as u8)
    }
}

/// The number whose bytes, least significant first, are `s`.
pub open spec fn le_value(s: Seq<u8>) -> nat
    decreases s.len(),
{
    if s.len() == 0 {
        0
    } else {
        s[0] as nat + 256 * le_value(s.drop_first())
    }
}

/// The number whose bytes, most significant first, are `s`.
pub open spec fn be_value(s: Seq<u8>) -> nat
    decreases s.len(),
{
    if s.len() == 0 {
        0
    } else {
        be_value(s.drop_last()) * 256 + s.last() as nat
    }
}

/// The `n` bytes of `w` in the given order.
pub open spec fn word_bytes(w: nat, n: nat, big: bool) -> Seq<u8> {
    if big {
        be_bytes(w, n)
    } else {
        le_bytes(w, n)
    }
}

/// The number written by the bytes `s` in the given order.
pub open spec fn bytes_value(s: Seq<u8>, big: bool) -> nat {
    if big {
        be_value(s)
    } else {
        le_value(s)
    }
}

pub proof fn lemma_byte_bound_grows(a: nat, b: nat)
    requires
        a <= b,
    ensures
        1 <= byte_bound(a) <= byte_bound(b),
    decreases b,
{
    if b > a {
        lemma_byte_bound_grows(a, (b - 1) as nat);
    } else if a > 0 {
        lemma_byte_bound_grows((a - 1) as nat, (a - 1) as nat);
    }
}

pub proof fn lemma_word_bytes_len(w: nat, n: nat, big: bool)
    ensures
        word_bytes(w, n, big).len() == n,
    decreases n,
{
    if n > 0 {
        lemma_word_bytes_len(w / 256, (n - 1) as nat, big);
    }
}

pub proof fn lemma_value_bound(s: Seq<u8>, big: bool)
    ensures
        bytes_value(s, big) < byte_bound(s.len()),
    decreases s.len(),
{
    if s.len() > 0 {
        if big {
            lemma_value_bound(s.drop_last(), big);
        } else {
            lemma_value_bound(s.drop_first(), big);
        }
    }
}

/// Reading back the bytes of a number that fits gives the number.
pub proof fn lemma_word_round_trip(w: nat, n: nat, big: bool)
    requires
        w < byte_bound(n),
    ensures
        bytes_value(word_bytes(w, n, big), big) == w,
    decreases n,
{
    if n > 0 {
        lemma_word_round_trip(w / 256, (n - 1) as nat, big);
        if big {
            assert(be_bytes(w, n).drop_last() =~= be_bytes(w / 256, (n - 1) as nat));
        } else {
            assert(le_bytes(w, n).drop_first() =~= le_bytes(w / 256, (n - 1) as nat));
        }
    }
}

pub proof fn lemma_byte_bound_sixteen()
    ensures
        byte_bound(16) == 0x1_0000_0000_0000_0000_0000_0000_0000_0000,
{
    reveal_with_fuel(byte_bound, 17);
}

/// Relies on `u16::from_ne_bytes`, which reads two bytes in the byte order
/// of the target machine.
#[verifier::external_body]
fn u16_from_ne_bytes(first: u8, second: u8) -> (r: u16)
    ensures
        endianness() == Endian::Little ==> r == first as nat + 256 * second as nat,
        endianness() == Endian::Big ==> r == 256 * first as nat + second as nat,
{
    u16::from_ne_bytes([first, second])
}

/// Whether the machine puts the most significant byte first.
pub fn native_is_big() -> (r: bool)
    ensures
        r == (endianness() == Endian::Big),
{
    let probe = u16_from_ne_bytes(1, 0);
    probe != 1
}

/// Whether `order` puts the most significant byte first on this machine.
pub fn order_is_big(order: ByteOrder) -> (r: bool)
    ensures
        r == is_big(order),
{
    match order {
        ByteOrder::BigEndian => true,
        ByteOrder::LittleEndian => false,
        ByteOrder::NativeEndian => native_is_big(),
    }
}

/// Appends the `n` low bytes of `w` to `out` in the given order.
pub fn push_word_bytes(out: &mut Vec<u8>, w: u128, n: usize, big: bool)
    ensures
        final(out)@ == old(out)@ + word_bytes(w as nat, n as nat, big),
{
    let ghost start = out@;
    if big {
        let mut buf: Vec<u8> = Vec::new();
        let mut t: usize = 0;
        while t < n
            invariant
                t <= n,
                buf@.len() == t,
            decreases n - t,
        {
            buf.push(0u8);
            t = t + 1;
        }
        let mut x: u128 = w;
        let mut b: usize = n;
        while b > 0
            invariant
                b <= n,
                buf@.len() == n,
                be_bytes(w as nat, n as nat) == be_bytes(x as nat, b as nat) + buf@.subrange(
                    b as int,
                    n as int,
                ),
            decreases b,
        {
            let ghost before = buf@;
            buf.set(b - 1, (x % 256) as u8);
            proof {
                assert(buf@.subrange(b - 1, n as int) =~= seq![(x % 256) as u8] + before.subrange(
                    b as int,
                    n as int,
                ));
                assert(be_bytes(x as nat, b as nat) =~= be_bytes((x / 256) as nat, (b - 1) as nat).push(
                    (x % 256) as u8,
                ));
                assert(be_bytes(x as nat, b as nat) + before.subrange(b as int, n as int)
                    =~= be_bytes((x / 256) as nat, (b - 1) as nat) + buf@.subrange(b - 1, n as int));
            }
            x = x / 256;
            b = b - 1;
        }
        proof {
            assert(buf@.subrange(0, n as int) =~= buf@);
            assert(be_bytes(x as nat, 0) =~= Seq::<u8>::empty());
            assert(be_bytes(w as nat, n as nat) =~= buf@);
        }
        let mut t: usize = 0;
        while t < n
            invariant
                t <= n,
                buf@.len() == n,
                out@ == start + buf@.subrange(0, t as int),
            decreases n - t,
        {
            out.push(buf[t]);
            proof {
                assert(buf@.subrange(0, t + 1) =~= buf@.subrange(0, t as int).push(buf@[t as int]));
            }
            t = t + 1;
        }
        proof {
            assert(buf@.subrange(0, n as int) =~= buf@);
        }
    } else {
        let mut x: u128 = w;
        let mut b: usize = 0;
        while b < n
            invariant
                b <= n,
                out@ + le_bytes(x as nat, (n - b) as nat) == start + le_bytes(w as nat, n as nat),
            decreases n - b,
        {
            proof {
                assert(le_bytes(x as nat, (n - b) as nat) =~= seq![(x % 256) as u8] + le_bytes(
                    (x / 256) as nat,
                    (n - b - 1) as nat,
                ));
                assert(out@.push((x % 256) as u8) + le_bytes((x / 256) as nat, (n - b - 1) as nat)
                    =~= out@ + le_bytes(x as nat, (n - b) as nat));
            }
            out.push((x % 256) as u8);
            x = x / 256;
            b = b + 1;
        }
        proof {
            assert(le_bytes(x as nat, 0) =~= Seq::<u8>::empty());
            assert(out@ =~= out@ + le_bytes(x as nat, 0));
        }
    }
}

/// The number written by `bytes[start..start + n]` in the given order.
pub fn read_word(bytes: &[u8], start: usize, n: usize, big: bool) -> (r: u128)
    requires
        n <= 16,
        start + n <= bytes@.len(),
    ensures
        r as nat == bytes_value(bytes@.subrange(start as int, start + n), big),
{
    let ghost s = bytes@.subrange(start as int, start + n);
    proof {
        lemma_byte_bound_grows(n as nat, 16);
        lemma_byte_bound_sixteen();
    }
    let total = bytes.len();
    let mut acc: u128 = 0;
    if big {
        let mut k: usize = 0;
        while k < n
            invariant
                n <= 16,
                start + n <= bytes@.len(),
                total == bytes@.len(),
                s == bytes@.subrange(start as int, start + n),
                byte_bound(n as nat) <= 0x1_0000_0000_0000_0000_0000_0000_0000_0000,
                k <= n,
                acc as nat == be_value(s.subrange(0, k as int)),
            decreases n - k,
        {
            proof {
                assert(s.subrange(0, k + 1).drop_last() =~= s.subrange(0, k as int));
                lemma_value_bound(s.subrange(0, k as int), true);
                lemma_byte_bound_grows((k + 1) as nat, n as nat);
                assert(byte_bound((k + 1) as nat) == 256 * byte_bound(k as nat));
            }
            acc = acc * 256 + bytes[start + k] as u128;
            k = k + 1;
        }
        proof {
            assert(s.subrange(0, n as int) =~= s);
        }
    } else {
        let mut k: usize = n;
        while k > 0
            invariant
                n <= 16,
                start + n <= bytes@.len(),
                total == bytes@.len(),
                s == bytes@.subrange(start as int, start + n),
                byte_bound(n as nat) <= 0x1_0000_0000_0000_0000_0000_0000_0000_0000,
                k <= n,
                acc as nat == le_value(s.subrange(k as int, n as int)),
            decreases k,
        {
            proof {
                assert(s.subrange(k - 1, n as int).drop_first() =~= s.subrange(k as int, n as int));
                lemma_value_bound(s.subrange(k as int, n as int), false);
                lemma_byte_bound_grows((n - k + 1) as nat, n as nat);
                assert(byte_bound((n - k + 1) as nat) == 256 * byte_bound((n - k) as nat));
            }
            acc = acc * 256 + bytes[start + k - 1] as u128;
            k = k - 1;
        }
        proof {
            assert(s.subrange(0, n as int) =~= s);
        }
    }
    acc
}

} // verus!
