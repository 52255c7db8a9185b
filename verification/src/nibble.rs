//! Half-bytes of a byte stream, their parities, and a Gold code built from
//! two linear feedback shift registers.

use vstd::prelude::*;
use crate::text::push_char;

verus! {

/// A half byte (four bits), kept in the low bits of a byte.
#[derive(Clone, Copy)]
pub struct Nibble(pub u8);

/// The number of one bits of `x`.
pub open spec fn ones(x: u8) -> int {
    (x & 1) as int + ((x >> 1u8) & 1) as int + ((x >> 2u8) & 1) as int + ((x >> 3u8) & 1) as int
        + ((x >> 4u8) & 1) as int + ((x >> 5u8) & 1) as int + ((x >> 6u8) & 1) as int + ((x
        >> 7u8) & 1) as int
}

/// The number of one bits of `x` (std `u8::count_ones`).
pub fn count_ones(x: u8) -> (r: u32)
    ensures
        r as int == ones(x),
        r <= 8,
{
    assert((x & 1) <= 1 && ((x >> 1u8) & 1) <= 1 && ((x >> 2u8) & 1) <= 1 && ((x >> 3u8) & 1) <= 1
        && ((x >> 4u8) & 1) <= 1 && ((x >> 5u8) & 1) <= 1 && ((x >> 6u8) & 1) <= 1 && ((x >> 7u8)
        & 1) <= 1) by (bit_vector);
    ((x & 1) + ((x >> 1) & 1) + ((x >> 2) & 1) + ((x >> 3) & 1) + ((x >> 4) & 1) + ((x >> 5) & 1)
        + ((x >> 6) & 1) + ((x >> 7) & 1)) as u32
}

/// Flipping one bit of a byte changes the parity of its one bits.
pub proof fn lemma_flip_changes_parity(x: u8, p: u8)
    requires
        p < 8,
    ensures
        ones(x ^ (1u8 << p)) % 2 != ones(x) % 2,
{
    assert(p < 8 ==> (((x ^ (1u8 << p)) & 1) + (((x ^ (1u8 << p)) >> 1u8) & 1) + (((x ^ (1u8
        << p)) >> 2u8) & 1) + (((x ^ (1u8 << p)) >> 3u8) & 1) + (((x ^ (1u8 << p)) >> 4u8) & 1)
        + (((x ^ (1u8 << p)) >> 5u8) & 1) + (((x ^ (1u8 << p)) >> 6u8) & 1) + (((x ^ (1u8 << p))
        >> 7u8) & 1)) % 2 != ((x & 1) + ((x >> 1u8) & 1) + ((x >> 2u8) & 1) + ((x >> 3u8) & 1)
        + ((x >> 4u8) & 1) + ((x >> 5u8) & 1) + ((x >> 6u8) & 1) + ((x >> 7u8) & 1)) % 2)
        by (bit_vector);
}

impl Nibble {
    /// The most significant of the four bits.
    pub fn mbs(self) -> (r: u8)
        ensures
            r == (self.0 / 8) % 2,
    {
        let v = self.0;
        assert((v >> 3) & 1 == (v / 8) % 2) by (bit_vector);
        (v >> 3) & 1
    }

    /// The least significant bit.
    pub fn lbs(self) -> (r: u8)
        ensures
            r == self.0 % 2,
    {
        let v = self.0;
        assert(v & 1 == v % 2) by (bit_vector);
        v & 1
    }

    /// Whether the number of one bits is odd (1) or even (0).
    pub fn parity(self) -> (r: u8)
        ensures
            r as int == ones(self.0) % 2,
    {
        let c = count_ones(self.0);
        let p = (c % 2) as u8;
        p
    }

    /// The number of bits in which two half bytes differ.
    pub fn hamming_to(self, other: Nibble) -> (r: u32)
        ensures
            r as int == ones(self.0 ^ other.0),
    {
        count_ones(self.0 ^ other.0)
    }
}

/// The character of a binary digit.
pub open spec fn bit_char(d: int) -> char {
    if d == 0 { '0' } else { '1' }
}

/// The binary numeral of `v`, without leading zeros.
pub open spec fn binary(v: int) -> Seq<char>
    decreases v,
{
    if v < 2 {
        seq![bit_char(v)]
    } else {
        binary(v / 2).push(bit_char(v % 2))
    }
}

/// The character of a hexadecimal digit, in upper case.
pub open spec fn hex_char(d: int) -> char {
    if d < 10 {
        (('0' as int) + d) as char
    } else {
        (('A' as int) + d - 10) as char
    }
}

/// The upper-case hexadecimal numeral of `v`, without leading zeros.
pub open spec fn hex_upper(v: int) -> Seq<char>
    decreases v,
{
    if v < 16 {
        seq![hex_char(v)]
    } else {
        hex_upper(v / 16).push(hex_char(v % 16))
    }
}

/// `s` filled on the left with zeros to at least four characters.
pub open spec fn pad4(s: Seq<char>) -> Seq<char> {
    if s.len() < 4 {
        Seq::new((4 - s.len()) as nat, |i: int| '0') + s
    } else {
        s
    }
}

/// How a half byte is shown: its four bits, then its hexadecimal digit in
/// parentheses, as in `0101(5)`.
pub open spec fn nibble_text(v: int) -> Seq<char> {
    pad4(binary(v)) + seq!['('] + hex_upper(v) + seq![')']
}

fn binary_digits(v: u8) -> (r: Vec<char>)
    ensures
        r@ == binary(v as int),
    decreases v,
{
    if v < 2 {
        let c = if v == 0 { '0' } else { '1' };
        let mut r = Vec::new();
        r.push(c);
        r
    } else {
        let mut r = binary_digits(v / 2);
        r.push(if v % 2 == 0 { '0' } else { '1' });
        r
    }
}

fn hex_digit(d: u8) -> (c: char)
    requires
        d < 16,
    ensures
        c == hex_char(d as int),
{
    let table = ['0', '1', '2', '3', '4', '5', '6', '7', '8', '9', 'A', 'B', 'C', 'D', 'E', 'F'];
    let c = table[d as usize];
    assert(c == hex_char(d as int)) by {
        if d == 0 { } else if d == 1 { } else if d == 2 { } else if d == 3 { } else if d == 4 {
        } else if d == 5 { } else if d == 6 { } else if d == 7 { } else if d == 8 { } else if d
            == 9 { } else if d == 10 { } else if d == 11 { } else if d == 12 { } else if d == 13 {
        } else if d == 14 { } else { }
    }
    c
}

fn hex_digits(v: u8) -> (r: Vec<char>)
    ensures
        r@ == hex_upper(v as int),
    decreases v,
{
    if v < 16 {
        let mut r = Vec::new();
        r.push(hex_digit(v));
        r
    } else {
        let mut r = hex_digits(v / 16);
        r.push(hex_digit(v % 16));
        r
    }
}

impl Nibble {
    /// How the half byte is shown: its four bits, then its hexadecimal
    /// digit in parentheses.
    pub fn debug_text(&self) -> (res: String)
        ensures
            res@ == nibble_text(self.0 as int),
    {
        let bits = binary_digits(self.0);
        let mut res = String::new();
        let mut pad = bits.len();
        while pad < 4
            invariant
                bits@ == binary(self.0 as int),
                bits@.len() <= pad <= 4 || (pad == bits@.len() && pad >= 4),
                res@ == Seq::new((pad - bits@.len()) as nat, |i: int| '0'),
            decreases 4 - pad,
        {
            push_char(&mut res, '0');
            assert(res@ =~= Seq::new((pad + 1 - bits@.len()) as nat, |i: int| '0'));
            pad += 1;
        }
        assert(res@ + bits@ == pad4(binary(self.0 as int)));
        let mut i: usize = 0;
        let ghost start = res@;
        while i < bits.len()
            invariant
                i <= bits@.len(),
                res@ == start + bits@.take(i as int),
            decreases bits.len() - i,
        {
            push_char(&mut res, bits[i]);
            assert(bits@.take(i + 1) == bits@.take(i as int).push(bits@[i as int]));
            i += 1;
        }
        assert(bits@.take(bits@.len() as int) == bits@);
        push_char(&mut res, '(');
        let hex = hex_digits(self.0);
        let mut j: usize = 0;
        let ghost mid = res@;
        while j < hex.len()
            invariant
                j <= hex@.len(),
                res@ == mid + hex@.take(j as int),
            decreases hex.len() - j,
        {
            push_char(&mut res, hex[j]);
            assert(hex@.take(j + 1) == hex@.take(j as int).push(hex@[j as int]));
            j += 1;
        }
        assert(hex@.take(hex@.len() as int) == hex@);
        push_char(&mut res, ')');
        res
    }
}

/// The values of a sequence of half bytes.
pub open spec fn nibble_values(v: Seq<Nibble>) -> Seq<u8> {
    v.map_values(|n: Nibble| n.0)
}

/// Each byte of `data` as two half bytes, the high one first.
pub open spec fn nibbles_of(data: Seq<u8>) -> Seq<u8> {
    Seq::new(2 * data.len(), |i: int| if i % 2 == 0 { data[i / 2] / 16 } else { data[i / 2] % 16 })
}

/// Each two half bytes as one byte, the first as the high half; a last half
/// byte without a partner has a zero low half.
pub open spec fn bytes_of(nibs: Seq<u8>) -> Seq<u8> {
    Seq::new(
        ((nibs.len() + 1) / 2) as nat,
        |i: int| (nibs[2 * i] << 4u8) | (if 2 * i + 1 < nibs.len() { nibs[2 * i + 1] } else { 0u8 }),
    )
}

/// Splits each byte into its two half bytes, the high one first.
pub fn bytes_to_nibbles(data: &[u8]) -> (res: Vec<Nibble>)
    ensures
        nibble_values(res@) == nibbles_of(data@),
{
    let mut res: Vec<Nibble> = Vec::new();
    let mut i: usize = 0;
    while i < data.len()
        invariant
            i <= data@.len(),
            nibble_values(res@) == nibbles_of(data@.take(i as int)),
        decreases data.len() - i,
    {
        let b = data[i];
        assert(b >> 4 == b / 16 && b & 0xF == b % 16) by (bit_vector);
        let ghost before = nibble_values(res@);
        res.push(Nibble(b >> 4));
        res.push(Nibble(b & 0xF));
        proof {
            let now = nibble_values(res@);
            let want = nibbles_of(data@.take(i + 1));
            assert(data@.take(i as int).len() == i);
            assert(before.len() == 2 * i);
            assert(now.len() == res@.len());
            assert(now.len() == want.len());
            assert forall|k: int| 0 <= k < want.len() implies now[k] == want[k] by {
                if k < 2 * i {
                    assert(now[k] == before[k]);
                    assert(data@.take(i + 1)[k / 2] == data@.take(i as int)[k / 2]);
                } else {
                    assert(data@.take(i + 1)[k / 2] == b);
                }
            }
            assert(now =~= want);
        }
        i += 1;
    }
    assert(data@.take(data@.len() as int) == data@);
    res
}

/// Joins each two half bytes into a byte, the first as the high half.
pub fn nibbles_to_bytes(nibs: &[Nibble]) -> (res: Vec<u8>)
    ensures
        res@ == bytes_of(nibble_values(nibs@)),
{
    let ghost nv = nibble_values(nibs@);
    let mut res: Vec<u8> = Vec::new();
    let n = nibs.len();
    let m = n / 2 + n % 2;
    let mut k: usize = 0;
    while k < m
        invariant
            k <= m == (n + 1) / 2,
            n == nibs@.len(),
            nv == nibble_values(nibs@),
            res@.len() == k,
            forall|j: int| 0 <= j < k ==> #[trigger] res@[j] == bytes_of(nv)[j],
        decreases m - k,
    {
        let hi = nibs[2 * k].0;
        let lo = if 2 * k + 1 < n { nibs[2 * k + 1].0 } else { 0 };
        res.push((hi << 4) | lo);
        k += 1;
    }
    assert(res@ =~= bytes_of(nv));
    res
}

/// Splitting bytes into half bytes and joining them again gives the bytes.
pub proof fn lemma_nibbles_roundtrip(data: Seq<u8>)
    ensures
        bytes_of(nibbles_of(data)) == data,
{
    let n = nibbles_of(data);
    assert forall|i: int| 0 <= i < data.len() implies #[trigger] bytes_of(n)[i] == data[i] by {
        let b = data[i];
        assert(n[2 * i] == b / 16 && n[2 * i + 1] == b % 16);
        assert(((b / 16) << 4u8) | (b % 16) == b) by (bit_vector);
    }
    assert(bytes_of(n) =~= data);
}

/// Joining an even number of half bytes into bytes and splitting them again
/// gives the half bytes.
pub proof fn lemma_bytes_roundtrip(nibs: Seq<u8>)
    requires
        nibs.len() % 2 == 0,
        forall|i: int| 0 <= i < nibs.len() ==> #[trigger] nibs[i] < 16,
    ensures
        nibbles_of(bytes_of(nibs)) == nibs,
{
    let b = bytes_of(nibs);
    assert forall|i: int| 0 <= i < nibs.len() implies #[trigger] nibbles_of(b)[i] == nibs[i] by {
        let j = i / 2;
        let hi = nibs[2 * j];
        let lo = nibs[2 * j + 1];
        assert(hi < 16 && lo < 16);
        assert(b[j] == (hi << 4u8) | lo);
        assert(hi < 16 && lo < 16 ==> ((hi << 4u8) | lo) / 16 == hi && ((hi << 4u8) | lo) % 16
            == lo) by (bit_vector);
    }
    assert(nibbles_of(b) =~= nibs);
}

} // verus!
