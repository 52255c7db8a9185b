//! A Gold code from two Galois shift registers, and the cyclic
//! correlation of a bit stream with a reference.

use vstd::prelude::*;

verus! {

/// The state of register A after `k` steps from the seed 1: each step
/// shifts right and feeds bit 0 xor bit 14 back into bit 14.
pub open spec fn register_a(k: nat) -> u32
    decreases k,
{
    if k == 0 {
        1
    } else {
        let a = register_a((k - 1) as nat);
        let fb = (a & 1) ^ ((a >> 14u32) & 1);
        (a >> 1u32) | (fb << 14u32)
    }
}

/// The state of register B after `k` steps from the seed 3: each step
/// shifts right and feeds bits 0, 14, 12 and 9 xor-ed back into bit 14.
pub open spec fn register_b(k: nat) -> u32
    decreases k,
{
    if k == 0 {
        3
    } else {
        let b = register_b((k - 1) as nat);
        let fb = (b & 1) ^ ((b >> 14u32) & 1) ^ ((b >> 12u32) & 1) ^ ((b >> 9u32) & 1);
        (b >> 1u32) | (fb << 14u32)
    }
}

proof fn lemma_shift_in(r: u32, fb: u32, j: u32, j1: u32)
    by (bit_vector)
    requires
        r < 0x8000,
        fb <= 1,
        j < 14,
        j1 == j + 1,
    ensures
        ((r >> 1u32) | (fb << 14u32)) < 0x8000,
        (((r >> 1u32) | (fb << 14u32)) >> j) & 1 == (r >> j1) & 1,
        (((r >> 1u32) | (fb << 14u32)) >> 14u32) & 1 == fb,
{
}

proof fn lemma_feedback_bits(r: u32)
    by (bit_vector)
    ensures
        (r & 1) ^ ((r >> 14u32) & 1) <= 1,
        (r & 1) ^ ((r >> 14u32) & 1) ^ ((r >> 12u32) & 1) ^ ((r >> 9u32) & 1) <= 1,
        (r >> 0u32) & 1 == r & 1,
{
}

proof fn lemma_seed_bits(j: u32)
    by (bit_vector)
    requires
        j <= 14,
    ensures
        (1u32 >> j) & 1 == (if j == 0 { 1u32 } else { 0u32 }),
        (3u32 >> j) & 1 == (if j < 2 { 1u32 } else { 0u32 }),
{
}

proof fn lemma_register_a_bound(k: nat)
    ensures
        register_a(k) < 0x8000,
    decreases k,
{
    if k > 0 {
        lemma_register_a_bound((k - 1) as nat);
        let r = register_a((k - 1) as nat);
        lemma_feedback_bits(r);
        lemma_shift_in(r, (r & 1) ^ ((r >> 14u32) & 1), 0, 1);
    }
}

proof fn lemma_register_a_bits(k: nat, j: u32)
    requires
        j <= 14,
    ensures
        register_a(k) < 0x8000,
        (register_a(k) >> j) & 1 == register_a((k + j) as nat) & 1,
    decreases j,
{
    lemma_register_a_bound(k);
    let r = register_a(k);
    lemma_feedback_bits(r);
    if j > 0 {
        let fb = (r & 1) ^ ((r >> 14u32) & 1);
        lemma_shift_in(r, fb, (j - 1) as u32, j);
        lemma_register_a_bits(k + 1, (j - 1) as u32);
        assert(register_a(k + 1) == (r >> 1u32) | (fb << 14u32));
        assert(k + 1 + (j - 1) as u32 == k + j);
    }
}

proof fn lemma_register_b_bound(k: nat)
    ensures
        register_b(k) < 0x8000,
    decreases k,
{
    if k > 0 {
        lemma_register_b_bound((k - 1) as nat);
        let r = register_b((k - 1) as nat);
        lemma_feedback_bits(r);
        lemma_shift_in(r, (r & 1) ^ ((r >> 14u32) & 1) ^ ((r >> 12u32) & 1) ^ ((r >> 9u32) & 1), 0, 1);
    }
}

proof fn lemma_register_b_bits(k: nat, j: u32)
    requires
        j <= 14,
    ensures
        register_b(k) < 0x8000,
        (register_b(k) >> j) & 1 == register_b((k + j) as nat) & 1,
    decreases j,
{
    lemma_register_b_bound(k);
    let r = register_b(k);
    lemma_feedback_bits(r);
    if j > 0 {
        let fb = (r & 1) ^ ((r >> 14u32) & 1) ^ ((r >> 12u32) & 1) ^ ((r >> 9u32) & 1);
        lemma_shift_in(r, fb, (j - 1) as u32, j);
        lemma_register_b_bits(k + 1, (j - 1) as u32);
        assert(register_b(k + 1) == (r >> 1u32) | (fb << 14u32));
        assert(k + 1 + (j - 1) as u32 == k + j);
    }
}

/// The output bits of register A follow the polynomial x^15 + x^14 + 1:
/// bit `k + 15` is bit `k` xor bit `k + 14`; from the seed 1 the first
/// fifteen are 1 and then fourteen zeros.
pub proof fn lemma_register_a_recurrence(k: nat)
    ensures
        register_a(k + 15) & 1 == (register_a(k) & 1) ^ (register_a(k + 14) & 1),
        k <= 14 ==> register_a(k) & 1 == (if k == 0 { 1u32 } else { 0u32 }),
{
    let r = register_a(k);
    lemma_register_a_bits(k, 14);
    lemma_register_a_bits(k, 0);
    lemma_feedback_bits(r);
    let fb = (r & 1) ^ ((r >> 14u32) & 1);
    lemma_shift_in(r, fb, 0, 1);
    assert(register_a(k + 1) == (r >> 1u32) | (fb << 14u32));
    lemma_register_a_bits(k + 1, 14);
    assert(k + 1 + 14u32 == k + 15);
    if k <= 14 {
        lemma_register_a_bits(0, k as u32);
        lemma_seed_bits(k as u32);
    }
}

/// The output bits of register B follow the polynomial
/// x^15 + x^13 + x^10 + 1: bit `k + 15` is the xor of bits `k`, `k + 9`,
/// `k + 12` and `k + 14`; from the seed 3 the first fifteen are 1, 1 and
/// then thirteen zeros.
pub proof fn lemma_register_b_recurrence(k: nat)
    ensures
        register_b(k + 15) & 1 == (register_b(k) & 1) ^ (register_b(k + 9) & 1) ^ (register_b(k + 12)
            & 1) ^ (register_b(k + 14) & 1),
        k <= 14 ==> register_b(k) & 1 == (if k < 2 { 1u32 } else { 0u32 }),
{
    let r = register_b(k);
    lemma_register_b_bits(k, 14);
    lemma_register_b_bits(k, 12);
    lemma_register_b_bits(k, 9);
    lemma_register_b_bits(k, 0);
    lemma_feedback_bits(r);
    let fb = (r & 1) ^ ((r >> 14u32) & 1) ^ ((r >> 12u32) & 1) ^ ((r >> 9u32) & 1);
    lemma_shift_in(r, fb, 0, 1);
    assert(fb == (r & 1) ^ ((r >> 9u32) & 1) ^ ((r >> 12u32) & 1) ^ ((r >> 14u32) & 1)) by (bit_vector)
        requires
            fb == (r & 1) ^ ((r >> 14u32) & 1) ^ ((r >> 12u32) & 1) ^ ((r >> 9u32) & 1);
    assert(register_b(k + 1) == (r >> 1u32) | (fb << 14u32));
    lemma_register_b_bits(k + 1, 14);
    assert(k + 1 + 14u32 == k + 15);
    if k <= 14 {
        lemma_register_b_bits(0, k as u32);
        lemma_seed_bits(k as u32);
    }
}

/// Bit `k` of the Gold code: the low bits of both registers xor-ed.
pub open spec fn gold_bit(k: nat) -> u8 {
    ((register_a(k) & 1) ^ (register_b(k) & 1)) as u8
}

/// The first bits of a Gold code.
pub struct GoldSeq {
    bits: Vec<u8>,
}

impl View for GoldSeq {
    type V = Seq<u8>;

    closed spec fn view(&self) -> Seq<u8> {
        self.bits@
    }
}

impl GoldSeq {
    /// The first `len` bits of the Gold code.
    pub fn new(len: usize) -> (res: Self)
        ensures
            res@ == Seq::new(len as nat, |k: int| gold_bit(k as nat)),
    {
        let mut a: u32 = 1;
        let mut b: u32 = 3;
        let mut bits: Vec<u8> = Vec::new();
        let mut k: usize = 0;
        while k < len
            invariant
                k <= len,
                a == register_a(k as nat),
                b == register_b(k as nat),
                bits@ == Seq::new(k as nat, |j: int| gold_bit(j as nat)),
            decreases len - k,
        {
            let bit_a = a & 1;
            let bit_b = b & 1;
            bits.push((bit_a ^ bit_b) as u8);
            let fb_a = bit_a ^ ((a >> 14) & 1);
            a = (a >> 1) | (fb_a << 14);
            let fb_b = bit_b ^ ((b >> 14) & 1) ^ ((b >> 12) & 1) ^ ((b >> 9) & 1);
            b = (b >> 1) | (fb_b << 14);
            assert(bits@ =~= Seq::new((k + 1) as nat, |j: int| gold_bit(j as nat)));
            k += 1;
        }
        GoldSeq { bits }
    }

    /// The number of bits.
    pub fn len(&self) -> (n: usize)
        ensures
            n == self@.len(),
    {
        self.bits.len()
    }

    /// Bit `i`, counted cyclically.
    pub fn bit(&self, i: usize) -> (r: u8)
        requires
            self@.len() > 0,
        ensures
            r == self@[(i as int) % (self@.len() as int)],
    {
        self.bits[i % self.bits.len()]
    }
}

/// A bit as a sign: 0 counts as -1 and 1 as +1 (in general `2b - 1`).
pub open spec fn signed(b: u8) -> int {
    2 * (b as int) - 1
}

/// The sum, over `i < m`, of `sig[i]` times `reference[(i + shift) % n]`,
/// both as signs.
pub open spec fn correlation_sum(sig: Seq<u8>, reference: Seq<u8>, n: int, shift: int, m: int) -> int
    decreases m,
{
    if m <= 0 {
        0
    } else {
        correlation_sum(sig, reference, n, shift, m - 1) + signed(sig[m - 1]) * signed(
            reference[(m - 1 + shift) % n],
        )
    }
}

/// The cyclic correlation sums of `sig` against `reference`, one for each
/// shift below `n`, the shorter of the two lengths; divided by `n` they are
/// the correlation coefficients.
pub fn cyclic_xcorr_sums(sig: &[u8], reference: &[u8]) -> (res: Vec<i128>)
    ensures
        ({
            let n = if sig@.len() < reference@.len() { sig@.len() } else { reference@.len() };
            &&& res@.len() == n
            &&& forall|shift: int|
                0 <= shift < n ==> #[trigger] res@[shift] == correlation_sum(
                    sig@,
                    reference@,
                    n as int,
                    shift,
                    n as int,
                )
        }),
{
    let n = if sig.len() < reference.len() { sig.len() } else { reference.len() };
    let mut res: Vec<i128> = Vec::new();
    let mut shift: usize = 0;
    while shift < n
        invariant
            shift <= n,
            n <= sig@.len(),
            n <= reference@.len(),
            res@.len() == shift,
            forall|s: int|
                0 <= s < shift ==> #[trigger] res@[s] == correlation_sum(
                    sig@,
                    reference@,
                    n as int,
                    s,
                    n as int,
                ),
        decreases n - shift,
    {
        let mut sum: i128 = 0;
        let mut i: usize = 0;
        while i < n
            invariant
                i <= n,
                shift < n,
                n <= sig@.len(),
                n <= reference@.len(),
                sum == correlation_sum(sig@, reference@, n as int, shift as int, i as int),
                -(i as int) * 0x4_0000 <= sum <= (i as int) * 0x4_0000,
            decreases n - i,
        {
            let s = sig[i] as i128 * 2 - 1;
            let j = if i >= n - shift { i - (n - shift) } else { i + shift };
            assert(j as int == (i + shift) % (n as int)) by (nonlinear_arith)
                requires
                    j == (if i >= n - shift { i - (n - shift) } else { i + shift }),
                    0 <= i < n,
                    0 <= shift < n;
            let r = reference[j] as i128 * 2 - 1;
            assert(-0x4_0000 <= s * r <= 0x4_0000) by (nonlinear_arith)
                requires
                    -1 <= s <= 509,
                    -1 <= r <= 509;
            sum = sum + s * r;
            i += 1;
        }
        res.push(sum);
        shift += 1;
    }
    res
}

} // verus!
