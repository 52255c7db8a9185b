//! Flagging half bytes whose parity breaks the Gold code pattern, and bytes
//! never seen in a reference corpus, with a proposed correction for each.

use vstd::prelude::*;
use crate::gold::GoldSeq;
use crate::nibble::{count_ones, lemma_flip_changes_parity, ones, Nibble};

verus! {

/// The number of times `b` occurs in `data`.
pub open spec fn occurrences(data: Seq<u8>, b: u8) -> nat
    decreases data.len(),
{
    if data.len() == 0 {
        0
    } else {
        occurrences(data.drop_last(), b) + if data.last() == b { 1nat } else { 0nat }
    }
}

/// The sum of the counts `c`.
pub open spec fn count_sum(c: Seq<usize>) -> int
    decreases c.len(),
{
    if c.len() == 0 {
        0
    } else {
        count_sum(c.drop_last()) + c.last()
    }
}

proof fn lemma_count_sum_update(c: Seq<usize>, i: int, v: usize)
    requires
        0 <= i < c.len(),
    ensures
        count_sum(c.update(i, v)) == count_sum(c) - c[i] + v,
    decreases c.len(),
{
    if i < c.len() - 1 {
        assert(c.update(i, v).drop_last() == c.drop_last().update(i, v));
        lemma_count_sum_update(c.drop_last(), i, v);
    } else {
        assert(c.update(i, v).drop_last() == c.drop_last());
    }
}

proof fn lemma_count_sum_bound(c: Seq<usize>, i: int)
    requires
        0 <= i < c.len(),
    ensures
        c[i] <= count_sum(c),
        0 <= count_sum(c),
    decreases c.len(),
{
    lemma_count_sum_nonnegative(c);
    if i < c.len() - 1 {
        assert(c[i] == c.drop_last()[i]);
        lemma_count_sum_bound(c.drop_last(), i);
    } else {
        lemma_count_sum_nonnegative(c.drop_last());
    }
}

proof fn lemma_count_sum_nonnegative(c: Seq<usize>)
    ensures
        0 <= count_sum(c),
    decreases c.len(),
{
    if c.len() > 0 {
        lemma_count_sum_nonnegative(c.drop_last());
    }
}

/// How often each byte value occurs in a corpus, and the corpus size.
pub struct ByteFreq {
    counts: Vec<usize>,
    total: usize,
}

/// The content of a `ByteFreq`: a count per byte value, and their sum.
pub struct ByteFreqView {
    pub counts: Seq<usize>,
    pub total: usize,
}

impl View for ByteFreq {
    type V = ByteFreqView;

    closed spec fn view(&self) -> ByteFreqView {
        ByteFreqView { counts: self.counts@, total: self.total }
    }
}

impl ByteFreq {
    /// There is one count per byte value, and the total is their sum.
    pub open spec fn wf(&self) -> bool {
        &&& self@.counts.len() == 256
        &&& self@.total == count_sum(self@.counts)
    }

    /// The counts of an empty corpus.
    pub fn new() -> (res: Self)
        ensures
            res.wf(),
            res@.total == 0,
            forall|b: int| 0 <= b < 256 ==> #[trigger] res@.counts[b] == 0,
    {
        let mut counts: Vec<usize> = Vec::new();
        let mut i: usize = 0;
        while i < 256
            invariant
                i <= 256,
                counts@.len() == i,
                forall|b: int| 0 <= b < i ==> #[trigger] counts@[b] == 0,
                count_sum(counts@) == 0,
            decreases 256 - i,
        {
            let ghost prev = counts@;
            counts.push(0);
            assert(counts@.drop_last() == prev);
            i += 1;
        }
        ByteFreq { counts, total: 0 }
    }

    /// Counts the bytes of `data` in.
    pub fn add_bytes(&mut self, data: &[u8])
        requires
            old(self).wf(),
            old(self)@.total + data@.len() <= usize::MAX,
        ensures
            final(self).wf(),
            final(self)@.total == old(self)@.total + data@.len(),
            forall|b: u8| #[trigger] final(self)@.counts[b as int] == old(self)@.counts[b as int]
                + occurrences(data@, b),
    {
        let ghost start = self@;
        let mut i: usize = 0;
        while i < data.len()
            invariant
                i <= data@.len(),
                self.wf(),
                start.counts.len() == 256,
                start.total + data@.len() <= usize::MAX,
                self@.total == start.total + i,
                forall|b: u8| #[trigger] self@.counts[b as int] == start.counts[b as int]
                    + occurrences(data@.take(i as int), b),
            decreases data.len() - i,
        {
            let b = data[i];
            let ghost before = self@.counts;
            proof {
                lemma_count_sum_bound(before, b as int);
                lemma_count_sum_update(before, b as int, (before[b as int] + 1) as usize);
            }
            let c = self.counts[b as usize];
            self.counts.set(b as usize, c + 1);
            self.total = self.total + 1;
            proof {
                assert(data@.take(i + 1).drop_last() == data@.take(i as int));
                assert forall|x: u8| #[trigger] self@.counts[x as int] == start.counts[x as int]
                    + occurrences(data@.take(i + 1), x) by {
                    if x != b {
                        assert(self@.counts[x as int] == before[x as int]);
                    }
                }
            }
            i += 1;
        }
        proof {
            assert(data@.take(data@.len() as int) == data@);
        }
    }

    /// How often `b` occurs.
    pub fn count(&self, b: u8) -> (c: usize)
        requires
            self.wf(),
        ensures
            c == self@.counts[b as int],
    {
        self.counts[b as usize]
    }

    /// The size of the corpus.
    pub fn total(&self) -> (t: usize)
        ensures
            t == self@.total,
    {
        self.total
    }

    /// How many different byte values occur.
    pub fn distinct(&self) -> (n: usize)
        requires
            self.wf(),
        ensures
            n == Set::new(|b: int| 0 <= b < 256 && self@.counts[b] > 0).len(),
    {
        let mut n: usize = 0;
        let mut i: usize = 0;
        assert(Set::new(|b: int| 0 <= b < 0 && self@.counts[b] > 0) =~= Set::<int>::empty());
        while i < 256
            invariant
                i <= 256,
                self.wf(),
                n <= i,
                n == Set::new(|b: int| 0 <= b < i && self@.counts[b] > 0).len(),
            decreases 256 - i,
        {
            let ghost before = Set::new(|b: int| 0 <= b < i && self@.counts[b] > 0);
            let ghost after = Set::new(|b: int| 0 <= b < i + 1 && self@.counts[b] > 0);
            proof {
                lemma_below_finite(self@.counts, i as int);
            }
            if self.counts[i] > 0 {
                assert(after == before.insert(i as int));
                n += 1;
            } else {
                assert(after == before);
            }
            i += 1;
        }
        n
    }
}

proof fn lemma_below_finite(c: Seq<usize>, i: int)
    requires
        0 <= i,
    ensures
        Set::new(|b: int| 0 <= b < i && c[b] > 0).finite(),
        !Set::new(|b: int| 0 <= b < i && c[b] > 0).contains(i),
{
    let s = Set::new(|b: int| 0 <= b < i && c[b] > 0);
    let r = vstd::set_lib::set_int_range(0, i);
    assert(s.subset_of(r));
    vstd::set_lib::lemma_int_range(0, i);
    vstd::set_lib::lemma_len_subset(s, r);
}


/// The recursion depth at which no more corrections are proposed.
pub const MAX_RECURSION: usize = 10;

/// A confidence in a proposed correction, the fraction `num / den`.
#[derive(Clone, Copy)]
pub struct Confidence {
    pub num: u64,
    pub den: u64,
}

/// Why a half byte was flagged.
#[derive(Clone, Copy)]
pub enum DetectionKind {
    ParityViolation,
    HammingOutlier,
    OovAnchor,
}

/// A flagged half byte and the correction proposed for it.
#[derive(Clone, Copy)]
pub struct Detection {
    pub nibble_pos: usize,
    pub original: Nibble,
    pub proposed: Nibble,
    pub confidence: Confidence,
    pub depth: usize,
    pub kind: DetectionKind,
}

/// The parity (0 or 1) of the one bits of `x`.
pub open spec fn parity_of(x: u8) -> u8 {
    (ones(x) % 2) as u8
}

/// `x` with bit `p` flipped.
pub open spec fn flip(x: u8, p: u8) -> u8 {
    x ^ (1u8 << p)
}

/// The correction of `x` towards the parity `target` at recursion depth
/// `depth`: the first of bits 0, 3, 1, 2 whose flip gives that parity,
/// with confidence 3/4 (bits 0 and 3) or 1/2 (bits 1 and 2) divided by
/// `depth + 1`; no change, with confidence 0, when none does or when the
/// depth has reached its limit.
pub open spec fn repair_spec(x: u8, target: u8, depth: int) -> (u8, Confidence) {
    let zero = Confidence { num: 0, den: 1 };
    if depth >= MAX_RECURSION {
        (x, zero)
    } else if parity_of(flip(x, 0)) == target {
        (flip(x, 0), Confidence { num: 3, den: (4 * (depth + 1)) as u64 })
    } else if parity_of(flip(x, 3)) == target {
        (flip(x, 3), Confidence { num: 3, den: (4 * (depth + 1)) as u64 })
    } else if parity_of(flip(x, 1)) == target {
        (flip(x, 1), Confidence { num: 1, den: (2 * (depth + 1)) as u64 })
    } else if parity_of(flip(x, 2)) == target {
        (flip(x, 2), Confidence { num: 1, den: (2 * (depth + 1)) as u64 })
    } else {
        (x, zero)
    }
}

/// Proposes a half byte with the parity `target_parity`, one bit away from
/// `nib`, and the confidence in it.
pub fn repair_nibble(nib: Nibble, target_parity: u8, depth: usize) -> (res: (Nibble, Confidence))
    ensures
        res.0.0 == repair_spec(nib.0, target_parity, depth as int).0,
        res.1 == repair_spec(nib.0, target_parity, depth as int).1,
{
    if depth >= MAX_RECURSION {
        return (nib, Confidence { num: 0, den: 1 });
    }
    let order: [u8; 4] = [0, 3, 1, 2];
    let mut k: usize = 0;
    while k < 4
        invariant
            k <= 4,
            depth < MAX_RECURSION,
            order@ == seq![0u8, 3u8, 1u8, 2u8],
            forall|j: int| 0 <= j < k ==> parity_of(#[trigger] flip(nib.0, order@[j])) != target_parity,
        decreases 4 - k,
    {
        let bit_pos = order[k];
        let candidate = Nibble(nib.0 ^ (1u8 << bit_pos));
        if candidate.parity() == target_parity {
            let conf = if bit_pos == 0 || bit_pos == 3 {
                Confidence { num: 3, den: 4 * (depth as u64 + 1) }
            } else {
                Confidence { num: 1, den: 2 * (depth as u64 + 1) }
            };
            proof {
                assert(parity_of(flip(nib.0, order@[0])) != target_parity || k == 0);
            }
            return (candidate, conf);
        }
        k += 1;
    }
    proof {
        assert(parity_of(flip(nib.0, order@[0])) != target_parity);
        assert(parity_of(flip(nib.0, order@[1])) != target_parity);
        assert(parity_of(flip(nib.0, order@[2])) != target_parity);
        assert(parity_of(flip(nib.0, order@[3])) != target_parity);
    }
    (nib, Confidence { num: 0, den: 1 })
}

/// Below the depth limit, a half byte whose parity is not the target is
/// repaired by flipping its lowest bit, with confidence 3/4 divided by
/// `depth + 1`; one whose parity is the target is left as it is.
pub proof fn lemma_repair_flips_lowest_bit(x: u8, target: u8, depth: int)
    requires
        0 <= depth < MAX_RECURSION,
        target <= 1,
    ensures
        target != parity_of(x) ==> repair_spec(x, target, depth) == (
            flip(x, 0),
            Confidence { num: 3, den: (4 * (depth + 1)) as u64 },
        ),
        target == parity_of(x) ==> repair_spec(x, target, depth).0 == x,
{
    lemma_flip_changes_parity(x, 0);
    lemma_flip_changes_parity(x, 3);
    lemma_flip_changes_parity(x, 1);
    lemma_flip_changes_parity(x, 2);
}

/// Whether `b` occurs in the corpus.
pub open spec fn present(f: ByteFreqView, b: int) -> bool {
    f.counts[b] > 0
}

/// The bits in which `x` and `b` differ.
pub open spec fn distance(x: u8, b: u8) -> int {
    ones(x ^ b)
}

/// Among the bytes below `k` that occur in the corpus, the first one at the
/// least distance from `x`, with that distance.
pub open spec fn nearest_below(x: u8, f: ByteFreqView, k: int) -> Option<(u8, int)>
    decreases k,
{
    if k <= 0 {
        None
    } else {
        let r = nearest_below(x, f, k - 1);
        let b = (k - 1) as u8;
        let closer = match r {
            None => true,
            Some((_, d)) => distance(x, b) < d,
        };
        if present(f, k - 1) && closer {
            Some((b, distance(x, b)))
        } else {
            r
        }
    }
}

/// The byte made of the half bytes `hi` and `lo`.
pub open spec fn join_halves(hi: u8, lo: u8) -> u8 {
    (hi << 4u8) | lo
}

/// The byte nearest to `x` is the first one at the least distance.
pub proof fn lemma_nearest_is_first_minimum(x: u8, f: ByteFreqView, k: int)
    requires
        0 <= k <= 256,
    ensures
        nearest_below(x, f, k) is None <==> forall|b: int| 0 <= b < k ==> !present(f, b),
        nearest_below(x, f, k) matches Some((b, d)) ==> {
            &&& 0 <= b < k
            &&& present(f, b as int)
            &&& d == distance(x, b)
            &&& forall|c: int| 0 <= c < k && present(f, c) ==> distance(x, c as u8) >= d
            &&& forall|c: int| 0 <= c < b && present(f, c) ==> distance(x, c as u8) > d
        },
    decreases k,
{
    if k > 0 {
        lemma_nearest_is_first_minimum(x, f, k - 1);
    }
}

/// The high half of the corpus byte nearest in bits to the byte made of
/// `hi` and `lo` (the first such byte on a tie), and its distance; `None`
/// when the corpus is empty.
pub fn nearest_known(hi: Nibble, lo: Nibble, freq: &ByteFreq) -> (res: Option<(Nibble, u32)>)
    requires
        freq.wf(),
    ensures
        match nearest_below(join_halves(hi.0, lo.0), freq@, 256) {
            None => res is None,
            Some((b, d)) => res matches Some((n, r)) && n.0 == b >> 4u8 && r as int == d,
        },
{
    let orig_byte = (hi.0 << 4) | lo.0;
    let mut best_nibble = hi;
    let mut best_byte: u8 = 0;
    let mut best_dist: u32 = u32::MAX;
    let mut i: usize = 0;
    while i < 256
        invariant
            i <= 256,
            freq.wf(),
            orig_byte == join_halves(hi.0, lo.0),
            match nearest_below(orig_byte, freq@, i as int) {
                None => best_dist == u32::MAX,
                Some((b, d)) => best_dist as int == d && best_byte == b && best_nibble.0
                    == b >> 4u8 && d <= 8,
            },
        decreases 256 - i,
    {
        let b = i as u8;
        if freq.count(b) > 0 {
            let dist = count_ones(orig_byte ^ b);
            if dist < best_dist {
                best_dist = dist;
                best_byte = b;
                best_nibble = Nibble(b >> 4);
            }
        }
        i += 1;
    }
    if best_dist < u32::MAX {
        Some((best_nibble, best_dist))
    } else {
        None
    }
}

/// Whether the byte `b` never occurs in the corpus, so that its conditional
/// entropy is infinite (also when the corpus is empty).
pub open spec fn out_of_vocabulary(f: ByteFreqView, b: u8) -> bool {
    f.total == 0 || f.counts[b as int] == 0
}

/// Whether the byte `b` never occurs in the corpus.
pub fn is_out_of_vocabulary(freq: &ByteFreq, b: u8) -> (res: bool)
    requires
        freq.wf(),
    ensures
        res == out_of_vocabulary(freq@, b),
{
    freq.total() == 0 || freq.count(b) == 0
}

/// The parity flag at half byte `i`, if its parity differs from the Gold
/// code bit at `4 * i` xor-ed with the parity of `i`.
pub open spec fn parity_detection(nibs: Seq<Nibble>, gold: Seq<u8>, depth: int, i: int) -> Seq<
    Detection,
> {
    let nib = nibs[i];
    let g = gold[(4 * i) % (gold.len() as int)];
    let expected = g ^ ((i % 2) as u8);
    if parity_of(nib.0) != expected {
        let (p, c) = repair_spec(nib.0, expected, depth + 1);
        seq![
            Detection {
                nibble_pos: i as usize,
                original: nib,
                proposed: Nibble(p),
                confidence: c,
                depth: depth as usize,
                kind: DetectionKind::ParityViolation,
            },
        ]
    } else {
        Seq::empty()
    }
}

/// The corpus flag at an even half byte `i`, if the byte it starts (with a
/// zero low half at the end) never occurs in the corpus and a corpus byte
/// lies within two bits of it: that byte's high half is proposed.
pub open spec fn anchor_detection(nibs: Seq<Nibble>, f: ByteFreqView, depth: int, i: int) -> Seq<
    Detection,
> {
    let hi = nibs[i];
    let lo = if i + 1 < nibs.len() { nibs[i + 1] } else { Nibble(0) };
    let token = join_halves(hi.0, lo.0);
    if i % 2 == 0 && out_of_vocabulary(f, token) && depth < MAX_RECURSION {
        match nearest_below(token, f, 256) {
            Some((b, d)) => if d <= 2 {
                seq![
                    Detection {
                        nibble_pos: i as usize,
                        original: hi,
                        proposed: Nibble(b >> 4u8),
                        confidence: Confidence { num: 1, den: (d + 1) as u64 },
                        depth: depth as usize,
                        kind: DetectionKind::OovAnchor,
                    },
                ]
            } else {
                Seq::empty()
            },
            None => Seq::empty(),
        }
    } else {
        Seq::empty()
    }
}

/// The flags of the first `m` half bytes, in order of position, a parity
/// flag before a corpus flag at the same position.
pub open spec fn detections_upto(
    nibs: Seq<Nibble>,
    gold: Seq<u8>,
    f: ByteFreqView,
    depth: int,
    m: int,
) -> Seq<Detection>
    decreases m,
{
    if m <= 0 {
        Seq::empty()
    } else {
        detections_upto(nibs, gold, f, depth, m - 1) + parity_detection(nibs, gold, depth, m - 1)
            + anchor_detection(nibs, f, depth, m - 1)
    }
}

/// Some detection in `dets` flags half byte `i` for its parity.
pub open spec fn flagged_for_parity(dets: Seq<Detection>, i: int) -> bool {
    exists|k: int|
        0 <= k < dets.len() && #[trigger] dets[k].nibble_pos == i && dets[k].kind
            is ParityViolation
}

proof fn lemma_detections_positions(
    nibs: Seq<Nibble>,
    gold: Seq<u8>,
    f: ByteFreqView,
    depth: int,
    m: int,
)
    requires
        gold.len() > 0,
        0 <= m <= nibs.len() <= usize::MAX,
    ensures
        forall|k: int|
            0 <= k < detections_upto(nibs, gold, f, depth, m).len() ==> #[trigger] detections_upto(
                nibs,
                gold,
                f,
                depth,
                m,
            )[k].nibble_pos < m,
    decreases m,
{
    if m > 0 {
        lemma_detections_positions(nibs, gold, f, depth, m - 1);
    }
}

/// Half byte `i` is flagged for its parity exactly when its parity differs
/// from the Gold code bit at position `4 * i` (counted cyclically) xor-ed
/// with the parity of `i`: the flags of the first `m` half bytes name just
/// those of them.
pub proof fn lemma_parity_flags(nibs: Seq<Nibble>, gold: Seq<u8>, f: ByteFreqView, depth: int, m: int)
    requires
        gold.len() > 0,
        0 <= m <= nibs.len() <= usize::MAX,
    ensures
        forall|i: int|
            0 <= i < m ==> (flagged_for_parity(#[trigger] detections_upto(nibs, gold, f, depth, m), i)
                <==> parity_of(nibs[i].0) != gold[(4 * i) % (gold.len() as int)] ^ ((i % 2) as u8)),
        forall|i: int|
            m <= i ==> !flagged_for_parity(#[trigger] detections_upto(nibs, gold, f, depth, m), i),
    decreases m,
{
    if m > 0 {
        let prev = detections_upto(nibs, gold, f, depth, m - 1);
        let par = parity_detection(nibs, gold, depth, m - 1);
        let anc = anchor_detection(nibs, f, depth, m - 1);
        let cur = detections_upto(nibs, gold, f, depth, m);
        lemma_parity_flags(nibs, gold, f, depth, m - 1);
        lemma_detections_positions(nibs, gold, f, depth, m - 1);
        assert(cur == prev + par + anc);
        assert forall|i: int| 0 <= i < m implies (flagged_for_parity(cur, i) <==> parity_of(nibs[i].0)
            != gold[(4 * i) % (gold.len() as int)] ^ ((i % 2) as u8)) by {
            if flagged_for_parity(cur, i) {
                let k = choose|k: int|
                    0 <= k < cur.len() && #[trigger] cur[k].nibble_pos == i && cur[k].kind
                        is ParityViolation;
                if k < prev.len() {
                    assert(prev[k] == cur[k]);
                    assert(flagged_for_parity(prev, i));
                } else if k < prev.len() + par.len() {
                    assert(cur[k] == par[k - prev.len()]);
                } else {
                    assert(cur[k] == anc[k - prev.len() - par.len()]);
                }
            }
            if i < m - 1 {
                if flagged_for_parity(prev, i) {
                    let k = choose|k: int|
                        0 <= k < prev.len() && #[trigger] prev[k].nibble_pos == i && prev[k].kind
                            is ParityViolation;
                    assert(cur[k] == prev[k]);
                }
            } else {
                if par.len() > 0 {
                    assert(cur[prev.len() as int] == par[0]);
                    assert(cur[prev.len() as int].nibble_pos == i);
                }
            }
        }
        assert forall|i: int| m <= i implies !flagged_for_parity(cur, i) by {
            if flagged_for_parity(cur, i) {
                let k = choose|k: int|
                    0 <= k < cur.len() && #[trigger] cur[k].nibble_pos == i && cur[k].kind
                        is ParityViolation;
                if k < prev.len() {
                    assert(prev[k] == cur[k]);
                } else if k < prev.len() + par.len() {
                    assert(cur[k] == par[k - prev.len()]);
                } else {
                    assert(cur[k] == anc[k - prev.len() - par.len()]);
                }
            }
        }
    } else {
        assert forall|i: int| m <= i implies !flagged_for_parity(
            detections_upto(nibs, gold, f, depth, m),
            i,
        ) by {}
    }
}

/// Flags the half bytes whose parity breaks the Gold code pattern, and the
/// bytes never seen in the corpus that lie close to one that was; nothing at
/// or beyond the depth limit.
pub fn detect_errors(nibs: &[Nibble], gold: &GoldSeq, freq: &ByteFreq, depth: usize) -> (res: Vec<
    Detection,
>)
    requires
        gold@.len() > 0,
        freq.wf(),
        nibs@.len() * 4 <= usize::MAX,
    ensures
        depth >= MAX_RECURSION ==> res@.len() == 0,
        depth < MAX_RECURSION ==> res@ == detections_upto(
            nibs@,
            gold@,
            freq@,
            depth as int,
            nibs@.len() as int,
        ),
        depth < MAX_RECURSION ==> forall|i: int|
            0 <= i < nibs@.len() ==> (flagged_for_parity(res@, i) <==> parity_of(nibs@[i].0)
                != gold@[(4 * i) % (gold@.len() as int)] ^ ((i % 2) as u8)),
{
    let mut dets: Vec<Detection> = Vec::new();
    if depth >= MAX_RECURSION {
        return dets;
    }
    let n = nibs.len();
    let mut i: usize = 0;
    while i < n
        invariant
            i <= n == nibs@.len(),
            n * 4 <= usize::MAX,
            depth < MAX_RECURSION,
            gold@.len() > 0,
            freq.wf(),
            dets@ == detections_upto(nibs@, gold@, freq@, depth as int, i as int),
        decreases n - i,
    {
        let ghost before = dets@;
        if let Some(d) = parity_check(nibs, gold, depth, i) {
            dets.push(d);
        }
        assert(dets@ == before + parity_detection(nibs@, gold@, depth as int, i as int));
        let ghost mid = dets@;
        if let Some(d) = anchor_check(nibs, freq, depth, i) {
            dets.push(d);
        }
        assert(dets@ == mid + anchor_detection(nibs@, freq@, depth as int, i as int));
        i += 1;
    }
    proof {
        lemma_parity_flags(nibs@, gold@, freq@, depth as int, n as int);
    }
    dets
}

/// The parity flag at half byte `i`, if any.
fn parity_check(nibs: &[Nibble], gold: &GoldSeq, depth: usize, i: usize) -> (res: Option<Detection>)
    requires
        i < nibs@.len(),
        nibs@.len() * 4 <= usize::MAX,
        gold@.len() > 0,
        depth < MAX_RECURSION,
    ensures
        parity_detection(nibs@, gold@, depth as int, i as int) == match res {
            Some(d) => seq![d],
            None => Seq::<Detection>::empty(),
        },
{
    let nib = nibs[i];
    let g = gold.bit(i * 4);
    let expected = g ^ ((i % 2) as u8);
    if nib.parity() != expected {
        let (proposed, conf) = repair_nibble(nib, expected, depth + 1);
        Some(
            Detection {
                nibble_pos: i,
                original: nib,
                proposed,
                confidence: conf,
                depth,
                kind: DetectionKind::ParityViolation,
            },
        )
    } else {
        None
    }
}

/// The corpus flag at half byte `i`, if any.
fn anchor_check(nibs: &[Nibble], freq: &ByteFreq, depth: usize, i: usize) -> (res: Option<Detection>)
    requires
        i < nibs@.len(),
        freq.wf(),
        depth < MAX_RECURSION,
    ensures
        anchor_detection(nibs@, freq@, depth as int, i as int) == match res {
            Some(d) => seq![d],
            None => Seq::<Detection>::empty(),
        },
{
    if i % 2 != 0 {
        return None;
    }
    let hi = nibs[i];
    let lo = if i + 1 < nibs.len() { nibs[i + 1] } else { Nibble(0) };
    let token = (hi.0 << 4) | lo.0;
    if !is_out_of_vocabulary(freq, token) {
        return None;
    }
    match nearest_known(hi, lo, freq) {
        Some((best, dist)) => {
            if dist <= 2 {
                Some(
                    Detection {
                        nibble_pos: i,
                        original: hi,
                        proposed: best,
                        confidence: Confidence { num: 1, den: dist as u64 + 1 },
                        depth,
                        kind: DetectionKind::OovAnchor,
                    },
                )
            } else {
                None
            }
        },
        None => None,
    }
}

/// High confidence: above one tenth.
pub open spec fn confident(c: Confidence) -> bool {
    10 * c.num > c.den
}

/// The half bytes after the corrections proposed with high confidence,
/// applied in order.
pub open spec fn corrected(nibs: Seq<u8>, dets: Seq<Detection>) -> Seq<u8>
    decreases dets.len(),
{
    if dets.len() == 0 {
        nibs
    } else {
        let prev = corrected(nibs, dets.drop_last());
        let d = dets.last();
        if confident(d.confidence) && d.nibble_pos < nibs.len() {
            prev.update(d.nibble_pos as int, d.proposed.0)
        } else {
            prev
        }
    }
}

/// Applies the corrections proposed with a confidence above one tenth.
pub fn apply_corrections(nibs: &[Nibble], dets: &Vec<Detection>) -> (res: Vec<Nibble>)
    ensures
        crate::nibble::nibble_values(res@) == corrected(crate::nibble::nibble_values(nibs@), dets@),
{
    let mut res: Vec<Nibble> = Vec::new();
    let mut i: usize = 0;
    while i < nibs.len()
        invariant
            i <= nibs@.len(),
            res@ == nibs@.take(i as int),
        decreases nibs.len() - i,
    {
        res.push(nibs[i]);
        i += 1;
    }
    assert(nibs@.take(nibs@.len() as int) == nibs@);
    let ghost nv = crate::nibble::nibble_values(nibs@);
    let mut k: usize = 0;
    while k < dets.len()
        invariant
            k <= dets@.len(),
            res@.len() == nibs@.len(),
            nv == crate::nibble::nibble_values(nibs@),
            crate::nibble::nibble_values(res@) == corrected(nv, dets@.take(k as int)),
        decreases dets.len() - k,
    {
        let d = dets[k];
        assert(dets@.take(k + 1).drop_last() == dets@.take(k as int));
        let ghost before = crate::nibble::nibble_values(res@);
        if 10 * (d.confidence.num as u128) > d.confidence.den as u128 && d.nibble_pos < res.len() {
            res.set(d.nibble_pos, d.proposed);
            assert(crate::nibble::nibble_values(res@) =~= before.update(d.nibble_pos as int, d.proposed.0));
        }
        k += 1;
    }
    assert(dets@.take(dets@.len() as int) == dets@);
    res
}

/// The number of corpus flags among `dets`.
pub open spec fn anchor_count(dets: Seq<Detection>) -> int
    decreases dets.len(),
{
    if dets.len() == 0 {
        0
    } else {
        anchor_count(dets.drop_last()) + if dets.last().kind is OovAnchor { 1int } else { 0int }
    }
}

/// Counts the corpus flags.
pub fn count_anchors(dets: &Vec<Detection>) -> (n: usize)
    ensures
        n == anchor_count(dets@),
{
    let mut n: usize = 0;
    let mut k: usize = 0;
    while k < dets.len()
        invariant
            k <= dets@.len(),
            n == anchor_count(dets@.take(k as int)),
            n <= k,
        decreases dets.len() - k,
    {
        assert(dets@.take(k + 1).drop_last() == dets@.take(k as int));
        if matches!(dets[k].kind, DetectionKind::OovAnchor) {
            n += 1;
        }
        k += 1;
    }
    assert(dets@.take(dets@.len() as int) == dets@);
    n
}


/// The parity of each half byte, in order.
pub fn parity_signal(nibs: &[Nibble]) -> (res: Vec<u8>)
    ensures
        res@.len() == nibs@.len(),
        forall|i: int| 0 <= i < nibs@.len() ==> #[trigger] res@[i] == parity_of(nibs@[i].0),
{
    let mut res: Vec<u8> = Vec::new();
    let mut i: usize = 0;
    while i < nibs.len()
        invariant
            i <= nibs@.len(),
            res@.len() == i,
            forall|k: int| 0 <= k < i ==> #[trigger] res@[k] == parity_of(nibs@[k].0),
        decreases nibs.len() - i,
    {
        res.push(nibs[i].parity());
        i += 1;
    }
    res
}

/// The first `n` bits of the Gold code, counted cyclically.
pub fn gold_reference(gold: &GoldSeq, n: usize) -> (res: Vec<u8>)
    requires
        gold@.len() > 0,
    ensures
        res@.len() == n,
        forall|i: int| 0 <= i < n ==> #[trigger] res@[i] == gold@[i % (gold@.len() as int)],
{
    let mut res: Vec<u8> = Vec::new();
    let mut i: usize = 0;
    while i < n
        invariant
            i <= n,
            gold@.len() > 0,
            res@.len() == i,
            forall|k: int| 0 <= k < i ==> #[trigger] res@[k] == gold@[k % (gold@.len() as int)],
        decreases n - i,
    {
        res.push(gold.bit(i));
        i += 1;
    }
    res
}

} // verus!
