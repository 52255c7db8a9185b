use croll::detect::{
    apply_corrections, count_anchors, detect_errors, gold_reference, is_out_of_vocabulary,
    nearest_known, parity_signal, repair_nibble, ByteFreq, DetectionKind,
};
use croll::gold::{cyclic_xcorr_sums, GoldSeq};
use croll::nibble::{bytes_to_nibbles, count_ones, nibbles_to_bytes, Nibble};

fn values(n: &[Nibble]) -> Vec<u8> {
    n.iter().map(|x| x.0).collect()
}

#[test]
fn nibble_bits() {
    let n = Nibble(0b1010);
    assert_eq!(n.mbs(), 1);
    assert_eq!(n.lbs(), 0);
    assert_eq!(n.parity(), 0);
    assert_eq!(Nibble(0b0111).parity(), 1);
    assert_eq!(Nibble(0).hamming_to(Nibble(0b1111)), 4);
    assert_eq!(count_ones(255), 8);
    assert_eq!(count_ones(0), 0);
}

#[test]
fn nibble_text() {
    assert_eq!(Nibble(5).debug_text(), "0101(5)");
    assert_eq!(Nibble(15).debug_text(), "1111(F)");
    assert_eq!(Nibble(0).debug_text(), "0000(0)");
    assert_eq!(Nibble(31).debug_text(), "11111(1F)");
}

#[test]
fn bytes_and_nibbles_round_trip() {
    let n = bytes_to_nibbles(&[0xAB, 0x01]);
    assert_eq!(values(&n), vec![0xA, 0xB, 0x0, 0x1]);
    assert_eq!(nibbles_to_bytes(&n), vec![0xAB, 0x01]);
    assert_eq!(nibbles_to_bytes(&[Nibble(0xA), Nibble(0xB), Nibble(0xC)]), vec![0xAB, 0xC0]);
    assert_eq!(nibbles_to_bytes(&[]), Vec::<u8>::new());
}

#[test]
fn gold_code_bits() {
    let g = GoldSeq::new(20);
    let bits: Vec<u8> = (0..20).map(|i| g.bit(i)).collect();
    assert_eq!(bits, vec![0, 1, 0, 0, 0, 0, 0, 0, 0, 0, 0, 0, 0, 0, 0, 0, 1, 1, 0, 0]);
    assert_eq!(g.bit(21), 1);
    assert_eq!(g.len(), 20);
    assert_eq!(gold_reference(&g, 3), vec![0, 1, 0]);
}

#[test]
fn cyclic_correlation_sums() {
    assert_eq!(cyclic_xcorr_sums(&[1, 0, 1], &[1, 1, 0, 0]), vec![-1, 3, -1]);
    assert_eq!(cyclic_xcorr_sums(&[], &[1]), Vec::<i128>::new());
}

#[test]
fn byte_frequencies() {
    let mut f = ByteFreq::new();
    f.add_bytes(b"aab");
    assert_eq!(f.count(b'a'), 2);
    assert_eq!(f.count(b'b'), 1);
    assert_eq!(f.count(b'c'), 0);
    assert_eq!(f.total(), 3);
    assert_eq!(f.distinct(), 2);
    assert!(is_out_of_vocabulary(&f, b'c'));
    assert!(!is_out_of_vocabulary(&f, b'a'));
    assert!(is_out_of_vocabulary(&ByteFreq::new(), b'a'));
}

#[test]
fn repairs_flip_the_lowest_bit_first() {
    let (n, c) = repair_nibble(Nibble(0), 1, 1);
    assert_eq!(n.0, 1);
    assert_eq!((c.num, c.den), (3, 8));
    let (n, c) = repair_nibble(Nibble(1), 1, 1);
    assert_eq!(n.0, 1);
    assert_eq!((c.num, c.den), (0, 1));
    let (n, c) = repair_nibble(Nibble(0), 1, 10);
    assert_eq!(n.0, 0);
    assert_eq!((c.num, c.den), (0, 1));
}

#[test]
fn nearest_known_byte() {
    let mut f = ByteFreq::new();
    assert!(nearest_known(Nibble(4), Nibble(0), &f).is_none());
    f.add_bytes(&[0x41]);
    let (n, d) = nearest_known(Nibble(4), Nibble(0), &f).unwrap();
    assert_eq!((n.0, d), (4, 1));
    let mut g = ByteFreq::new();
    g.add_bytes(&[0x03, 0x10]);
    let (n, d) = nearest_known(Nibble(0), Nibble(1), &g).unwrap();
    assert_eq!((n.0, d), (0, 1));
}

#[test]
fn detections_and_corrections() {
    let nibs = bytes_to_nibbles(&[0x41]);
    let gold = GoldSeq::new(nibs.len() * 4 + 1);
    let mut known = ByteFreq::new();
    known.add_bytes(b"A");
    let dets = detect_errors(&nibs, &gold, &known, 0);
    assert_eq!(dets.len(), 1);
    assert_eq!(dets[0].nibble_pos, 0);
    assert_eq!((dets[0].original.0, dets[0].proposed.0), (4, 5));
    assert_eq!((dets[0].confidence.num, dets[0].confidence.den), (3, 8));
    assert!(matches!(dets[0].kind, DetectionKind::ParityViolation));
    assert_eq!(count_anchors(&dets), 0);
    let fixed = apply_corrections(&nibs, &dets);
    assert_eq!(nibbles_to_bytes(&fixed), vec![0x51]);

    let mut near = ByteFreq::new();
    near.add_bytes(&[0x43]);
    let dets = detect_errors(&nibs, &gold, &near, 0);
    assert_eq!(dets.len(), 2);
    assert!(matches!(dets[1].kind, DetectionKind::OovAnchor));
    assert_eq!((dets[1].proposed.0, dets[1].confidence.num, dets[1].confidence.den), (4, 1, 2));
    assert_eq!(count_anchors(&dets), 1);
    assert_eq!(detect_errors(&nibs, &gold, &near, 10).len(), 0);
    assert_eq!(parity_signal(&nibs), vec![1, 1]);
}
