use croll::aggregate::{parse_limits, Aggregator, FinalReport, LimitTable, Measure};
use croll::number::UnitSig;
use croll::order::{key_less, str_less, KeySig};

fn unit(pre: &str, post: &str) -> UnitSig {
    UnitSig { pre: pre.to_string(), post: post.to_string() }
}

fn sig(key: &[&str], post: &str) -> KeySig {
    KeySig { key: key.iter().map(|s| s.to_string()).collect(), unit: unit("", post) }
}

#[test]
fn block_mode_continues_a_run_and_flushes_on_a_new_key() {
    let mut agg = Aggregator::new(false, false);
    let a = agg.step(sig(&["A"], "kg"));
    assert_eq!(a.slot, 0);
    assert_eq!(a.flush, None);
    assert!(matches!(a.measure, Measure::Running { restart: true }));
    assert!(!a.emit);
    let b = agg.step(sig(&["A"], "kg"));
    assert_eq!(b.slot, 0);
    assert_eq!(b.flush, None);
    assert!(matches!(b.measure, Measure::Running { restart: false }));
    let c = agg.step(sig(&["B"], "kg"));
    assert_eq!(c.slot, 1);
    assert_eq!(c.flush, Some(0));
    assert!(matches!(c.measure, Measure::Running { restart: true }));
    let d = agg.step(sig(&["A"], "kg"));
    assert_eq!(d.slot, 0);
    assert_eq!(d.flush, Some(1));
    assert!(matches!(agg.final_report(), FinalReport::Running(0)));
    assert_eq!(agg.slot_count(), 2);
}

#[test]
fn emitting_every_row_flushes_nothing() {
    let mut agg = Aggregator::new(false, true);
    agg.step(sig(&["A"], "kg"));
    let b = agg.step(sig(&["B"], "kg"));
    assert_eq!(b.flush, None);
    assert!(b.emit);
    assert!(matches!(agg.final_report(), FinalReport::Nothing));
}

#[test]
fn bulk_mode_reports_keys_in_first_seen_order() {
    let mut agg = Aggregator::new(true, false);
    for k in ["b", "a", "b", "c"] {
        let act = agg.step(sig(&[k], ""));
        assert!(matches!(act.measure, Measure::Total));
        assert_eq!(act.flush, None);
    }
    match agg.final_report() {
        FinalReport::Totals(v) => assert_eq!(v, vec![0, 1, 2]),
        _ => panic!("expected totals"),
    }
    assert_eq!(agg.key(0).key, vec!["b".to_string()]);
}

#[test]
fn summary_order_sorts_keys_then_units() {
    let mut agg = Aggregator::new(true, true);
    agg.step(sig(&["b"], "kg"));
    agg.step(sig(&["a", "z"], "kg"));
    agg.step(sig(&["a"], "kg"));
    agg.step(sig(&["b"], "g"));
    agg.step(KeySig { key: vec!["b".to_string()], unit: unit("$", "g") });
    assert_eq!(agg.summary_order(), vec![2, 1, 3, 0, 4]);
}

#[test]
fn mixed_units_are_found_per_key() {
    let mut agg = Aggregator::new(false, false);
    agg.step(sig(&["item1"], "L"));
    agg.step(sig(&["item2"], "L"));
    assert_eq!(agg.mixed_units_key(), None);
    agg.step(sig(&["item1"], "mL"));
    assert_eq!(agg.mixed_units_key(), Some(vec!["item1".to_string()]));
}

#[test]
fn strings_compare_by_characters() {
    assert!(str_less("a", "b"));
    assert!(str_less("a", "ab"));
    assert!(!str_less("ab", "a"));
    assert!(!str_less("a", "a"));
    assert!(str_less("", "a"));
    assert!(str_less("Z", "a"));
    assert!(key_less(&sig(&["a"], "kg"), &sig(&["a", ""], "")));
    assert!(key_less(&sig(&["a"], "g"), &sig(&["a"], "kg")));
}

#[test]
fn limit_table_keeps_one_slot_per_unit() {
    let mut t = LimitTable::new();
    assert_eq!(t.set(unit("", "kg")), 0);
    assert_eq!(t.set(unit("$", "")), 1);
    assert_eq!(t.set(unit("", "kg")), 0);
    assert_eq!(t.lookup(&unit("$", "")), Some(1));
    assert_eq!(t.lookup(&unit("", "g")), None);
}

#[test]
fn later_limits_replace_earlier_ones() {
    let raws: Vec<String> = ["4kg", "2 L", "1kg"].iter().map(|s| s.to_string()).collect();
    let l = parse_limits(&raws).unwrap();
    assert_eq!(l.numbers, vec!["1".to_string(), "2".to_string()]);
    assert_eq!(l.units.lookup(&unit("", "L")), Some(1));
    let bad: Vec<String> = ["4kg", "x", "y"].iter().map(|s| s.to_string()).collect();
    assert_eq!(parse_limits(&bad).err(), Some("invalid numeric value: x".to_string()));
}
