use croll::aggregate::{parse_limits, Aggregator, FinalReport, Measure};
use croll::cli::{check_strict, parse_args, ArgsOutcome};
use croll::order::KeySig;
use croll::rows::{format_output, handle_error, process_row, split_fields, split_lines, trim_fixed_point, RowOutcome};

const BLOCK: &str = "A\tx\t1kg\nA\tx\t2kg\nB\ty\t3kg\nA\tx\t4kg\n";
const UNITS: &str = "item1\t1L\nitem1\t1000mL\nitem1\t2L\n";

fn trim_float(v: f64) -> String {
    trim_fixed_point(&format!("{v:.10}"))
}

struct Outcome {
    success: bool,
    stdout: String,
    stderr: String,
}

fn limit_values(raws: &Vec<String>) -> Result<(croll::aggregate::Limits, Vec<f64>), String> {
    let limits = parse_limits(raws)?;
    let values = limits.numbers.iter().map(|n| n.parse::<f64>().unwrap()).collect();
    Ok((limits, values))
}

fn drive(args: &[&str], input: &str, out: &mut String, err: &mut String) -> Result<(), String> {
    let args: Vec<String> = args.iter().map(|s| s.to_string()).collect();
    let cli = match parse_args(args)? {
        ArgsOutcome::Run(cli) => cli,
        ArgsOutcome::Help => return Ok(()),
    };
    check_strict(cli.strict)?;
    let (mins, min_values) = limit_values(&cli.min_values)?;
    let (maxs, max_values) = limit_values(&cli.max_values)?;
    let mut agg = Aggregator::new(cli.bulk_sort, cli.emit_all);
    let mut totals: Vec<f64> = Vec::new();
    let mut running = 0.0f64;
    for line in split_lines(input) {
        let cols = split_fields(&line);
        let row = match process_row(&cli, &cols) {
            RowOutcome::Row(r) => r,
            RowOutcome::Rejected(e) => {
                if let Some(w) = handle_error(cli.strict, &e)? {
                    err.push_str(&w);
                    err.push('\n');
                }
                continue;
            }
            RowOutcome::Skipped => continue,
        };
        let num: f64 = row.value.number.parse().unwrap();
        let act = agg.step(KeySig { key: row.key, unit: row.value.unit });
        if let Some(prev) = act.flush {
            let k = agg.key(prev);
            out.push_str(&format_output(&k.key, &k.unit, &trim_float(running)));
            out.push('\n');
        }
        if act.slot == totals.len() {
            totals.push(0.0);
        }
        let value = match act.measure {
            Measure::Total => {
                totals[act.slot] += num;
                totals[act.slot]
            }
            Measure::Running { restart } => {
                if restart {
                    running = num;
                } else {
                    running += num;
                }
                totals[act.slot] += num;
                running
            }
        };
        let sig = agg.key(act.slot);
        if let Some(slot) = mins.units.lookup(&sig.unit) {
            if value < min_values[slot] {
                return Err(format!("cumulative value below min for key {:?}", sig.key));
            }
        }
        if let Some(slot) = maxs.units.lookup(&sig.unit) {
            if value > max_values[slot] {
                return Err(format!("cumulative value above max for key {:?}", sig.key));
            }
        }
        if act.emit {
            out.push_str(&format_output(&sig.key, &sig.unit, &trim_float(value)));
            out.push('\n');
        }
    }
    match agg.final_report() {
        FinalReport::Nothing => {}
        FinalReport::Running(slot) => {
            let k = agg.key(slot);
            out.push_str(&format_output(&k.key, &k.unit, &trim_float(running)));
            out.push('\n');
        }
        FinalReport::Totals(slots) => {
            for slot in slots {
                let k = agg.key(slot);
                out.push_str(&format_output(&k.key, &k.unit, &trim_float(totals[slot])));
                out.push('\n');
            }
        }
    }
    if cli.strict == 3 {
        if let Some(k) = agg.mixed_units_key() {
            return Err(format!("strict level 3 violation: mixed units for key {:?}", k));
        }
    }
    if cli.emit_all {
        for slot in agg.summary_order() {
            let k = agg.key(slot);
            err.push_str(&format_output(&k.key, &k.unit, &trim_float(totals[slot])));
            err.push('\n');
        }
    }
    Ok(())
}

fn run_croll(args: &[&str], input: &str) -> Outcome {
    let mut stdout = String::new();
    let mut stderr = String::new();
    let res = drive(args, input, &mut stdout, &mut stderr);
    if let Err(e) = &res {
        stderr.push_str(e);
        stderr.push('\n');
    }
    Outcome { success: res.is_ok(), stdout, stderr }
}

#[test]
fn default_mode_emits_block_totals() {
    let output = run_croll(&["-k", "0", "1", "-a", "2"], BLOCK);
    assert!(output.success);
    assert_eq!(output.stdout, "A\tx\t3kg\nB\ty\t3kg\nA\tx\t4kg\n");
}

#[test]
fn all_mode_emits_rows_and_summary_on_stderr() {
    let output = run_croll(&["-k", "0", "-a", "1", "-A"], UNITS);
    assert!(output.success);
    assert_eq!(output.stdout, "item1\t1L\nitem1\t1000mL\nitem1\t2L\n");
    assert!(output.stderr.contains("item1\t3L"));
    assert!(output.stderr.contains("item1\t1000mL"));
}

#[test]
fn bulk_sort_aggregates_across_stream() {
    let output = run_croll(&["-k", "0", "1", "-a", "2", "--bulk-sort"], BLOCK);
    assert!(output.success);
    assert_eq!(output.stdout, "A\tx\t7kg\nB\ty\t3kg\n");
}

#[test]
fn strict3_rejects_mixed_units_for_same_key() {
    let output = run_croll(&["-k", "0", "-a", "1", "--strict", "3"], UNITS);
    assert!(!output.success);
    assert!(output.stderr.contains("mixed units"));
}

#[test]
fn min_limit_is_enforced() {
    let output = run_croll(&["-k", "0", "1", "-a", "2", "--min", "4kg"], BLOCK);
    assert!(!output.success);
    assert!(output.stderr.contains("below min"));
}

#[test]
fn max_limit_is_enforced_on_the_running_total() {
    let output = run_croll(&["-k", "0", "1", "-a", "2", "--max", "2.5kg"], BLOCK);
    assert!(!output.success);
    assert!(output.stderr.contains("above max for key [\"A\", \"x\"]"));
}

#[test]
fn a_later_limit_for_a_unit_replaces_an_earlier_one() {
    let output = run_croll(&["-k", "0", "1", "-a", "2", "--min", "4kg", "--min", "1kg"], BLOCK);
    assert!(output.success);
}

#[test]
fn limits_of_other_units_do_not_apply() {
    let output = run_croll(&["-k", "0", "1", "-a", "2", "--min", "4L"], BLOCK);
    assert!(output.success);
}

#[test]
fn summary_on_stderr_is_sorted_by_key() {
    let output = run_croll(&["-k", "0", "-a", "1", "-A", "--bulk-sort"], "b\t1\na\t2\nb\t3\n");
    assert!(output.success);
    assert_eq!(output.stdout, "b\t1\na\t2\nb\t4\n");
    assert_eq!(output.stderr, "a\t2\nb\t4\n");
}

#[test]
fn faulty_rows_warn_at_level_one_and_stop_at_level_two() {
    let input = "A\t1kg\nB\tnone\nA\t2kg\n";
    let relaxed = run_croll(&["-k", "0", "-a", "1"], input);
    assert!(relaxed.success);
    assert_eq!(relaxed.stdout, "A\t3kg\n");
    assert_eq!(relaxed.stderr, "");
    let warned = run_croll(&["-k", "0", "-a", "1", "--strict", "1"], input);
    assert!(warned.success);
    assert_eq!(warned.stderr, "warning: invalid numeric value: none\n");
    let strict = run_croll(&["-k", "0", "-a", "1", "--strict", "2"], input);
    assert!(!strict.success);
    assert_eq!(strict.stderr, "invalid numeric value: none\n");
}

#[test]
fn strict_level_above_three_is_refused() {
    let output = run_croll(&["-k", "0", "-a", "1", "--strict", "4"], BLOCK);
    assert!(!output.success);
    assert_eq!(output.stderr, "--strict must be 0..=3\n");
}

#[test]
fn whole_row_key_uses_every_other_column() {
    let output = run_croll(&["-k", "$0", "-a", "$3"], BLOCK);
    assert!(output.success);
    assert_eq!(output.stdout, "A\tx\t3kg\nB\ty\t3kg\nA\tx\t4kg\n");
}

#[test]
fn units_around_numbers_and_decimals_are_kept() {
    let output = run_croll(&["-k", "0", "-a", "1"], "p\t$1.25 USD\np\t$ 2.5USD\nq\t-3 m/s\r\n\n");
    assert!(output.success);
    assert_eq!(output.stdout, "p\t$3.75USD\nq\t-3m/s\n");
}
