use croll::cli::{check_strict, parse_args, parse_col_spec, ArgsOutcome, Cli};
use croll::number::{looks_like_number_start, parse_value, valid_number};
use croll::number::UnitSig;
use croll::rows::{
    format_output, handle_error, process_row, split_fields, split_lines, trim_fixed_point, RowOutcome,
};

fn strings(v: &[&str]) -> Vec<String> {
    v.iter().map(|s| s.to_string()).collect()
}

fn cli(keys: &[&str], agg: &str) -> Cli {
    Cli {
        key_cols: strings(keys),
        agg_col: agg.to_string(),
        emit_all: false,
        bulk_sort: false,
        min_values: Vec::new(),
        max_values: Vec::new(),
        strict: 0,
        file: None,
    }
}

#[test]
fn column_references_count_from_one_with_dollar_and_from_zero_without() {
    assert_eq!(parse_col_spec("$2", 3, false), Ok(1));
    assert_eq!(parse_col_spec("2", 3, false), Ok(2));
    assert_eq!(parse_col_spec("+1", 3, false), Ok(1));
    assert_eq!(parse_col_spec("$+2", 3, true), Ok(1));
}

#[test]
fn column_reference_errors() {
    assert_eq!(
        parse_col_spec("$0", 3, true),
        Err("$0 is special and only valid as sole -k value".to_string())
    );
    assert_eq!(parse_col_spec("$0", 3, false), Err("$0 is invalid for -a".to_string()));
    assert_eq!(parse_col_spec("$4", 3, false), Err("column index out of range: $4".to_string()));
    assert_eq!(parse_col_spec("3", 3, false), Err("column index out of range: 3".to_string()));
    assert_eq!(parse_col_spec("$x", 3, false), Err("invalid awk-style column: $x".to_string()));
    assert_eq!(parse_col_spec("x", 3, false), Err("invalid zero-based column: x".to_string()));
    assert_eq!(parse_col_spec("-1", 3, false), Err("invalid zero-based column: -1".to_string()));
    assert_eq!(parse_col_spec("", 3, false), Err("invalid zero-based column: ".to_string()));
    assert_eq!(
        parse_col_spec("99999999999999999999999", 3, false),
        Err("invalid zero-based column: 99999999999999999999999".to_string())
    );
}

#[test]
fn valid_numbers() {
    for s in ["12", "+1.5", "-.5", "5.", "007", "0.0"] {
        assert!(valid_number(s), "{s}");
    }
    for s in [".", "+", "", "1.2.3", "1a", "+-1", "-", "+."] {
        assert!(!valid_number(s), "{s}");
    }
}

#[test]
fn number_starts() {
    let c: Vec<char> = "a+5".chars().collect();
    assert!(!looks_like_number_start(&c, 0));
    assert!(looks_like_number_start(&c, 1));
    assert!(looks_like_number_start(&c, 2));
    let c: Vec<char> = "-.".chars().collect();
    assert!(looks_like_number_start(&c, 0));
    assert!(!looks_like_number_start(&c, 1));
    let c: Vec<char> = "+x".chars().collect();
    assert!(!looks_like_number_start(&c, 0));
    let c: Vec<char> = ".5".chars().collect();
    assert!(looks_like_number_start(&c, 0));
    let c: Vec<char> = "+".chars().collect();
    assert!(!looks_like_number_start(&c, 0));
}

fn parts(raw: &str) -> (String, String, String) {
    let v = parse_value(raw).unwrap();
    (v.unit.pre, v.number, v.unit.post)
}

#[test]
fn values_split_into_prefix_number_and_suffix() {
    assert_eq!(parts("3kg"), ("".into(), "3".into(), "kg".into()));
    assert_eq!(parts(" $ 12.50 USD "), ("$".into(), "12.50".into(), "USD".into()));
    assert_eq!(parts("v1.2.3"), ("v".into(), "1.2".into(), ".3".into()));
    assert_eq!(parts("--5"), ("-".into(), "-5".into(), "".into()));
    assert_eq!(parts("1e5"), ("".into(), "1".into(), "e5".into()));
    assert_eq!(parts("4\u{a0}kg"), ("".into(), "4".into(), "kg".into()));
    assert_eq!(parts("-.5m"), ("".into(), "-.5".into(), "m".into()));
}

#[test]
fn values_without_number_are_refused() {
    assert_eq!(parse_value("abc").err(), Some("invalid numeric value: abc".to_string()));
    assert_eq!(parse_value("+.x").err(), Some("invalid numeric value: +.x".to_string()));
    assert_eq!(parse_value("").err(), Some("invalid numeric value: ".to_string()));
}

#[test]
fn fixed_point_text_is_trimmed() {
    assert_eq!(trim_fixed_point("3.5000000000"), "3.5");
    assert_eq!(trim_fixed_point("7.0000000000"), "7");
    assert_eq!(trim_fixed_point("100.0000000000"), "100");
    assert_eq!(trim_fixed_point("0.0000000000"), "0");
    assert_eq!(trim_fixed_point("-0.0000000000"), "-0");
}

#[test]
fn output_lines() {
    let unit = UnitSig { pre: "$".to_string(), post: "USD".to_string() };
    assert_eq!(format_output(&strings(&["A", "x"]), &unit, "3"), "A\tx\t$3USD");
    assert_eq!(format_output(&strings(&[]), &unit, "3"), "$3USD");
    assert_eq!(format_output(&strings(&[""]), &unit, "3"), "$3USD");
    assert_eq!(format_output(&strings(&["", ""]), &unit, "3"), "\t\t$3USD");
}

#[test]
fn error_responses_by_strict_level() {
    assert_eq!(handle_error(0, "m"), Ok(None));
    assert_eq!(handle_error(1, "m"), Ok(Some("warning: m".to_string())));
    assert_eq!(handle_error(2, "m"), Err("m".to_string()));
    assert_eq!(handle_error(3, "m"), Err("m".to_string()));
    assert_eq!(check_strict(3), Ok(()));
    assert_eq!(check_strict(4), Err("--strict must be 0..=3".to_string()));
}

#[test]
fn command_line_is_read() {
    let args = strings(&["-k", "0", "1", "-a", "2", "--min", "4kg", "--max", "9kg", "-A", "--bulk-sort", "--strict", "2", "file.tsv"]);
    match parse_args(args) {
        Ok(ArgsOutcome::Run(c)) => {
            assert_eq!(c.key_cols, strings(&["0", "1"]));
            assert_eq!(c.agg_col, "2");
            assert_eq!(c.min_values, strings(&["4kg"]));
            assert_eq!(c.max_values, strings(&["9kg"]));
            assert!(c.emit_all && c.bulk_sort);
            assert_eq!(c.strict, 2);
            assert_eq!(c.file, Some("file.tsv".to_string()));
        }
        _ => panic!("expected a run"),
    }
    match parse_args(strings(&["-k", "0", "-a", "-1", "--all"])) {
        Ok(ArgsOutcome::Run(c)) => {
            assert_eq!(c.agg_col, "-1");
            assert!(c.emit_all);
        }
        _ => panic!("expected a run"),
    }
}

#[test]
fn command_line_errors_and_help() {
    let err = |a: &[&str]| match parse_args(strings(a)) {
        Err(e) => e,
        _ => panic!("expected an error"),
    };
    assert_eq!(err(&["-k", "-a", "1"]), "-k and -a are required");
    assert_eq!(err(&["-a"]), "missing value for -a");
    assert_eq!(err(&["--min"]), "missing value for --min");
    assert_eq!(err(&["--max"]), "missing value for --max");
    assert_eq!(err(&["--strict"]), "missing value for --strict");
    assert_eq!(err(&["--strict", "x"]), "invalid --strict level");
    assert_eq!(err(&["--strict", "300"]), "invalid --strict level");
    assert_eq!(err(&["-x"]), "unknown option: -x");
    assert!(matches!(parse_args(strings(&["-k", "0", "-a", "1", "-h"])), Ok(ArgsOutcome::Help)));
    assert!(matches!(parse_args(strings(&["--help", "-x"])), Ok(ArgsOutcome::Help)));
}

#[test]
fn lines_and_fields() {
    assert_eq!(split_lines("a\r\n\nb\n\r\nc"), strings(&["a", "b", "c"]));
    assert_eq!(split_lines(""), strings(&[]));
    assert_eq!(split_fields("a\t\tb"), strings(&["a", "", "b"]));
    assert_eq!(split_fields(""), strings(&[""]));
}

#[test]
fn rows_give_key_and_value() {
    match process_row(&cli(&["$0"], "2"), &strings(&["a", "5kg", "b"])) {
        RowOutcome::Rejected(e) => assert_eq!(e, "invalid numeric value: b"),
        _ => panic!("expected a rejection"),
    }
    match process_row(&cli(&["$0"], "1"), &strings(&["a", "5kg", "b"])) {
        RowOutcome::Row(r) => {
            assert_eq!(r.key, strings(&["a", "b"]));
            assert_eq!(r.value.number, "5");
            assert_eq!(r.value.unit.post, "kg");
        }
        _ => panic!("expected a row"),
    }
    match process_row(&cli(&["9"], "1"), &strings(&["a", "5kg", "b"])) {
        RowOutcome::Rejected(e) => assert_eq!(e, "column index out of range: 9"),
        _ => panic!("expected a rejection"),
    }
    match process_row(&cli(&["0"], "$0"), &strings(&["a", "5kg"])) {
        RowOutcome::Rejected(e) => assert_eq!(e, "$0 is invalid for -a"),
        _ => panic!("expected a rejection"),
    }
    assert!(matches!(process_row(&cli(&[], "1"), &strings(&["a", "5kg"])), RowOutcome::Skipped));
}
