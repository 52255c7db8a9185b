//! The command line: options, and the column references they carry.

use vstd::prelude::*;
use vstd::string::*;
use crate::text::{concat, parse_unsigned_range, parse_unsigned_spec, to_chars};

verus! {

broadcast use vstd::string::group_string_axioms;

/// The views of a sequence of strings.
pub open spec fn strings_view(v: Seq<String>) -> Seq<Seq<char>> {
    v.map_values(|s: String| s@)
}

/// Whether two strings hold the same characters.
pub fn str_eq(s: &str, t: &str) -> (res: bool)
    ensures
        res == (s@ == t@),
{
    let a = s.to_owned();
    let b = t.to_owned();
    a == b
}

/// Whether `s` starts with a minus sign.
pub open spec fn starts_with_dash(s: Seq<char>) -> bool {
    s.len() > 0 && s[0] == '-'
}

/// Whether `s` starts with a minus sign.
pub fn starts_with_dash_exec(s: &str) -> (res: bool)
    ensures
        res == starts_with_dash(s@),
{
    let c = to_chars(s);
    c.len() > 0 && c[0] == '-'
}

/// The columns asked for, in the form the command line gives them.
pub struct Cli {
    pub key_cols: Vec<String>,
    pub agg_col: String,
    pub emit_all: bool,
    pub bulk_sort: bool,
    pub min_values: Vec<String>,
    pub max_values: Vec<String>,
    pub strict: u8,
    pub file: Option<String>,
}

/// The content of a `Cli`.
pub struct CliView {
    pub key_cols: Seq<Seq<char>>,
    pub agg_col: Seq<char>,
    pub emit_all: bool,
    pub bulk_sort: bool,
    pub min_values: Seq<Seq<char>>,
    pub max_values: Seq<Seq<char>>,
    pub strict: u8,
    pub file: Option<Seq<char>>,
}

impl View for Cli {
    type V = CliView;

    open spec fn view(&self) -> CliView {
        CliView {
            key_cols: strings_view(self.key_cols@),
            agg_col: self.agg_col@,
            emit_all: self.emit_all,
            bulk_sort: self.bulk_sort,
            min_values: strings_view(self.min_values@),
            max_values: strings_view(self.max_values@),
            strict: self.strict,
            file: match self.file {
                Some(f) => Some(f@),
                None => None,
            },
        }
    }
}

/// The settings before any option is read.
pub open spec fn default_cli() -> CliView {
    CliView {
        key_cols: Seq::empty(),
        agg_col: Seq::empty(),
        emit_all: false,
        bulk_sort: false,
        min_values: Seq::empty(),
        max_values: Seq::empty(),
        strict: 0,
        file: None,
    }
}

/// What the command line asks for: a run, or the usage line.
pub enum ArgsOutcome {
    Run(Cli),
    Help,
}

/// The first position at or after `j` that ends the values of `-k`: the end
/// of the arguments or an argument that starts with a minus sign.
pub open spec fn end_of_values(args: Seq<Seq<char>>, j: int) -> int
    decreases args.len() - j,
{
    if j >= args.len() || j < 0 || starts_with_dash(args[j]) {
        j
    } else {
        end_of_values(args, j + 1)
    }
}

/// The result of reading `args` from position `i` on with the settings `cli`
/// read so far: `Ok(None)` asks for the usage line.
pub open spec fn read_args(args: Seq<Seq<char>>, i: int, cli: CliView) -> Result<
    Option<CliView>,
    Seq<char>,
>
    decreases args.len() - i, 1int,
{
    if i < 0 || i >= args.len() {
        if cli.key_cols.len() == 0 || cli.agg_col.len() == 0 {
            Err("-k and -a are required"@)
        } else {
            Ok(Some(cli))
        }
    } else {
        let a = args[i];
        if a == "-k"@ {
            let j = end_of_values(args, i + 1);
            proof {
                lemma_end_of_values_bounds(args, i + 1);
            }
            read_args(args, j, CliView { key_cols: cli.key_cols + args.subrange(i + 1, j), ..cli })
        } else if a == "-a"@ {
            if i + 1 >= args.len() {
                Err("missing value for -a"@)
            } else {
                read_args(args, i + 2, CliView { agg_col: args[i + 1], ..cli })
            }
        } else if a == "-A"@ || a == "--all"@ {
            read_args(args, i + 1, CliView { emit_all: true, ..cli })
        } else if a == "--bulk-sort"@ {
            read_args(args, i + 1, CliView { bulk_sort: true, ..cli })
        } else if a == "--min"@ {
            if i + 1 >= args.len() {
                Err("missing value for --min"@)
            } else {
                read_args(args, i + 2, CliView { min_values: cli.min_values.push(args[i + 1]), ..cli })
            }
        } else if a == "--max"@ {
            if i + 1 >= args.len() {
                Err("missing value for --max"@)
            } else {
                read_args(args, i + 2, CliView { max_values: cli.max_values.push(args[i + 1]), ..cli })
            }
        } else if a == "--strict"@ {
            if i + 1 >= args.len() {
                Err("missing value for --strict"@)
            } else {
                match parse_unsigned_spec(args[i + 1], 255) {
                    None => Err("invalid --strict level"@),
                    Some(v) => read_args(args, i + 2, CliView { strict: v as u8, ..cli }),
                }
            }
        } else if a == "-h"@ || a == "--help"@ {
            Ok(None)
        } else if starts_with_dash(a) {
            Err("unknown option: "@ + a)
        } else {
            read_args(args, i + 1, CliView { file: Some(a), ..cli })
        }
    }
}

/// Extending a range by one position adds that element at its end.
pub proof fn lemma_subrange_push<A>(s: Seq<A>, lo: int, hi: int)
    requires
        0 <= lo <= hi < s.len(),
    ensures
        s.subrange(lo, hi + 1) == s.subrange(lo, hi).push(s[hi]),
{
    assert(s.subrange(lo, hi + 1) =~= s.subrange(lo, hi).push(s[hi]));
}

/// `end_of_values` is never before its start.
pub proof fn lemma_end_of_values_bounds(args: Seq<Seq<char>>, j: int)
    requires
        0 <= j,
    ensures
        j <= end_of_values(args, j),
        end_of_values(args, j) <= (if j > args.len() { j } else { args.len() as int }),
        forall|k: int| j <= k < end_of_values(args, j) ==> !starts_with_dash(#[trigger] args[k]),
        end_of_values(args, j) < args.len() ==> starts_with_dash(args[end_of_values(args, j)]),
    decreases args.len() - j,
{
    if j < args.len() && !starts_with_dash(args[j]) {
        lemma_end_of_values_bounds(args, j + 1);
    }
}

/// `a` is the start of `b`.
pub open spec fn is_prefix<A>(a: Seq<A>, b: Seq<A>) -> bool {
    a.len() <= b.len() && b.take(a.len() as int) == a
}

proof fn lemma_is_prefix_push<A>(a: Seq<A>, b: Seq<A>, x: A)
    requires
        is_prefix(a.push(x), b),
    ensures
        is_prefix(a, b),
{
    assert(b.take(a.len() as int) =~= b.take(a.len() + 1int).take(a.len() as int));
    assert(a.push(x).take(a.len() as int) =~= a);
}

/// Reading on from any position loses no limit read so far: the limits
/// read before are the first ones of the result.
pub proof fn lemma_read_args_keeps_limits(args: Seq<Seq<char>>, i: int, cli: CliView)
    requires
        0 <= i,
    ensures
        read_args(args, i, cli) matches Ok(Some(c)) ==> is_prefix(cli.min_values, c.min_values)
            && is_prefix(cli.max_values, c.max_values),
    decreases args.len() - i,
{
    if i >= args.len() {
        assert(cli.min_values.take(cli.min_values.len() as int) =~= cli.min_values);
        assert(cli.max_values.take(cli.max_values.len() as int) =~= cli.max_values);
    } else {
        let a = args[i];
        if a == "-k"@ {
            let j = end_of_values(args, i + 1);
            lemma_end_of_values_bounds(args, i + 1);
            lemma_read_args_keeps_limits(args, j, CliView { key_cols: cli.key_cols + args.subrange(i + 1, j), ..cli });
        } else if a == "-a"@ {
            if i + 1 < args.len() {
                lemma_read_args_keeps_limits(args, i + 2, CliView { agg_col: args[i + 1], ..cli });
            }
        } else if a == "-A"@ || a == "--all"@ {
            lemma_read_args_keeps_limits(args, i + 1, CliView { emit_all: true, ..cli });
        } else if a == "--bulk-sort"@ {
            lemma_read_args_keeps_limits(args, i + 1, CliView { bulk_sort: true, ..cli });
        } else if a == "--min"@ {
            if i + 1 < args.len() {
                let next = CliView { min_values: cli.min_values.push(args[i + 1]), ..cli };
                lemma_read_args_keeps_limits(args, i + 2, next);
                if read_args(args, i, cli) is Ok && read_args(args, i, cli)->Ok_0 is Some {
                    let c = read_args(args, i, cli)->Ok_0->Some_0;
                    lemma_is_prefix_push(cli.min_values, c.min_values, args[i + 1]);
                }
            }
        } else if a == "--max"@ {
            if i + 1 < args.len() {
                let next = CliView { max_values: cli.max_values.push(args[i + 1]), ..cli };
                lemma_read_args_keeps_limits(args, i + 2, next);
                if read_args(args, i, cli) is Ok && read_args(args, i, cli)->Ok_0 is Some {
                    let c = read_args(args, i, cli)->Ok_0->Some_0;
                    lemma_is_prefix_push(cli.max_values, c.max_values, args[i + 1]);
                }
            }
        } else if a == "--strict"@ {
            if i + 1 < args.len() {
                match parse_unsigned_spec(args[i + 1], 255) {
                    None => {},
                    Some(v) => {
                        lemma_read_args_keeps_limits(args, i + 2, CliView { strict: v as u8, ..cli });
                    },
                }
            }
        } else if a == "-h"@ || a == "--help"@ {
        } else if starts_with_dash(a) {
        } else {
            lemma_read_args_keeps_limits(args, i + 1, CliView { file: Some(a), ..cli });
        }
    }
}

/// Before the end of `args`, the values of `-k` end at the same place when
/// an option follows.
proof fn lemma_end_of_values_before_option(args: Seq<Seq<char>>, ext: Seq<Seq<char>>, j: int)
    requires
        0 <= j <= args.len() < ext.len(),
        forall|k: int| 0 <= k < args.len() ==> ext[k] == args[k],
        starts_with_dash(ext[args.len() as int]),
    ensures
        end_of_values(ext, j) == end_of_values(args, j),
    decreases args.len() - j,
{
    if j < args.len() {
        lemma_end_of_values_before_option(args, ext, j + 1);
    }
}

/// A `--min` option with its value put at the end of a command line that
/// reads well adds that value as the last lower limit, and changes nothing
/// else; likewise `--max` for the upper limits.
pub proof fn lemma_read_args_append_limit(args: Seq<Seq<char>>, i: int, cli: CliView, v: Seq<char>)
    requires
        0 <= i <= args.len(),
    ensures
        read_args(args, i, cli) matches Ok(Some(c)) ==> read_args(
            args.push("--min"@).push(v),
            i,
            cli,
        ) == Ok::<Option<CliView>, Seq<char>>(Some(CliView { min_values: c.min_values.push(v), ..c })),
        read_args(args, i, cli) matches Ok(Some(c)) ==> read_args(
            args.push("--max"@).push(v),
            i,
            cli,
        ) == Ok::<Option<CliView>, Seq<char>>(Some(CliView { max_values: c.max_values.push(v), ..c })),
    decreases args.len() - i,
{
    reveal_strlit("-k");
    reveal_strlit("-a");
    reveal_strlit("-A");
    reveal_strlit("--all");
    reveal_strlit("--bulk-sort");
    reveal_strlit("--min");
    reveal_strlit("--max");
    reveal_strlit("--strict");
    reveal_strlit("-h");
    reveal_strlit("--help");
    let lo = args.push("--min"@);
    let ext = lo.push(v);
    let hi = args.push("--max"@);
    let ext2 = hi.push(v);
    assert(ext[args.len() as int] == "--min"@ && ext[args.len() + 1int] == v);
    assert(ext2[args.len() as int] == "--max"@ && ext2[args.len() + 1int] == v);
    assert(forall|k: int| 0 <= k < args.len() ==> ext[k] == args[k] && ext2[k] == args[k]);
    if i < args.len() {
        let a = args[i];
        assert(ext[i] == a && ext2[i] == a);
        assert(i + 1 < args.len() ==> ext[i + 1] == args[i + 1] && ext2[i + 1] == args[i + 1]);
        if a == "-k"@ {
            let j = end_of_values(args, i + 1);
            lemma_end_of_values_bounds(args, i + 1);
            lemma_end_of_values_before_option(args, ext, i + 1);
            lemma_end_of_values_before_option(args, ext2, i + 1);
            assert(ext.subrange(i + 1, j) =~= args.subrange(i + 1, j));
            assert(ext2.subrange(i + 1, j) =~= args.subrange(i + 1, j));
            lemma_read_args_append_limit(args, j, CliView { key_cols: cli.key_cols + args.subrange(i + 1, j), ..cli }, v);
        } else if a == "-a"@ {
            if i + 1 < args.len() {
                lemma_read_args_append_limit(args, i + 2, CliView { agg_col: args[i + 1], ..cli }, v);
            }
        } else if a == "-A"@ || a == "--all"@ {
            lemma_read_args_append_limit(args, i + 1, CliView { emit_all: true, ..cli }, v);
        } else if a == "--bulk-sort"@ {
            lemma_read_args_append_limit(args, i + 1, CliView { bulk_sort: true, ..cli }, v);
        } else if a == "--min"@ {
            if i + 1 < args.len() {
                lemma_read_args_append_limit(args, i + 2, CliView { min_values: cli.min_values.push(args[i + 1]), ..cli }, v);
            }
        } else if a == "--max"@ {
            if i + 1 < args.len() {
                lemma_read_args_append_limit(args, i + 2, CliView { max_values: cli.max_values.push(args[i + 1]), ..cli }, v);
            }
        } else if a == "--strict"@ {
            if i + 1 < args.len() {
                match parse_unsigned_spec(args[i + 1], 255) {
                    None => {},
                    Some(n) => {
                        lemma_read_args_append_limit(args, i + 2, CliView { strict: n as u8, ..cli }, v);
                    },
                }
            }
        } else if a == "-h"@ || a == "--help"@ {
        } else if starts_with_dash(a) {
        } else {
            lemma_read_args_append_limit(args, i + 1, CliView { file: Some(a), ..cli }, v);
        }
    } else {
        let n = args.len() as int;
        assert("--min"@ != "-k"@ && "--min"@ != "-a"@ && "--min"@ != "-A"@ && "--min"@ != "--all"@
            && "--min"@ != "--bulk-sort"@) by {
            assert("--min"@.len() != "-k"@.len() && "--min"@.len() != "-a"@.len()
                && "--min"@.len() != "-A"@.len() && "--min"@[2] != "--all"@[2]
                && "--min"@.len() != "--bulk-sort"@.len());
        }
        assert("--max"@ != "-k"@ && "--max"@ != "-a"@ && "--max"@ != "-A"@ && "--max"@ != "--all"@
            && "--max"@ != "--bulk-sort"@ && "--max"@ != "--min"@) by {
            assert("--max"@.len() != "-k"@.len() && "--max"@.len() != "-a"@.len()
                && "--max"@.len() != "-A"@.len() && "--max"@[2] != "--all"@[2]
                && "--max"@.len() != "--bulk-sort"@.len());
            assert("--max"@[3] != "--min"@[3]);
        }
        let cmin = CliView { min_values: cli.min_values.push(v), ..cli };
        let cmax = CliView { max_values: cli.max_values.push(v), ..cli };
        assert(read_args(ext, n + 2, cmin) == (if cmin.key_cols.len() == 0 || cmin.agg_col.len() == 0 {
            Err("-k and -a are required"@)
        } else {
            Ok(Some(cmin))
        }));
        assert(read_args(ext, n, cli) == read_args(ext, n + 2, cmin));
        assert(read_args(ext2, n + 2, cmax) == (if cmax.key_cols.len() == 0 || cmax.agg_col.len() == 0 {
            Err("-k and -a are required"@)
        } else {
            Ok(Some(cmax))
        }));
        assert(read_args(ext2, n, cli) == read_args(ext2, n + 2, cmax));
    }
}

/// Reads the command line: `-k` takes the arguments up to the next one that
/// starts with a minus sign, `-a`, `--min`, `--max` and `--strict` take the
/// argument after them, `-A` (`--all`) and `--bulk-sort` are switches, `-h`
/// (`--help`) asks for the usage line, and any other argument names the
/// input file; `-k` and `-a` are required.
pub fn parse_args(args: Vec<String>) -> (res: Result<ArgsOutcome, String>)
    ensures
        match read_args(strings_view(args@), 0, default_cli()) {
            Ok(Some(c)) => res matches Ok(ArgsOutcome::Run(cli)) && cli@ == c,
            Ok(None) => res matches Ok(ArgsOutcome::Help),
            Err(m) => res matches Err(e) && e@ == m,
        },
{
    let ghost av = strings_view(args@);
    let mut cli = Cli {
        key_cols: Vec::new(),
        agg_col: String::new(),
        emit_all: false,
        bulk_sort: false,
        min_values: Vec::new(),
        max_values: Vec::new(),
        strict: 0,
        file: None,
    };
    assert(cli@ == default_cli()) by {
        assert(strings_view(cli.key_cols@) == Seq::<Seq<char>>::empty());
        assert(strings_view(cli.min_values@) == Seq::<Seq<char>>::empty());
        assert(strings_view(cli.max_values@) == Seq::<Seq<char>>::empty());
    }
    let mut i: usize = 0;
    while i < args.len()
        invariant
            i <= args@.len(),
            av == strings_view(args@),
            av.len() == args@.len(),
            read_args(av, 0, default_cli()) == read_args(av, i as int, cli@),
        decreases args.len() - i,
    {
        let a = args[i].as_str();
        let ghost i0 = i as int;
        let ghost c0 = cli@;
        assert(a@ == av[i as int]);
        if str_eq(a, "-k") {
            i += 1;
            let ghost k0 = i as int;
            let ghost before = cli@;
            proof {
                lemma_end_of_values_bounds(av, k0);
            }
            while i < args.len() && !starts_with_dash_exec(args[i].as_str())
                invariant
                    0 < k0 <= i <= args@.len(),
                    av == strings_view(args@),
                    av.len() == args@.len(),
                    end_of_values(av, k0) == end_of_values(av, i as int),
                    cli@ == (CliView { key_cols: before.key_cols + av.subrange(k0, i as int), ..before }),
                decreases args.len() - i,
            {
                let ghost prev = cli@;
                cli.key_cols.push(args[i].clone());
                proof {
                    assert(strings_view(cli.key_cols@) == prev.key_cols.push(av[i as int]));
                    lemma_subrange_push(av, k0, i as int);
                }
                i += 1;
            }
            assert(i as int == end_of_values(av, k0));
            assert(read_args(av, k0 - 1, before) == read_args(av, i as int, cli@));
            continue;
        } else if str_eq(a, "-a") {
            i += 1;
            if i >= args.len() {
                return Err(String::from_str("missing value for -a"));
            }
            cli.agg_col = args[i].clone();
        } else if str_eq(a, "-A") || str_eq(a, "--all") {
            cli.emit_all = true;
        } else if str_eq(a, "--bulk-sort") {
            cli.bulk_sort = true;
        } else if str_eq(a, "--min") {
            i += 1;
            if i >= args.len() {
                return Err(String::from_str("missing value for --min"));
            }
            cli.min_values.push(args[i].clone());
            assert(strings_view(cli.min_values@) == c0.min_values.push(av[i as int]));
        } else if str_eq(a, "--max") {
            i += 1;
            if i >= args.len() {
                return Err(String::from_str("missing value for --max"));
            }
            cli.max_values.push(args[i].clone());
            assert(strings_view(cli.max_values@) == c0.max_values.push(av[i as int]));
        } else if str_eq(a, "--strict") {
            i += 1;
            if i >= args.len() {
                return Err(String::from_str("missing value for --strict"));
            }
            let digits = to_chars(args[i].as_str());
            assert(digits@.subrange(0, digits@.len() as int) == digits@);
            assert(digits@ == av[i as int]);
            match parse_unsigned_range(digits.as_slice(), 0, digits.len(), 255) {
                None => {
                    return Err(String::from_str("invalid --strict level"));
                },
                Some(v) => {
                    assert(parse_unsigned_spec(av[i as int], 255) == Some(v as int));
                    cli.strict = v as u8;
                    },
            }
        } else if str_eq(a, "-h") || str_eq(a, "--help") {
            return Ok(ArgsOutcome::Help);
        } else if starts_with_dash_exec(a) {
            return Err(concat("unknown option: ", a));
        } else {
            cli.file = Some(a.to_owned());
        }
        assert(read_args(av, i0, c0) == read_args(av, i + 1, cli@));
        i += 1;
    }
    if cli.key_cols.len() == 0 || cli.agg_col.as_str().is_empty() {
        return Err(String::from_str("-k and -a are required"));
    }
    Ok(ArgsOutcome::Run(cli))
}


/// What a column reference means for a row of `total` columns: `$N`
/// counts from one, a plain `N` counts from zero, and `$0` (the whole row)
/// is refused here; `Err` holds the message.
pub open spec fn column_index(spec: Seq<char>, total: int, allow_all: bool) -> Result<int, Seq<char>> {
    if spec == seq!['$', '0'] {
        if allow_all {
            Err("$0 is special and only valid as sole -k value"@)
        } else {
            Err("$0 is invalid for -a"@)
        }
    } else if spec.len() > 0 && spec[0] == '$' {
        match parse_unsigned_spec(spec.skip(1), usize::MAX as int) {
            None => Err("invalid awk-style column: "@ + spec),
            Some(idx) => if idx == 0 || idx > total {
                Err("column index out of range: "@ + spec)
            } else {
                Ok(idx - 1)
            },
        }
    } else {
        match parse_unsigned_spec(spec, usize::MAX as int) {
            None => Err("invalid zero-based column: "@ + spec),
            Some(idx) => if idx >= total {
                Err("column index out of range: "@ + spec)
            } else {
                Ok(idx)
            },
        }
    }
}

/// Whether `s` is `$0`, the reference to the whole row.
pub fn is_whole_row(s: &str) -> (res: bool)
    ensures
        res == (s@ == seq!['$', '0']),
{
    let c = to_chars(s);
    let res = c.len() == 2 && c[0] == '$' && c[1] == '0';
    assert(res ==> c@ =~= seq!['$', '0']);
    res
}

/// The index of the column that `spec` refers to, in a row of `total_cols`
/// columns, or the message that says why it refers to none.
pub fn parse_col_spec(spec: &str, total_cols: usize, allow_all: bool) -> (res: Result<usize, String>)
    ensures
        match column_index(spec@, total_cols as int, allow_all) {
            Ok(i) => res == Ok::<usize, String>(i as usize),
            Err(m) => res matches Err(e) && e@ == m,
        },
{
    if is_whole_row(spec) {
        if allow_all {
            return Err(String::from_str("$0 is special and only valid as sole -k value"));
        }
        return Err(String::from_str("$0 is invalid for -a"));
    }
    let c = to_chars(spec);
    if c.len() > 0 && c[0] == '$' {
        assert(c@.subrange(1, c@.len() as int) == spec@.skip(1));
        match parse_unsigned_range(c.as_slice(), 1, c.len(), usize::MAX) {
            None => Err(concat("invalid awk-style column: ", spec)),
            Some(idx) => {
                if idx == 0 || idx > total_cols {
                    Err(concat("column index out of range: ", spec))
                } else {
                    Ok(idx - 1)
                }
            },
        }
    } else {
        assert(c@.subrange(0, c@.len() as int) == spec@);
        match parse_unsigned_range(c.as_slice(), 0, c.len(), usize::MAX) {
            None => Err(concat("invalid zero-based column: ", spec)),
            Some(idx) => {
                if idx >= total_cols {
                    Err(concat("column index out of range: ", spec))
                } else {
                    Ok(idx)
                }
            },
        }
    }
}


/// Refuses a strict level above 3.
pub fn check_strict(strict: u8) -> (res: Result<(), String>)
    ensures
        strict <= 3 <==> res is Ok,
        res matches Err(e) ==> e@ == "--strict must be 0..=3"@,
{
    if strict > 3 {
        return Err(String::from_str("--strict must be 0..=3"));
    }
    Ok(())
}

} // verus!
