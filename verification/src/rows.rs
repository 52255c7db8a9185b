//! Lines and columns of the input, what a row contributes, and the text of
//! an output line.

use vstd::prelude::*;
use vstd::string::*;
use crate::cli::{column_index, is_whole_row, parse_col_spec, strings_view, Cli, CliView};
use crate::number::{parse_value, value_parts, ParsedValue, UnitSig, UnitView, ValueView};
use crate::text::{concat, push_char, string_of_chars, to_chars};

verus! {

broadcast use vstd::string::group_string_axioms;

/// The pieces of `s` between the occurrences of `sep` (one more piece than
/// there are separators).
pub open spec fn split_on(s: Seq<char>, sep: char) -> Seq<Seq<char>>
    decreases s.len(),
{
    if s.len() == 0 {
        seq![Seq::empty()]
    } else {
        let init = split_on(s.drop_last(), sep);
        if s.last() == sep {
            init.push(Seq::empty())
        } else {
            init.update(init.len() - 1, init.last().push(s.last()))
        }
    }
}

/// The pieces of `xs` with `sep` between each two of them.
pub open spec fn join(xs: Seq<Seq<char>>, sep: Seq<char>) -> Seq<char>
    decreases xs.len(),
{
    if xs.len() == 0 {
        Seq::empty()
    } else if xs.len() == 1 {
        xs[0]
    } else {
        join(xs.drop_last(), sep) + sep + xs.last()
    }
}

/// `split_on` gives at least one piece.
pub proof fn lemma_split_nonempty(s: Seq<char>, sep: char)
    ensures
        split_on(s, sep).len() >= 1,
    decreases s.len(),
{
    if s.len() > 0 {
        lemma_split_nonempty(s.drop_last(), sep);
    }
}

/// Splitting at a character and joining with it again gives back the text,
/// and no piece holds the separator.
pub proof fn lemma_split_join(s: Seq<char>, sep: char)
    ensures
        join(split_on(s, sep), seq![sep]) == s,
        forall|i: int|
            0 <= i < split_on(s, sep).len() ==> !(#[trigger] split_on(s, sep)[i]).contains(sep),
    decreases s.len(),
{
    if s.len() > 0 {
        let t = s.drop_last();
        let init = split_on(t, sep);
        lemma_split_join(t, sep);
        lemma_split_nonempty(t, sep);
        let p = split_on(s, sep);
        if s.last() == sep {
            assert(p.drop_last() == init);
            if init.len() == 1 {
                assert(join(init, seq![sep]) == init[0]);
            }
            assert(s == t + seq![sep] + Seq::<char>::empty());
            assert forall|i: int| 0 <= i < p.len() implies !(#[trigger] p[i]).contains(sep) by {
                if i < init.len() {
                    assert(p[i] == init[i]);
                }
            }
        } else {
            let last = init.last().push(s.last());
            assert(p.last() == last);
            if init.len() == 1 {
                assert(p.len() == 1);
                assert(join(p, seq![sep]) == p[0]);
                assert(init[0] == t);
                assert(s == t.push(s.last()));
            } else {
                assert(p.drop_last() == init.drop_last());
                assert(join(init, seq![sep]) == join(init.drop_last(), seq![sep]) + seq![sep]
                    + init.last());
                assert(s == t.push(s.last()));
            }
            assert forall|i: int| 0 <= i < p.len() implies !(#[trigger] p[i]).contains(sep) by {
                if i < init.len() - 1 {
                    assert(p[i] == init[i]);
                } else {
                    assert(!init.last().contains(sep));
                    if p[i].contains(sep) {
                        let k = choose|k: int| 0 <= k < p[i].len() && p[i][k] == sep;
                        if k < init.last().len() {
                            assert(init.last()[k] == sep);
                        }
                    }
                }
            }
        }
    }
}

/// The pieces of `c` between the occurrences of `sep`, as strings.
pub fn split_chars(c: &[char], sep: char) -> (res: Vec<String>)
    ensures
        strings_view(res@) == split_on(c@, sep),
{
    let mut done: Vec<String> = Vec::new();
    let mut cur = String::new();
    let mut i: usize = 0;
    while i < c.len()
        invariant
            i <= c@.len(),
            strings_view(done@).push(cur@) == split_on(c@.take(i as int), sep),
        decreases c.len() - i,
    {
        let ghost prev = split_on(c@.take(i as int), sep);
        assert(c@.take(i + 1).drop_last() == c@.take(i as int));
        assert(c@.take(i + 1).last() == c[i as int]);
        if c[i] == sep {
            let finished = cur;
            done.push(finished);
            cur = String::new();
            assert(strings_view(done@).push(cur@) == prev.push(Seq::<char>::empty()));
        } else {
            let ghost before = cur@;
            push_char(&mut cur, c[i]);
            assert(strings_view(done@).push(cur@) == prev.update(prev.len() - 1, prev.last().push(
                c[i as int],
            )));
        }
        i += 1;
    }
    done.push(cur);
    assert(c@.take(c@.len() as int) == c@);
    done
}


/// `s` without the characters `c` or `d` at its end.
pub open spec fn strip_end(s: Seq<char>, c: char, d: char) -> Seq<char>
    decreases s.len(),
{
    if s.len() > 0 && (s.last() == c || s.last() == d) {
        strip_end(s.drop_last(), c, d)
    } else {
        s
    }
}

/// The lines among `pieces` that are not empty once line-end characters
/// are taken off their end, so taken off.
pub open spec fn nonempty_lines(pieces: Seq<Seq<char>>) -> Seq<Seq<char>>
    decreases pieces.len(),
{
    if pieces.len() == 0 {
        Seq::empty()
    } else {
        let rest = nonempty_lines(pieces.drop_last());
        let line = strip_end(pieces.last(), '\n', '\r');
        if line.len() == 0 {
            rest
        } else {
            rest.push(line)
        }
    }
}

/// The lines of the input that carry data: split at line feeds, with
/// trailing carriage returns removed, and empty lines left out.
pub open spec fn input_lines(content: Seq<char>) -> Seq<Seq<char>> {
    nonempty_lines(split_on(content, '\n'))
}

/// `s` without the characters `c` or `d` at its end.
pub fn trim_end_chars(s: &str, c: char, d: char) -> (res: String)
    ensures
        res@ == strip_end(s@, c, d),
{
    let chars = to_chars(s);
    let mut n = chars.len();
    assert(chars@.take(n as int) == chars@);
    while n > 0 && (chars[n - 1] == c || chars[n - 1] == d)
        invariant
            n <= chars@.len(),
            strip_end(chars@.take(n as int), c, d) == strip_end(s@, c, d),
            chars@ == s@,
        decreases n,
    {
        assert(chars@.take(n as int).drop_last() == chars@.take(n - 1));
        n -= 1;
    }
    assert(chars@.take(chars@.len() as int) == chars@);
    crate::text::string_of_range(chars.as_slice(), 0, n)
}

/// The lines of `content` that carry data.
pub fn split_lines(content: &str) -> (res: Vec<String>)
    ensures
        strings_view(res@) == input_lines(content@),
{
    let chars = to_chars(content);
    let pieces = split_chars(chars.as_slice(), '\n');
    let ghost pv = strings_view(pieces@);
    let mut res: Vec<String> = Vec::new();
    let mut i: usize = 0;
    while i < pieces.len()
        invariant
            i <= pieces@.len(),
            pv == strings_view(pieces@),
            pv == split_on(content@, '\n'),
            strings_view(res@) == nonempty_lines(pv.take(i as int)),
        decreases pieces.len() - i,
    {
        assert(pv.take(i + 1).drop_last() == pv.take(i as int));
        let line = trim_end_chars(pieces[i].as_str(), '\n', '\r');
        if !line.as_str().is_empty() {
            res.push(line);
        }
        i += 1;
    }
    assert(pv.take(pv.len() as int) == pv);
    res
}

/// The columns of a line: the pieces between its tab characters.
pub fn split_fields(line: &str) -> (res: Vec<String>)
    ensures
        strings_view(res@) == split_on(line@, '\t'),
{
    let chars = to_chars(line);
    split_chars(chars.as_slice(), '\t')
}

/// The strings of `parts` with a tab between each two of them.
pub fn join_tabs(parts: &Vec<String>) -> (res: String)
    ensures
        res@ == join(strings_view(parts@), seq!['\t']),
{
    let ghost pv = strings_view(parts@);
    let mut res = String::new();
    let mut i: usize = 0;
    while i < parts.len()
        invariant
            i <= parts@.len(),
            pv == strings_view(parts@),
            res@ == join(pv.take(i as int), seq!['\t']),
        decreases parts.len() - i,
    {
        assert(pv.take(i + 1).drop_last() == pv.take(i as int));
        if i > 0 {
            push_char(&mut res, '\t');
        }
        res.append(parts[i].as_str());
        i += 1;
    }
    assert(pv.take(pv.len() as int) == pv);
    res
}


/// The text of a number written with ten decimals, without the zeros at
/// its end and then without the point at its end.
pub open spec fn trimmed_number(fixed: Seq<char>) -> Seq<char> {
    strip_end(strip_end(fixed, '0', '0'), '.', '.')
}

/// Takes the zeros and then the point off the end of a number written with
/// a fixed count of decimals: `3.5000000000` becomes `3.5`, `7.0000000000`
/// becomes `7`.
pub fn trim_fixed_point(fixed: &str) -> (res: String)
    ensures
        res@ == trimmed_number(fixed@),
{
    let t = trim_end_chars(fixed, '0', '0');
    trim_end_chars(t.as_str(), '.', '.')
}

/// An output line: the key columns separated by tabs, a tab unless that
/// text is empty, then the unit's prefix, the amount and the unit's suffix.
pub open spec fn output_line(key: Seq<Seq<char>>, unit: UnitView, amount: Seq<char>) -> Seq<char> {
    let k = join(key, seq!['\t']);
    let head = if k.len() > 0 { k.push('\t') } else { k };
    head + unit.pre + amount + unit.post
}

/// The output line for the key `key`, the unit `unit` and the amount
/// written as `amount`.
pub fn format_output(key: &Vec<String>, unit: &UnitSig, amount: &str) -> (res: String)
    ensures
        res@ == output_line(strings_view(key@), unit@, amount@),
{
    let mut out = join_tabs(key);
    if !out.as_str().is_empty() {
        push_char(&mut out, '\t');
    }
    out.append(unit.pre.as_str());
    out.append(amount);
    out.append(unit.post.as_str());
    out
}

/// What becomes of a faulty row at a strict level: it is skipped silently
/// (level 0), skipped with a warning (level 1), or it stops the run.
pub open spec fn error_response(strict: u8, msg: Seq<char>) -> Result<Option<Seq<char>>, Seq<char>> {
    if strict == 0 {
        Ok(None)
    } else if strict == 1 {
        Ok(Some("warning: "@ + msg))
    } else {
        Err(msg)
    }
}

/// Decides what becomes of a faulty row: `Ok(None)` skips it, `Ok(Some(w))`
/// skips it with the warning `w`, and `Err` stops the run with the message.
pub fn handle_error(strict: u8, msg: &str) -> (res: Result<Option<String>, String>)
    ensures
        match error_response(strict, msg@) {
            Ok(None) => res matches Ok(None),
            Ok(Some(w)) => res matches Ok(Some(s)) && s@ == w,
            Err(m) => res matches Err(e) && e@ == m,
        },
{
    if strict == 0 {
        Ok(None)
    } else if strict == 1 {
        Ok(Some(concat("warning: ", msg)))
    } else {
        Err(msg.to_owned())
    }
}


/// The positions `0..n` other than `a`, in order.
pub open spec fn others(n: int, a: int) -> Seq<int>
    decreases n,
{
    if n <= 0 {
        Seq::empty()
    } else if n - 1 == a {
        others(n - 1, a)
    } else {
        others(n - 1, a).push(n - 1)
    }
}

/// The columns that `keys` refer to in a row of `n` columns, or the message
/// of the first one that refers to none.
pub open spec fn resolve_keys(keys: Seq<Seq<char>>, n: int) -> Result<Seq<int>, Seq<char>>
    decreases keys.len(),
{
    if keys.len() == 0 {
        Ok(Seq::empty())
    } else {
        match resolve_keys(keys.drop_last(), n) {
            Err(m) => Err(m),
            Ok(idxs) => match column_index(keys.last(), n, true) {
                Err(m) => Err(m),
                Ok(i) => Ok(idxs.push(i)),
            },
        }
    }
}

/// Whether the key is the whole row: `-k $0` alone.
pub open spec fn whole_row_mode(cli: CliView) -> bool {
    cli.key_cols.len() == 1 && cli.key_cols[0] == seq!['$', '0']
}

/// The key columns of a row of `n` columns whose value is in column `a`.
pub open spec fn key_columns(cli: CliView, n: int, a: int) -> Result<Seq<int>, Seq<char>> {
    if whole_row_mode(cli) {
        Ok(others(n, a))
    } else {
        resolve_keys(cli.key_cols, n)
    }
}

/// A row that counts: its key and its value.
pub struct ParsedRow {
    pub key: Vec<String>,
    pub value: ParsedValue,
}

/// What a row of the input gives.
pub enum RowOutcome {
    /// The row counts.
    Row(ParsedRow),
    /// The row is faulty; the message says why.
    Rejected(String),
    /// The row is passed over without a message.
    Skipped,
}

/// The content of a `RowOutcome`.
pub enum RowView {
    Row(Seq<Seq<char>>, ValueView),
    Rejected(Seq<char>),
    Skipped,
}

impl View for RowOutcome {
    type V = RowView;

    open spec fn view(&self) -> RowView {
        match self {
            RowOutcome::Row(r) => RowView::Row(strings_view(r.key@), r.value@),
            RowOutcome::Rejected(m) => RowView::Rejected(m@),
            RowOutcome::Skipped => RowView::Skipped,
        }
    }
}

/// What the row with columns `cols` gives: its value column, then its key
/// columns, then its value must be sound, in that order of checks.
pub open spec fn row_outcome(cli: CliView, cols: Seq<Seq<char>>) -> RowView {
    let n = cols.len() as int;
    match column_index(cli.agg_col, n, false) {
        Err(m) => RowView::Rejected(m),
        Ok(a) => match key_columns(cli, n, a) {
            Err(m) => RowView::Rejected(m),
            Ok(ks) => if ks.len() == 0 && !whole_row_mode(cli) {
                RowView::Skipped
            } else {
                match value_parts(cols[a]) {
                    Err(m) => RowView::Rejected(m),
                    Ok(v) => RowView::Row(ks.map_values(|i: int| cols[i]), v),
                }
            },
        },
    }
}

/// A column reference that resolves names a column of the row.
pub proof fn lemma_column_index_in_range(spec: Seq<char>, total: int, allow_all: bool)
    ensures
        column_index(spec, total, allow_all) matches Ok(i) ==> 0 <= i < total,
{
    if spec.len() > 0 && spec[0] == '$' && spec != seq!['$', '0'] {
        if let Some(v) = crate::text::parse_unsigned_spec(spec.skip(1), usize::MAX as int) {
            lemma_parsed_nonnegative(spec.skip(1), usize::MAX as int);
        }
    } else if spec != seq!['$', '0'] {
        lemma_parsed_nonnegative(spec, usize::MAX as int);
    }
}

/// A parsed unsigned number is not negative.
pub proof fn lemma_parsed_nonnegative(s: Seq<char>, max: int)
    ensures
        crate::text::parse_unsigned_spec(s, max) matches Some(v) ==> 0 <= v,
{
    let digits = if s.len() > 0 && s[0] == '+' { s.skip(1) } else { s };
    if digits.len() > 0 && crate::text::all_digits(digits) {
        crate::text::lemma_decimal_value_prefix(digits, 0);
    }
}

/// The resolved key columns all name columns of the row.
proof fn lemma_resolve_keys_in_range(keys: Seq<Seq<char>>, n: int)
    ensures
        resolve_keys(keys, n) matches Ok(ks) ==> ks.len() == keys.len() && forall|k: int|
            0 <= k < ks.len() ==> 0 <= #[trigger] ks[k] < n,
    decreases keys.len(),
{
    if keys.len() > 0 {
        lemma_resolve_keys_in_range(keys.drop_last(), n);
        lemma_column_index_in_range(keys.last(), n, true);
    }
}

/// The positions other than `a` are the positions below `n` but `a`.
proof fn lemma_others(n: int, a: int)
    ensures
        forall|k: int| 0 <= k < others(n, a).len() ==> 0 <= #[trigger] others(n, a)[k] < n,
    decreases n,
{
    if n > 0 {
        lemma_others(n - 1, a);
        let prev = others(n - 1, a);
        assert forall|k: int| 0 <= k < others(n, a).len() implies 0 <= #[trigger] others(n, a)[k]
            < n by {
            if k < prev.len() {
                assert(others(n, a)[k] == prev[k]);
            }
        }
    }
}

/// The columns at `idxs` of `cols`, in that order.
fn pick_columns(cols: &Vec<String>, idxs: &Vec<usize>) -> (res: Vec<String>)
    requires
        forall|k: int| 0 <= k < idxs@.len() ==> #[trigger] idxs@[k] < cols@.len(),
    ensures
        strings_view(res@) == idxs@.map_values(|i: usize| i as int).map_values(
            |i: int| strings_view(cols@)[i],
        ),
{
    let ghost cv = strings_view(cols@);
    let mut res: Vec<String> = Vec::new();
    let mut k: usize = 0;
    while k < idxs.len()
        invariant
            k <= idxs@.len(),
            cv == strings_view(cols@),
            forall|k: int| 0 <= k < idxs@.len() ==> #[trigger] idxs@[k] < cols@.len(),
            strings_view(res@) == idxs@.take(k as int).map_values(|i: usize| i as int).map_values(
                |i: int| cv[i],
            ),
        decreases idxs.len() - k,
    {
        let ghost before = strings_view(res@);
        res.push(cols[idxs[k]].clone());
        assert(idxs@.take(k + 1) == idxs@.take(k as int).push(idxs@[k as int]));
        assert(strings_view(res@) =~= before.push(cv[idxs@[k as int] as int]));
        assert(idxs@.take(k + 1).map_values(|i: usize| i as int).map_values(|i: int| cv[i])
            =~= idxs@.take(k as int).map_values(|i: usize| i as int).map_values(|i: int| cv[i]).push(
            cv[idxs@[k as int] as int],
        ));
        k += 1;
    }
    assert(idxs@.take(idxs@.len() as int) == idxs@);
    res
}

/// What the row with columns `cols` gives under the settings `cli`.
pub fn process_row(cli: &Cli, cols: &Vec<String>) -> (res: RowOutcome)
    ensures
        res@ == row_outcome(cli@, strings_view(cols@)),
{
    let ghost cv = strings_view(cols@);
    let ghost c = cli@;
    let n = cols.len();
    proof {
        lemma_column_index_in_range(c.agg_col, n as int, false);
    }
    let agg_idx = match parse_col_spec(cli.agg_col.as_str(), n, false) {
        Ok(v) => v,
        Err(e) => {
            return RowOutcome::Rejected(e);
        },
    };
    let whole = cli.key_cols.len() == 1 && is_whole_row(cli.key_cols[0].as_str());
    assert(whole == whole_row_mode(c));
    let mut idxs: Vec<usize> = Vec::new();
    if whole {
        let mut i: usize = 0;
        while i < n
            invariant
                i <= n == cols@.len(),
                idxs@.map_values(|i: usize| i as int) == others(i as int, agg_idx as int),
                forall|j: int| 0 <= j < idxs@.len() ==> #[trigger] idxs@[j] < i,
            decreases n - i,
        {
            if i != agg_idx {
                idxs.push(i);
            }
            assert(idxs@.map_values(|i: usize| i as int) =~= others(i + 1, agg_idx as int));
            i += 1;
        }
        proof {
            lemma_others(n as int, agg_idx as int);
        }
    } else {
        match resolve_key_columns(&cli.key_cols, n) {
            Ok(v) => {
                idxs = v;
            },
            Err(e) => {
                return RowOutcome::Rejected(e);
            },
        }
        if idxs.len() == 0 {
            return RowOutcome::Skipped;
        }
    }
    assert(key_columns(c, n as int, agg_idx as int) == Ok::<Seq<int>, Seq<char>>(
        idxs@.map_values(|i: usize| i as int),
    ));
    let value = match parse_value(cols[agg_idx].as_str()) {
        Ok(v) => v,
        Err(e) => {
            return RowOutcome::Rejected(e);
        },
    };
    let key = pick_columns(cols, &idxs);
    RowOutcome::Row(ParsedRow { key, value })
}

/// The columns that `keys` refer to in a row of `n` columns, or the message
/// of the first reference that names none.
pub fn resolve_key_columns(keys: &Vec<String>, n: usize) -> (res: Result<Vec<usize>, String>)
    ensures
        match resolve_keys(strings_view(keys@), n as int) {
            Ok(ks) => res matches Ok(v) && v@.map_values(|i: usize| i as int) == ks && forall|j: int|
                0 <= j < v@.len() ==> #[trigger] v@[j] < n,
            Err(m) => res matches Err(e) && e@ == m,
        },
{
    let ghost kv = strings_view(keys@);
    let mut idxs: Vec<usize> = Vec::new();
    let mut k: usize = 0;
    assert(kv.take(0) == Seq::<Seq<char>>::empty());
    assert(idxs@.map_values(|i: usize| i as int) =~= Seq::<int>::empty());
    while k < keys.len()
        invariant
            k <= keys@.len(),
            kv == strings_view(keys@),
            resolve_keys(kv.take(k as int), n as int) == Ok::<Seq<int>, Seq<char>>(
                idxs@.map_values(|i: usize| i as int),
            ),
            forall|j: int| 0 <= j < idxs@.len() ==> #[trigger] idxs@[j] < n,
        decreases keys.len() - k,
    {
        assert(kv.take(k + 1).drop_last() == kv.take(k as int));
        assert(kv.take(k + 1).last() == kv[k as int]);
        proof {
            lemma_column_index_in_range(kv[k as int], n as int, true);
        }
        match parse_col_spec(keys[k].as_str(), n, true) {
            Ok(v) => {
                let ghost before = idxs@.map_values(|i: usize| i as int);
                idxs.push(v);
                assert(idxs@.map_values(|i: usize| i as int) =~= before.push(v as int));
            },
            Err(e) => {
                proof {
                    lemma_resolve_keys_error_persists(kv, k + 1, n as int);
                }
                return Err(e);
            },
        }
        k += 1;
    }
    assert(kv.take(kv.len() as int) == kv);
    Ok(idxs)
}

/// Once a key reference fails, resolving more keys keeps that failure.
proof fn lemma_resolve_keys_error_persists(keys: Seq<Seq<char>>, k: int, n: int)
    requires
        0 <= k <= keys.len(),
        resolve_keys(keys.take(k), n) is Err,
    ensures
        resolve_keys(keys, n) == resolve_keys(keys.take(k), n),
    decreases keys.len() - k,
{
    if k < keys.len() {
        assert(keys.take(k + 1).drop_last() == keys.take(k));
        lemma_resolve_keys_error_persists(keys, k + 1, n);
    } else {
        assert(keys.take(k) == keys);
    }
}

} // verus!
