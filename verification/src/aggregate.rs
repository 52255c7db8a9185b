//! The roll-up of rows: which key a row adds to, which running total it
//! continues or starts, and what is printed when.
//!
//! Amounts themselves are kept by the caller, one per slot: a slot is the
//! position of a key among the distinct keys in the order they first came.

use vstd::prelude::*;
use crate::cli::strings_view;
use crate::number::{parse_value, value_parts, UnitSig, UnitView};
use crate::order::{key_eq, key_less, key_lt, lemma_key_order, KeySig, KeyView};

verus! {

broadcast use vstd::string::group_string_axioms;

/// The position of the first key of `keys` equal to `k`.
pub open spec fn position_of<A>(keys: Seq<A>, k: A) -> Option<int>
    decreases keys.len(),
{
    if keys.len() == 0 {
        None
    } else {
        match position_of(keys.drop_last(), k) {
            Some(i) => Some(i),
            None => if keys.last() == k {
                Some(keys.len() - 1)
            } else {
                None
            },
        }
    }
}

/// `position_of` finds `k` exactly where it occurs first.
pub proof fn lemma_position_of<A>(keys: Seq<A>, k: A)
    ensures
        position_of(keys, k) matches Some(i) ==> 0 <= i < keys.len() && keys[i] == k && forall|j: int|
            0 <= j < i ==> keys[j] != k,
        position_of(keys, k) is None ==> forall|j: int| 0 <= j < keys.len() ==> keys[j] != k,
    decreases keys.len(),
{
    if keys.len() > 0 {
        lemma_position_of(keys.drop_last(), k);
        assert forall|j: int| 0 <= j < keys.len() - 1 implies keys[j] == keys.drop_last()[j] by {}
    }
}

/// How the amount that a row is checked and printed with is formed.
pub enum Measure {
    /// The running total of the current block: it starts anew with this row
    /// when `restart` holds, else the row's amount is added to it.
    Running { restart: bool },
    /// The total of the row's key over all rows so far.
    Total,
}

/// What to do with a row's amount.
pub struct RowAction {
    /// The slot of the row's key; its total grows by the row's amount.
    pub slot: usize,
    /// A block ends: print the key of this slot with the running total
    /// before the row is taken in.
    pub flush: Option<usize>,
    /// The amount to check against the limits and to print.
    pub measure: Measure,
    /// Print the row's key with that amount.
    pub emit: bool,
}

/// What is printed on the standard output once the input is read.
pub enum FinalReport {
    Nothing,
    /// The key of this slot with the running total.
    Running(usize),
    /// The keys of these slots, each with its total.
    Totals(Vec<usize>),
}

/// The state of a roll-up.
pub struct Aggregator {
    bulk_sort: bool,
    emit_all: bool,
    keys: Vec<KeySig>,
    running: Option<usize>,
}

/// The content of an `Aggregator`.
pub struct AggregatorView {
    pub bulk_sort: bool,
    pub emit_all: bool,
    pub keys: Seq<KeyView>,
    pub running: Option<int>,
}

/// The views of a sequence of keys.
pub open spec fn keys_view(v: Seq<KeySig>) -> Seq<KeyView> {
    v.map_values(|k: KeySig| k@)
}

impl View for Aggregator {
    type V = AggregatorView;

    closed spec fn view(&self) -> AggregatorView {
        AggregatorView {
            bulk_sort: self.bulk_sort,
            emit_all: self.emit_all,
            keys: keys_view(self.keys@),
            running: match self.running {
                Some(r) => Some(r as int),
                None => None,
            },
        }
    }
}

/// No key occurs twice in `keys`.
pub open spec fn distinct_keys(keys: Seq<KeyView>) -> bool {
    forall|i: int, j: int| 0 <= i < j < keys.len() ==> keys[i] != keys[j]
}

/// The state after a row with key `k`, and the action for it.
pub open spec fn step_spec(s: AggregatorView, k: KeyView) -> (AggregatorView, int, Option<int>, Option<bool>) {
    let slot = match position_of(s.keys, k) {
        Some(i) => i,
        None => s.keys.len() as int,
    };
    let keys = if position_of(s.keys, k) is Some { s.keys } else { s.keys.push(k) };
    if s.bulk_sort {
        (AggregatorView { keys, ..s }, slot, None, None)
    } else {
        let (flush, restart) = match s.running {
            Some(r) => if s.keys[r] == k {
                (None, false)
            } else {
                (if s.emit_all { None } else { Some(r) }, true)
            },
            None => (None, true),
        };
        (AggregatorView { keys, running: Some(slot), ..s }, slot, flush, Some(restart))
    }
}

/// In block mode a row continues the running block exactly when its key is
/// the key of the running block: it then keeps that block's slot, nothing is
/// flushed and the running total is not restarted. A row with another key
/// restarts the running total and flushes the running block (unless every
/// row is printed); the first row starts a block. Either way the row's slot
/// holds its key and becomes the running block.
pub proof fn lemma_block_step(s: AggregatorView, row: KeyView)
    requires
        !s.bulk_sort,
        distinct_keys(s.keys),
        s.running matches Some(r) ==> 0 <= r < s.keys.len(),
    ensures
        ({
            let (t, slot, flush, restart) = step_spec(s, row);
            &&& 0 <= slot < t.keys.len() && t.keys[slot] == row && t.running == Some(slot)
            &&& s.running is None ==> flush is None && restart == Some(true)
            &&& s.running matches Some(r) ==> (s.keys[r] == row ==> flush is None && restart
                == Some(false) && slot == r && t.keys == s.keys)
            &&& s.running matches Some(r) ==> (s.keys[r] != row ==> restart == Some(true) && flush
                == (if s.emit_all { None::<int> } else { Some(r) }))
        }),
{
    lemma_position_of(s.keys, row);
    lemma_row_slot_holds_its_key(s, row);
    if s.running is Some {
        let r = s.running->0;
        if s.keys[r] == row {
            let i = position_of(s.keys, row)->0;
            assert(i <= r);
            if i < r {
                assert(s.keys[i] == s.keys[r]);
            }
        }
    }
}

impl Aggregator {
    /// The state is consistent: distinct keys, and the running block names one.
    pub closed spec fn wf(&self) -> bool {
        &&& distinct_keys(self@.keys)
        &&& self@.running matches Some(r) ==> r < self@.keys.len()
        &&& self@.bulk_sort ==> self@.running is None
        &&& self@.keys.len() == self.keys@.len()
    }

    /// A roll-up of no rows.
    pub fn new(bulk_sort: bool, emit_all: bool) -> (res: Self)
        ensures
            res.wf(),
            res@ == (AggregatorView { bulk_sort, emit_all, keys: Seq::empty(), running: None }),
    {
        let res = Aggregator { bulk_sort, emit_all, keys: Vec::new(), running: None };
        assert(res@.keys =~= Seq::<KeyView>::empty());
        res
    }

    /// The number of distinct keys so far.
    pub fn slot_count(&self) -> (n: usize)
        ensures
            n == self@.keys.len(),
    {
        self.keys.len()
    }

    /// The key of a slot.
    pub fn key(&self, slot: usize) -> (k: &KeySig)
        requires
            slot < self@.keys.len(),
        ensures
            k@ == self@.keys[slot as int],
    {
        &self.keys[slot]
    }

    /// The slot of `k`, if it has come before.
    fn find(&self, k: &KeySig) -> (res: Option<usize>)
        ensures
            res matches Some(r) ==> position_of(self@.keys, k@) == Some(r as int),
            res is None <==> position_of(self@.keys, k@) is None,
    {
        let ghost kv = self@.keys;
        let mut i: usize = 0;
        while i < self.keys.len()
            invariant
                i <= self.keys@.len(),
                kv == self@.keys,
                forall|j: int| 0 <= j < i ==> kv[j] != k@,
            decreases self.keys.len() - i,
        {
            assert(kv[i as int] == self.keys@[i as int]@);
            if key_eq(&self.keys[i], k) {
                proof {
                    lemma_position_of(kv, k@);
                }
                return Some(i);
            }
            i += 1;
        }
        proof {
            lemma_position_of(kv, k@);
        }
        None
    }

    /// Takes in a row with key `sig`: in block mode, a row with the key of
    /// the running block adds to it and any other row ends that block (which
    /// is then printed, unless every row is) and starts a new one; in
    /// bulk mode, a row adds to the total of its key.
    pub fn step(&mut self, sig: KeySig) -> (act: RowAction)
        requires
            old(self).wf(),
        ensures
            final(self).wf(),
            ({
                let (s, slot, flush, restart) = step_spec(old(self)@, sig@);
                &&& final(self)@ == s
                &&& act.slot == slot
                &&& act.flush == (match flush {
                    Some(f) => Some(f as usize),
                    None => None,
                })
                &&& act.measure == (match restart {
                    Some(r) => Measure::Running { restart: r },
                    None => Measure::Total,
                })
                &&& act.emit == old(self)@.emit_all
            }),
            !old(self)@.bulk_sort ==> final(self)@.running == Some(act.slot as int)
                && final(self)@.keys[act.slot as int] == sig@,
            !old(self)@.bulk_sort && old(self)@.running is None ==> act.flush is None
                && act.measure == (Measure::Running { restart: true }),
            !old(self)@.bulk_sort ==> (old(self)@.running matches Some(r) ==> (old(self)@.keys[r]
                == sig@ ==> act.flush is None && act.measure == (Measure::Running { restart: false })
                && act.slot == r && final(self)@.keys == old(self)@.keys)),
            !old(self)@.bulk_sort ==> (old(self)@.running matches Some(r) ==> (old(self)@.keys[r]
                != sig@ ==> act.measure == (Measure::Running { restart: true }) && act.flush == (
            if old(self)@.emit_all {
                None::<usize>
            } else {
                Some(r as usize)
            }))),
    {
        let ghost k = sig@;
        let ghost old_keys = self@.keys;
        proof {
            lemma_position_of(old_keys, k);
            if !self.bulk_sort {
                lemma_block_step(self@, k);
            }
        }
        let (flush, measure) = if self.bulk_sort {
            (None, Measure::Total)
        } else {
            match self.running {
                Some(r) => {
                    assert(old_keys[r as int] == self.keys@[r as int]@);
                    if key_eq(&self.keys[r], &sig) {
                        (None, Measure::Running { restart: false })
                    } else {
                        (if self.emit_all { None } else { Some(r) }, Measure::Running { restart: true })
                    }
                },
                None => (None, Measure::Running { restart: true }),
            }
        };
        let found = self.find(&sig);
        let slot = match found {
            Some(i) => i,
            None => {
                let n = self.keys.len();
                self.keys.push(sig);
                assert(self@.keys =~= old_keys.push(k));
                n
            },
        };
        if !self.bulk_sort {
            self.running = Some(slot);
        }
        RowAction { slot, flush, measure, emit: self.emit_all }
    }

    /// What is printed on the standard output at the end: in block mode the
    /// running block, in bulk mode every key in the order it first came, each
    /// with its total; nothing when every row was printed.
    pub fn final_report(&self) -> (res: FinalReport)
        requires
            self.wf(),
        ensures
            self@.emit_all ==> res is Nothing,
            !self@.emit_all && !self@.bulk_sort ==> match self@.running {
                Some(r) => res == FinalReport::Running(r as usize),
                None => res is Nothing,
            },
            !self@.emit_all && self@.bulk_sort ==> (res matches FinalReport::Totals(v) && v@.len()
                == self@.keys.len() && forall|i: int| 0 <= i < v@.len() ==> #[trigger] v@[i] == i),
    {
        if self.emit_all {
            FinalReport::Nothing
        } else if !self.bulk_sort {
            match self.running {
                Some(r) => FinalReport::Running(r),
                None => FinalReport::Nothing,
            }
        } else {
            let mut v: Vec<usize> = Vec::new();
            let mut i: usize = 0;
            while i < self.keys.len()
                invariant
                    i <= self.keys@.len(),
                    v@.len() == i,
                    forall|j: int| 0 <= j < i ==> #[trigger] v@[j] == j,
                decreases self.keys.len() - i,
            {
                v.push(i);
                i += 1;
            }
            FinalReport::Totals(v)
        }
    }

    /// A key column list that came with two different units, if any: that of
    /// the first slot whose key columns an earlier slot has too.
    pub fn mixed_units_key(&self) -> (res: Option<Vec<String>>)
        requires
            self.wf(),
        ensures
            res matches Some(k) ==> exists|i: int, j: int|
                0 <= i < j < self@.keys.len() && self@.keys[i].key == strings_view(k@)
                    && self@.keys[j].key == strings_view(k@) && forall|a: int, b: int|
                    0 <= a < b < j ==> self@.keys[a].key != self@.keys[b].key,
            res is None ==> forall|i: int, j: int|
                0 <= i < j < self@.keys.len() ==> self@.keys[i].key != self@.keys[j].key,
    {
        let ghost kv = self@.keys;
        let mut j: usize = 0;
        while j < self.keys.len()
            invariant
                j <= self.keys@.len(),
                kv == self@.keys,
                forall|a: int, b: int| 0 <= a < b < j ==> kv[a].key != kv[b].key,
            decreases self.keys.len() - j,
        {
            let mut i: usize = 0;
            while i < j
                invariant
                    i <= j < self.keys@.len(),
                    kv == self@.keys,
                    forall|a: int, b: int| 0 <= a < b < j ==> kv[a].key != kv[b].key,
                    forall|a: int| 0 <= a < i ==> kv[a].key != kv[j as int].key,
                decreases j - i,
            {
                assert(kv[i as int] == self.keys@[i as int]@);
                assert(kv[j as int] == self.keys@[j as int]@);
                if crate::order::strings_eq(&self.keys[i].key, &self.keys[j].key) {
                    let k = clone_strings(&self.keys[i].key);
                    assert(kv[i as int].key == strings_view(k@) && kv[j as int].key == strings_view(k@));
                    return Some(k);
                }
                i += 1;
            }
            j += 1;
        }
        None
    }

    /// The slots in the order of their keys, each once.
    pub fn summary_order(&self) -> (order: Vec<usize>)
        requires
            self.wf(),
        ensures
            order@.len() == self@.keys.len(),
            forall|i: int| 0 <= i < order@.len() ==> #[trigger] order@[i] < self@.keys.len(),
            order@.no_duplicates(),
            forall|i: int, j: int|
                0 <= i < j < order@.len() ==> key_lt(
                    self@.keys[order@[i] as int],
                    self@.keys[order@[j] as int],
                ),
    {
        let ghost kv = self@.keys;
        let n = self.keys.len();
        let mut order: Vec<usize> = Vec::new();
        let mut s: usize = 0;
        while s < n
            invariant
                s <= n == kv.len(),
                kv == self@.keys,
                distinct_keys(kv),
                order@.len() == s,
                forall|i: int| 0 <= i < order@.len() ==> #[trigger] order@[i] < s,
                order@.no_duplicates(),
                forall|i: int, j: int|
                    0 <= i < j < order@.len() ==> key_lt(kv[order@[i] as int], kv[order@[j] as int]),
            decreases n - s,
        {
            let mut p: usize = 0;
            while p < order.len() && !key_less(&self.keys[s], &self.keys[order[p]])
                invariant
                    p <= order@.len(),
                    s < n == kv.len(),
                    kv == self@.keys,
                    distinct_keys(kv),
                    forall|i: int| 0 <= i < order@.len() ==> #[trigger] order@[i] < s,
                    forall|i: int| 0 <= i < p ==> key_lt(kv[order@[i] as int], kv[s as int]),
                decreases order.len() - p,
            {
                proof {
                    let x = kv[order@[p as int] as int];
                    lemma_key_order(x, kv[s as int], x);
                    assert(order@[p as int] < s);
                }
                p += 1;
            }
            let ghost before = order@;
            proof {
                assert forall|i: int| p <= i < before.len() implies key_lt(
                    kv[s as int],
                    kv[before[i] as int],
                ) by {
                    if i > p {
                        lemma_key_order(kv[s as int], kv[before[p as int] as int], kv[before[i] as int]);
                    }
                }
            }
            order.insert(p, s);
            proof {
                assert(order@ == before.insert(p as int, s));
                assert forall|i: int| 0 <= i < order@.len() implies #[trigger] order@[i] < s + 1 by {
                    if i < p {
                        assert(order@[i] == before[i]);
                    } else if i > p {
                        assert(order@[i] == before[i - 1]);
                    }
                }
                assert forall|i: int, j: int|
                    0 <= i < j < order@.len() implies order@[i] != order@[j] by {
                    if i < p && j < p {
                        assert(order@[i] == before[i] && order@[j] == before[j]);
                    } else if i < p && j == p {
                        assert(order@[i] == before[i]);
                    } else if i < p {
                        assert(order@[i] == before[i] && order@[j] == before[j - 1]);
                    } else if i == p {
                        assert(order@[j] == before[j - 1]);
                    } else {
                        assert(order@[i] == before[i - 1] && order@[j] == before[j - 1]);
                    }
                }
                assert forall|i: int, j: int|
                    0 <= i < j < order@.len() implies key_lt(
                    kv[order@[i] as int],
                    kv[order@[j] as int],
                ) by {
                    if i < p && j < p {
                        assert(order@[i] == before[i] && order@[j] == before[j]);
                    } else if i < p && j == p {
                        assert(order@[i] == before[i]);
                    } else if i < p {
                        assert(order@[i] == before[i] && order@[j] == before[j - 1]);
                        lemma_key_order(kv[before[i] as int], kv[s as int], kv[before[j - 1] as int]);
                    } else if i == p {
                        assert(order@[j] == before[j - 1]);
                    } else {
                        assert(order@[i] == before[i - 1] && order@[j] == before[j - 1]);
                    }
                }
            }
            s += 1;
        }
        order
    }
}

/// A copy of a list of strings.
pub fn clone_strings(v: &Vec<String>) -> (res: Vec<String>)
    ensures
        strings_view(res@) == strings_view(v@),
{
    let mut res: Vec<String> = Vec::new();
    let mut i: usize = 0;
    while i < v.len()
        invariant
            i <= v@.len(),
            res@.len() == i,
            forall|k: int| 0 <= k < i ==> res@[k]@ == v@[k]@,
        decreases v.len() - i,
    {
        res.push(v[i].clone());
        i += 1;
    }
    assert(strings_view(res@) =~= strings_view(v@));
    res
}


/// A key keeps its slot: once `k` has a slot, taking in any row keeps it.
pub proof fn lemma_slot_is_stable(s: AggregatorView, row: KeyView, k: KeyView)
    requires
        position_of(s.keys, k) is Some,
    ensures
        position_of(step_spec(s, row).0.keys, k) == position_of(s.keys, k),
{
    lemma_position_of(s.keys, k);
    if position_of(s.keys, row) is None {
        lemma_position_of_push(s.keys, row, k);
    }
}

/// Adding an element at the end keeps the position of one already present.
pub proof fn lemma_position_of_push<A>(keys: Seq<A>, x: A, k: A)
    requires
        position_of(keys, k) is Some,
    ensures
        position_of(keys.push(x), k) == position_of(keys, k),
{
    assert(keys.push(x).drop_last() == keys);
}

/// A row takes the slot of its key: the slot it had, or a new last one.
pub proof fn lemma_row_slot_holds_its_key(s: AggregatorView, row: KeyView)
    ensures
        step_spec(s, row).0.keys[step_spec(s, row).1] == row,
        position_of(step_spec(s, row).0.keys, row) == Some(step_spec(s, row).1),
{
    lemma_position_of(s.keys, row);
    if position_of(s.keys, row) is None {
        let keys = s.keys.push(row);
        assert(keys.drop_last() == s.keys);
    }
}

/// Units with a limit each, and the slot of each: the caller keeps the limit
/// of a unit at its slot, so that the limit given last for a unit holds.
pub struct LimitTable {
    units: Vec<UnitSig>,
}

impl View for LimitTable {
    type V = Seq<UnitView>;

    closed spec fn view(&self) -> Seq<UnitView> {
        self.units@.map_values(|u: UnitSig| u@)
    }
}

impl LimitTable {
    /// A table of no units.
    pub fn new() -> (res: Self)
        ensures
            res@ == Seq::<UnitView>::empty(),
    {
        let res = LimitTable { units: Vec::new() };
        assert(res@ =~= Seq::<UnitView>::empty());
        res
    }

    /// The slot of `unit`, if it has one.
    pub fn lookup(&self, unit: &UnitSig) -> (res: Option<usize>)
        ensures
            res matches Some(r) ==> position_of(self@, unit@) == Some(r as int),
            res is None <==> position_of(self@, unit@) is None,
    {
        let ghost uv = self@;
        let mut i: usize = 0;
        while i < self.units.len()
            invariant
                i <= self.units@.len(),
                uv == self@,
                forall|j: int| 0 <= j < i ==> uv[j] != unit@,
            decreases self.units.len() - i,
        {
            assert(uv[i as int] == self.units@[i as int]@);
            if self.units[i].pre == unit.pre && self.units[i].post == unit.post {
                proof {
                    lemma_position_of(uv, unit@);
                }
                return Some(i);
            }
            i += 1;
        }
        proof {
            lemma_position_of(uv, unit@);
        }
        None
    }

    /// The slot for `unit`: the one it has, or a new last one.
    pub fn set(&mut self, unit: UnitSig) -> (slot: usize)
        ensures
            position_of(old(self)@, unit@) is Some ==> final(self)@ == old(self)@,
            position_of(old(self)@, unit@) is None ==> final(self)@ == old(self)@.push(unit@),
            position_of(final(self)@, unit@) == Some(slot as int),
    {
        let ghost u = unit@;
        let ghost before = self@;
        match self.lookup(&unit) {
            Some(i) => i,
            None => {
                let n = self.units.len();
                self.units.push(unit);
                assert(self@ =~= before.push(u));
                proof {
                    lemma_position_of(before, u);
                    assert(self@.drop_last() == before);
                }
                n
            },
        }
    }
}


/// Limits read from the command line: the units that have one, and the
/// number of each, as text, at the unit's slot.
pub struct Limits {
    pub units: LimitTable,
    pub numbers: Vec<String>,
}

/// The units and numbers of the limit values `raws`, read in order, a later
/// value for a unit replacing an earlier one; `Err` holds the message of
/// the first value that is no number.
pub open spec fn limits_of(raws: Seq<Seq<char>>) -> Result<(Seq<UnitView>, Seq<Seq<char>>), Seq<char>>
    decreases raws.len(),
{
    if raws.len() == 0 {
        Ok((Seq::empty(), Seq::empty()))
    } else {
        match limits_of(raws.drop_last()) {
            Err(m) => Err(m),
            Ok((units, numbers)) => match value_parts(raws.last()) {
                Err(m) => Err(m),
                Ok(v) => match position_of(units, v.unit) {
                    Some(i) => Ok((units, numbers.update(i, v.number))),
                    None => Ok((units.push(v.unit), numbers.push(v.number))),
                },
            },
        }
    }
}

/// Reads limit values such as `4kg`: their units and numbers, a later value
/// for a unit replacing an earlier one.
pub fn parse_limits(raws: &Vec<String>) -> (res: Result<Limits, String>)
    ensures
        match limits_of(strings_view(raws@)) {
            Ok((units, numbers)) => res is Ok && res->Ok_0.units@ == units && strings_view(
                res->Ok_0.numbers@,
            ) == numbers,
            Err(m) => res is Err && res->Err_0@ == m,
        },
{
    let ghost rv = strings_view(raws@);
    let mut units = LimitTable::new();
    let mut numbers: Vec<String> = Vec::new();
    let mut i: usize = 0;
    assert(rv.take(0) == Seq::<Seq<char>>::empty());
    assert(strings_view(numbers@) =~= Seq::<Seq<char>>::empty());
    while i < raws.len()
        invariant
            i <= raws@.len(),
            rv == strings_view(raws@),
            limits_of(rv.take(i as int)) == Ok::<(Seq<UnitView>, Seq<Seq<char>>), Seq<char>>(
                (units@, strings_view(numbers@)),
            ),
            units@.len() == numbers@.len(),
        decreases raws.len() - i,
    {
        assert(rv.take(i + 1).drop_last() == rv.take(i as int));
        assert(rv.take(i + 1).last() == rv[i as int]);
        assert(raws@[i as int]@ == rv[i as int]);
        match parse_value(raws[i].as_str()) {
            Err(e) => {
                proof {
                    lemma_limits_error_persists(rv, i + 1);
                }
                return Err(e);
            },
            Ok(pv) => {
                let ghost before_units = units@;
                let ghost before_numbers = strings_view(numbers@);
                let ghost found = position_of(before_units, pv.unit@);
                let number = pv.number;
                let ghost u = pv.unit@;
                let slot = units.set(pv.unit);
                proof {
                    lemma_position_of(before_units, u);
                    lemma_position_of(units@, u);
                    if found is Some {
                        assert(slot as int == found->0);
                        assert(slot < numbers@.len());
                    } else {
                        assert(units@ == before_units.push(u));
                        assert(slot as int == before_units.len());
                    }
                }
                if slot < numbers.len() {
                    numbers.set(slot, number);
                    assert(strings_view(numbers@) =~= before_numbers.update(slot as int, pv.number@));
                } else {
                    numbers.push(number);
                    assert(strings_view(numbers@) =~= before_numbers.push(pv.number@));
                }
            },
        }
        i += 1;
    }
    assert(rv.take(rv.len() as int) == rv);
    Ok(Limits { units, numbers })
}

/// Once a limit value is no number, reading more values keeps that error.
proof fn lemma_limits_error_persists(raws: Seq<Seq<char>>, k: int)
    requires
        0 <= k <= raws.len(),
        limits_of(raws.take(k)) is Err,
    ensures
        limits_of(raws) == limits_of(raws.take(k)),
    decreases raws.len() - k,
{
    if k < raws.len() {
        assert(raws.take(k + 1).drop_last() == raws.take(k));
        lemma_limits_error_persists(raws, k + 1);
    } else {
        assert(raws.take(k) == raws);
    }
}

} // verus!
