//! Equality and the order of keys: strings compare character by character,
//! lists of strings element by element, a shorter prefix first.

use vstd::prelude::*;
use crate::cli::strings_view;
use crate::number::{UnitSig, UnitView};
use crate::text::to_chars;

verus! {

broadcast use vstd::string::group_string_axioms;

/// A row's key: its key columns and the unit of its value.
pub struct KeySig {
    pub key: Vec<String>,
    pub unit: UnitSig,
}

/// The content of a `KeySig`.
pub struct KeyView {
    pub key: Seq<Seq<char>>,
    pub unit: UnitView,
}

impl View for KeySig {
    type V = KeyView;

    open spec fn view(&self) -> KeyView {
        KeyView { key: strings_view(self.key@), unit: self.unit@ }
    }
}

/// `a` comes before `b` in lexicographic order of characters.
pub open spec fn chars_lt(a: Seq<char>, b: Seq<char>) -> bool
    decreases a.len(),
{
    if a.len() == 0 {
        b.len() > 0
    } else if b.len() == 0 {
        false
    } else if a[0] != b[0] {
        a[0] < b[0]
    } else {
        chars_lt(a.skip(1), b.skip(1))
    }
}

/// `a` comes before `b` in lexicographic order of strings.
pub open spec fn strings_lt(a: Seq<Seq<char>>, b: Seq<Seq<char>>) -> bool
    decreases a.len(),
{
    if a.len() == 0 {
        b.len() > 0
    } else if b.len() == 0 {
        false
    } else if a[0] != b[0] {
        chars_lt(a[0], b[0])
    } else {
        strings_lt(a.skip(1), b.skip(1))
    }
}

/// `a` comes before `b`: by key columns, then by the unit's prefix, then by
/// its suffix.
pub open spec fn key_lt(a: KeyView, b: KeyView) -> bool {
    ||| strings_lt(a.key, b.key)
    ||| a.key == b.key && chars_lt(a.unit.pre, b.unit.pre)
    ||| a.key == b.key && a.unit.pre == b.unit.pre && chars_lt(a.unit.post, b.unit.post)
}

/// Nothing comes before itself.
pub proof fn lemma_chars_lt_irreflexive(a: Seq<char>)
    ensures
        !chars_lt(a, a),
    decreases a.len(),
{
    if a.len() > 0 {
        lemma_chars_lt_irreflexive(a.skip(1));
    }
}

/// The order of strings is transitive.
pub proof fn lemma_chars_lt_transitive(a: Seq<char>, b: Seq<char>, c: Seq<char>)
    requires
        chars_lt(a, b),
        chars_lt(b, c),
    ensures
        chars_lt(a, c),
    decreases a.len(),
{
    if a.len() > 0 && b.len() > 0 && c.len() > 0 && a[0] == b[0] && b[0] == c[0] {
        lemma_chars_lt_transitive(a.skip(1), b.skip(1), c.skip(1));
    }
}

/// Of two different strings, one comes before the other.
pub proof fn lemma_chars_lt_total(a: Seq<char>, b: Seq<char>)
    requires
        a != b,
    ensures
        chars_lt(a, b) || chars_lt(b, a),
    decreases a.len(),
{
    if a.len() > 0 && b.len() > 0 && a[0] == b[0] {
        if a.skip(1) == b.skip(1) {
            assert(a =~= seq![a[0]] + a.skip(1));
            assert(b =~= seq![b[0]] + b.skip(1));
        }
        lemma_chars_lt_total(a.skip(1), b.skip(1));
    } else if a.len() == 0 && b.len() == 0 {
        assert(a =~= b);
    }
}

/// Nothing comes before itself.
pub proof fn lemma_strings_lt_irreflexive(a: Seq<Seq<char>>)
    ensures
        !strings_lt(a, a),
    decreases a.len(),
{
    if a.len() > 0 {
        lemma_strings_lt_irreflexive(a.skip(1));
    }
}

/// The order of lists of strings is transitive.
pub proof fn lemma_strings_lt_transitive(a: Seq<Seq<char>>, b: Seq<Seq<char>>, c: Seq<Seq<char>>)
    requires
        strings_lt(a, b),
        strings_lt(b, c),
    ensures
        strings_lt(a, c),
    decreases a.len(),
{
    if a.len() > 0 && b.len() > 0 && c.len() > 0 {
        if a[0] == b[0] && b[0] == c[0] {
            lemma_strings_lt_transitive(a.skip(1), b.skip(1), c.skip(1));
        } else if a[0] == b[0] {
        } else if b[0] == c[0] {
        } else {
            lemma_chars_lt_transitive(a[0], b[0], c[0]);
            if a[0] == c[0] {
                lemma_chars_lt_irreflexive(a[0]);
                lemma_chars_lt_transitive(b[0], c[0], b[0]);
                lemma_chars_lt_irreflexive(b[0]);
            }
        }
    }
}

/// Of two different lists of strings, one comes before the other.
pub proof fn lemma_strings_lt_total(a: Seq<Seq<char>>, b: Seq<Seq<char>>)
    requires
        a != b,
    ensures
        strings_lt(a, b) || strings_lt(b, a),
    decreases a.len(),
{
    if a.len() > 0 && b.len() > 0 {
        if a[0] == b[0] {
            if a.skip(1) == b.skip(1) {
                assert(a =~= seq![a[0]] + a.skip(1));
                assert(b =~= seq![b[0]] + b.skip(1));
            }
            lemma_strings_lt_total(a.skip(1), b.skip(1));
        } else {
            lemma_chars_lt_total(a[0], b[0]);
        }
    } else if a.len() == 0 && b.len() == 0 {
        assert(a =~= b);
    }
}

/// Keys are strictly ordered: no key comes before itself, the order is
/// transitive, and of two different keys one comes before the other.
pub proof fn lemma_key_order(a: KeyView, b: KeyView, c: KeyView)
    ensures
        !key_lt(a, a),
        key_lt(a, b) && key_lt(b, c) ==> key_lt(a, c),
        a != b ==> key_lt(a, b) || key_lt(b, a),
{
    lemma_strings_lt_irreflexive(a.key);
    lemma_chars_lt_irreflexive(a.unit.pre);
    lemma_chars_lt_irreflexive(a.unit.post);
    if key_lt(a, b) && key_lt(b, c) {
        if strings_lt(a.key, b.key) && strings_lt(b.key, c.key) {
            lemma_strings_lt_transitive(a.key, b.key, c.key);
        }
        if a.key == b.key && b.key == c.key {
            if chars_lt(a.unit.pre, b.unit.pre) && chars_lt(b.unit.pre, c.unit.pre) {
                lemma_chars_lt_transitive(a.unit.pre, b.unit.pre, c.unit.pre);
            }
            if a.unit.pre == b.unit.pre && b.unit.pre == c.unit.pre {
                lemma_chars_lt_transitive(a.unit.post, b.unit.post, c.unit.post);
            }
        }
    }
    if a != b {
        if a.key != b.key {
            lemma_strings_lt_total(a.key, b.key);
        } else if a.unit.pre != b.unit.pre {
            lemma_chars_lt_total(a.unit.pre, b.unit.pre);
        } else {
            if a.unit.post == b.unit.post {
                assert(a.unit == b.unit);
            }
            lemma_chars_lt_total(a.unit.post, b.unit.post);
        }
    }
}

/// `a` is a proper prefix of `b`.
pub open spec fn proper_prefix<A>(a: Seq<A>, b: Seq<A>) -> bool {
    a.len() < b.len() && b.take(a.len() as int) == a
}

/// The order of strings is lexicographic: `a` comes before `b` exactly when
/// `a` is a proper prefix of `b`, or at the first position where they differ
/// the character of `a` is the smaller, whatever their lengths.
pub proof fn lemma_chars_lt_lexicographic(a: Seq<char>, b: Seq<char>)
    ensures
        chars_lt(a, b) <==> (proper_prefix(a, b) || exists|i: int|
            0 <= i < a.len() && i < b.len() && #[trigger] a.take(i) == b.take(i) && a[i] < b[i]),
    decreases a.len(),
{
    if a.len() == 0 {
        assert(b.take(0) =~= a);
    } else if b.len() == 0 {
    } else if a[0] != b[0] {
        if proper_prefix(a, b) {
            assert(b.take(a.len() as int)[0] == b[0]);
        }
        assert forall|i: int| 0 < i < a.len() && i < b.len() && #[trigger] a.take(i) == b.take(i)
            implies false by {
            assert(a.take(i)[0] == a[0] && b.take(i)[0] == b[0]);
        }
        if a[0] < b[0] {
            assert(a.take(0) =~= b.take(0));
        }
    } else {
        let a1 = a.skip(1);
        let b1 = b.skip(1);
        lemma_chars_lt_lexicographic(a1, b1);
        let n = a.len() as int;
        if proper_prefix(a1, b1) {
            assert(b.take(n) =~= a) by {
                assert forall|k: int| 0 <= k < n implies #[trigger] b.take(n)[k] == a[k] by {
                    if k > 0 {
                        assert(b1.take(n - 1)[k - 1] == a1[k - 1]);
                    }
                }
            }
        }
        if proper_prefix(a, b) {
            assert(b1.take(n - 1) =~= a1) by {
                assert forall|k: int| 0 <= k < n - 1 implies #[trigger] b1.take(n - 1)[k] == a1[k] by {
                    assert(b.take(n)[k + 1] == a[k + 1]);
                }
            }
        }
        if exists|i: int|
            0 <= i < a1.len() && i < b1.len() && #[trigger] a1.take(i) == b1.take(i) && a1[i] < b1[i] {
            let i = choose|i: int|
                0 <= i < a1.len() && i < b1.len() && #[trigger] a1.take(i) == b1.take(i) && a1[i]
                    < b1[i];
            assert(a.take(i + 1) =~= b.take(i + 1)) by {
                assert forall|k: int| 0 <= k < i + 1 implies #[trigger] a.take(i + 1)[k] == b.take(i + 1)[k] by {
                    if k > 0 {
                        assert(a1.take(i)[k - 1] == b1.take(i)[k - 1]);
                    }
                }
            }
            assert(a[i + 1] < b[i + 1]);
        }
        if exists|i: int|
            0 <= i < a.len() && i < b.len() && #[trigger] a.take(i) == b.take(i) && a[i] < b[i] {
            let i = choose|i: int|
                0 <= i < a.len() && i < b.len() && #[trigger] a.take(i) == b.take(i) && a[i] < b[i];
            assert(i > 0);
            assert(a1.take(i - 1) =~= b1.take(i - 1)) by {
                assert forall|k: int| 0 <= k < i - 1 implies #[trigger] a1.take(i - 1)[k] == b1.take(i - 1)[k] by {
                    assert(a.take(i)[k + 1] == b.take(i)[k + 1]);
                }
            }
            assert(a1[i - 1] < b1[i - 1]);
        }
    }
}

/// The order of lists of strings is lexicographic: `a` comes before `b`
/// exactly when `a` is a proper prefix of `b`, or at the first position where
/// they differ the string of `a` comes first, whatever their lengths.
pub proof fn lemma_strings_lt_lexicographic(a: Seq<Seq<char>>, b: Seq<Seq<char>>)
    ensures
        strings_lt(a, b) <==> (proper_prefix(a, b) || exists|i: int|
            0 <= i < a.len() && i < b.len() && #[trigger] a.take(i) == b.take(i) && chars_lt(a[i], b[i])),
    decreases a.len(),
{
    if a.len() == 0 {
        assert(b.take(0) =~= a);
    } else if b.len() == 0 {
    } else if a[0] != b[0] {
        if proper_prefix(a, b) {
            assert(b.take(a.len() as int)[0] == b[0]);
        }
        assert forall|i: int| 0 < i < a.len() && i < b.len() && #[trigger] a.take(i) == b.take(i)
            implies false by {
            assert(a.take(i)[0] == a[0] && b.take(i)[0] == b[0]);
        }
        if chars_lt(a[0], b[0]) {
            assert(a.take(0) =~= b.take(0));
        }
    } else {
        let a1 = a.skip(1);
        let b1 = b.skip(1);
        lemma_strings_lt_lexicographic(a1, b1);
        let n = a.len() as int;
        if proper_prefix(a1, b1) {
            assert(b.take(n) =~= a) by {
                assert forall|k: int| 0 <= k < n implies #[trigger] b.take(n)[k] == a[k] by {
                    if k > 0 {
                        assert(b1.take(n - 1)[k - 1] == a1[k - 1]);
                    }
                }
            }
        }
        if proper_prefix(a, b) {
            assert(b1.take(n - 1) =~= a1) by {
                assert forall|k: int| 0 <= k < n - 1 implies #[trigger] b1.take(n - 1)[k] == a1[k] by {
                    assert(b.take(n)[k + 1] == a[k + 1]);
                }
            }
        }
        if exists|i: int|
            0 <= i < a1.len() && i < b1.len() && #[trigger] a1.take(i) == b1.take(i) && chars_lt(a1[i], b1[i]) {
            let i = choose|i: int|
                0 <= i < a1.len() && i < b1.len() && #[trigger] a1.take(i) == b1.take(i) && chars_lt(a1[i], b1[i]);
            assert(a.take(i + 1) =~= b.take(i + 1)) by {
                assert forall|k: int| 0 <= k < i + 1 implies #[trigger] a.take(i + 1)[k] == b.take(i + 1)[k] by {
                    if k > 0 {
                        assert(a1.take(i)[k - 1] == b1.take(i)[k - 1]);
                    }
                }
            }
            assert(chars_lt(a[i + 1], b[i + 1]));
        }
        if exists|i: int|
            0 <= i < a.len() && i < b.len() && #[trigger] a.take(i) == b.take(i) && chars_lt(a[i], b[i]) {
            let i = choose|i: int|
                0 <= i < a.len() && i < b.len() && #[trigger] a.take(i) == b.take(i) && chars_lt(a[i], b[i]);
            lemma_chars_lt_irreflexive(a[0]);
            assert(i > 0);
            assert(a1.take(i - 1) =~= b1.take(i - 1)) by {
                assert forall|k: int| 0 <= k < i - 1 implies #[trigger] a1.take(i - 1)[k] == b1.take(i - 1)[k] by {
                    assert(a.take(i)[k + 1] == b.take(i)[k + 1]);
                }
            }
            assert(chars_lt(a1[i - 1], b1[i - 1]));
        }
    }
}

/// Whether `a` comes before `b` in lexicographic order of characters.
pub fn str_less(a: &str, b: &str) -> (res: bool)
    ensures
        res == chars_lt(a@, b@),
{
    let x = to_chars(a);
    let y = to_chars(b);
    let mut i: usize = 0;
    assert(x@.skip(0) == x@ && y@.skip(0) == y@);
    while i < x.len() && i < y.len() && x[i] == y[i]
        invariant
            i <= x@.len(),
            i <= y@.len(),
            chars_lt(x@.skip(i as int), y@.skip(i as int)) == chars_lt(a@, b@),
            x@ == a@,
            y@ == b@,
        decreases x.len() - i,
    {
        assert(x@.skip(i as int).skip(1) == x@.skip(i + 1));
        assert(y@.skip(i as int).skip(1) == y@.skip(i + 1));
        i += 1;
    }
    if i == x.len() {
        i < y.len()
    } else if i == y.len() {
        false
    } else {
        x[i] < y[i]
    }
}

/// Whether two lists of strings are equal.
pub fn strings_eq(a: &Vec<String>, b: &Vec<String>) -> (res: bool)
    ensures
        res == (strings_view(a@) == strings_view(b@)),
{
    if a.len() != b.len() {
        return false;
    }
    let mut i: usize = 0;
    while i < a.len()
        invariant
            i <= a@.len() == b@.len(),
            forall|k: int| 0 <= k < i ==> a@[k]@ == b@[k]@,
        decreases a.len() - i,
    {
        if a[i] != b[i] {
            assert(strings_view(a@)[i as int] != strings_view(b@)[i as int]);
            return false;
        }
        i += 1;
    }
    assert(strings_view(a@) =~= strings_view(b@));
    true
}

/// Whether `a` comes before `b` in lexicographic order of lists of strings.
pub fn strings_less(a: &Vec<String>, b: &Vec<String>) -> (res: bool)
    ensures
        res == strings_lt(strings_view(a@), strings_view(b@)),
{
    let ghost av = strings_view(a@);
    let ghost bv = strings_view(b@);
    let mut i: usize = 0;
    assert(av.skip(0) == av && bv.skip(0) == bv);
    while i < a.len() && i < b.len() && a[i] == b[i]
        invariant
            i <= a@.len(),
            i <= b@.len(),
            av == strings_view(a@),
            bv == strings_view(b@),
            strings_lt(av.skip(i as int), bv.skip(i as int)) == strings_lt(av, bv),
        decreases a.len() - i,
    {
        assert(av.skip(i as int).skip(1) == av.skip(i + 1));
        assert(bv.skip(i as int).skip(1) == bv.skip(i + 1));
        i += 1;
    }
    if i == a.len() {
        i < b.len()
    } else if i == b.len() {
        false
    } else {
        str_less(a[i].as_str(), b[i].as_str())
    }
}

/// Whether two keys are equal.
pub fn key_eq(a: &KeySig, b: &KeySig) -> (res: bool)
    ensures
        res == (a@ == b@),
{
    strings_eq(&a.key, &b.key) && a.unit.pre == b.unit.pre && a.unit.post == b.unit.post
}

/// Whether `a` comes before `b`.
pub fn key_less(a: &KeySig, b: &KeySig) -> (res: bool)
    ensures
        res == key_lt(a@, b@),
{
    if strings_less(&a.key, &b.key) {
        return true;
    }
    if !strings_eq(&a.key, &b.key) {
        return false;
    }
    if str_less(a.unit.pre.as_str(), b.unit.pre.as_str()) {
        return true;
    }
    a.unit.pre == b.unit.pre && str_less(a.unit.post.as_str(), b.unit.post.as_str())
}

} // verus!
