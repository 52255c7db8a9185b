//! Small companions of the roll-up: animals that make a sound, applying a
//! function, the largest element of a list, and a canned payload.

use vstd::prelude::*;
use vstd::std_specs::cmp::PartialOrdSpec;
use vstd::string::*;

verus! {

/// An animal that makes a sound.
pub trait Animal {
    /// The animal's sound.
    fn sound(&self) -> &'static str;
}

/// A dog.
pub struct Dog;

/// A cat.
pub struct Cat;

impl Animal for Dog {
    fn sound(&self) -> (s: &'static str)
        ensures
            s@ == "woof"@,
    {
        "woof"
    }
}

impl Animal for Cat {
    fn sound(&self) -> (s: &'static str)
        ensures
            s@ == "meow"@,
    {
        "meow"
    }
}

/// `f` applied to `x`.
pub fn apply<F: Fn(i32) -> i32>(f: F, x: i32) -> (r: i32)
    requires
        call_requires(f, (x,)),
    ensures
        call_ensures(f, (x,), r),
{
    f(x)
}

/// Whether `a` is greater than `b` by their partial order.
pub open spec fn greater<T: PartialOrd>(a: T, b: T) -> bool {
    a.partial_cmp_spec(&b) == Some(core::cmp::Ordering::Greater)
}

/// The position of the largest of `s[..k]`: the first element, replaced by
/// each later element greater than the largest so far.
pub open spec fn largest_upto<T: PartialOrd>(s: Seq<T>, k: nat) -> int
    decreases k,
{
    if k <= 1 {
        0
    } else {
        let m = largest_upto(s, (k - 1) as nat);
        if greater(s[k - 1], s[m]) {
            k - 1
        } else {
            m
        }
    }
}

/// `n` as a natural number.
pub open spec fn nat_of(n: usize) -> nat {
    n as nat
}

/// The largest element of a non-empty list: the first one, replaced by
/// each later element greater than the largest so far.
pub fn largest<T: PartialOrd>(list: &[T]) -> (r: &T)
    requires
        list@.len() > 0,
    ensures
        T::obeys_partial_cmp_spec() ==> *r == list@[largest_upto(list@, list@.len())],
{
    let mut best: usize = 0;
    let mut i: usize = 1;
    while i < list.len()
        invariant
            1 <= i <= list@.len(),
            best < i,
            T::obeys_partial_cmp_spec() ==> best == largest_upto(list@, nat_of(i)),
        decreases list.len() - i,
    {
        if list[i] > list[best] {
            best = i;
        }
        i += 1;
    }
    &list[best]
}

/// The payload that a fetch gives back.
pub fn fetch() -> (s: String)
    ensures
        s@ == "data"@,
{
    String::from_str("data")
}

} // verus!
