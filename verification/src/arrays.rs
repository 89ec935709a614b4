//! Array sample programs: joining, mapping and short-circuiting searches.

use vstd::prelude::*;

verus! {

/// Hands a dynamically sized integer array back unchanged.
pub fn hi(a: Vec<i64>) -> (r: Vec<i64>)
    ensures
        r@ == a@,
{
    a
}

/// The elements of `a` followed by those of `b`.
pub fn join<T>(a: Vec<T>, b: Vec<T>) -> (r: Vec<T>)
    ensures
        r@ == a@ + b@,
{
    let mut out = a;
    let mut rest = b;
    out.append(&mut rest);
    out
}

/// Negates every element. No element may be the least integer, whose negation
/// does not fit.
pub fn negate_each(x: &Vec<i64>) -> (r: Vec<i64>)
    requires
        forall|i: int| 0 <= i < x.len() ==> x[i] != i64::MIN,
    ensures
        r.len() == x.len(),
        forall|i: int| 0 <= i < x.len() ==> #[trigger] r[i] == -x[i],
{
    let mut out: Vec<i64> = Vec::new();
    let mut i: usize = 0;
    while i < x.len()
        invariant
            i <= x.len(),
            out.len() == i,
            forall|k: int| 0 <= k < x.len() ==> x[k] != i64::MIN,
            forall|k: int| 0 <= k < i ==> #[trigger] out[k] == -x[k],
        decreases x.len() - i,
    {
        out.push(-x[i]);
        i += 1;
    }
    out
}

/// Applies `f` to every element in ascending index order and collects the
/// results.
pub fn map<T, U, F: Fn(&T) -> U>(x: &Vec<T>, f: F) -> (r: Vec<U>)
    requires
        forall|i: int| 0 <= i < x.len() ==> call_requires(f, (&x[i],)),
    ensures
        r.len() == x.len(),
        forall|i: int| 0 <= i < x.len() ==> call_ensures(f, (&x[i],), #[trigger] r[i]),
{
    let mut out: Vec<U> = Vec::new();
    let mut i: usize = 0;
    while i < x.len()
        invariant
            i <= x.len(),
            out.len() == i,
            forall|k: int| 0 <= k < x.len() ==> call_requires(f, (&x[k],)),
            forall|k: int| 0 <= k < i ==> call_ensures(f, (&x[k],), #[trigger] out[k]),
        decreases x.len() - i,
    {
        out.push(f(&x[i]));
        i += 1;
    }
    out
}

/// Whether `check` accepts every element. The search stops at the first
/// element that `check` refuses: `false` names an index whose element was
/// refused after all earlier ones were accepted.
pub fn every<T, F: Fn(&T) -> bool>(data: &Vec<T>, check: F) -> (r: bool)
    requires
        forall|i: int| 0 <= i < data.len() ==> call_requires(check, (&data[i],)),
    ensures
        r ==> forall|i: int| 0 <= i < data.len() ==> call_ensures(check, (&data[i],), true),
        !r ==> exists|i: int|
            0 <= i < data.len() && #[trigger] call_ensures(check, (&data[i],), false) && forall|
                k: int,
            | 0 <= k < i ==> call_ensures(check, (&data[k],), true),
{
    let mut i: usize = 0;
    while i < data.len()
        invariant
            i <= data.len(),
            forall|k: int| 0 <= k < data.len() ==> call_requires(check, (&data[k],)),
            forall|k: int| 0 <= k < i ==> call_ensures(check, (&data[k],), true),
        decreases data.len() - i,
    {
        if !check(&data[i]) {
            assert(call_ensures(check, (&data[i as int],), false));
            return false;
        }
        i += 1;
    }
    true
}

/// Whether `check` accepts some element. The search stops at the first
/// element that `check` accepts: `true` names an index whose element was
/// accepted after all earlier ones were refused.
pub fn some<T, F: Fn(&T) -> bool>(data: &Vec<T>, check: F) -> (r: bool)
    requires
        forall|i: int| 0 <= i < data.len() ==> call_requires(check, (&data[i],)),
    ensures
        !r ==> forall|i: int| 0 <= i < data.len() ==> call_ensures(check, (&data[i],), false),
        r ==> exists|i: int|
            0 <= i < data.len() && #[trigger] call_ensures(check, (&data[i],), true) && forall|
                k: int,
            | 0 <= k < i ==> call_ensures(check, (&data[k],), false),
{
    let mut i: usize = 0;
    while i < data.len()
        invariant
            i <= data.len(),
            forall|k: int| 0 <= k < data.len() ==> call_requires(check, (&data[k],)),
            forall|k: int| 0 <= k < i ==> call_ensures(check, (&data[k],), false),
        decreases data.len() - i,
    {
        if check(&data[i]) {
            assert(call_ensures(check, (&data[i as int],), true));
            return true;
        }
        i += 1;
    }
    false
}

/// `a + b` for an array and a single value: `plus` applied to each element
/// of `a` and to `b`, in ascending index order.
pub fn plus_each<T, U, V, F: Fn(&T, &U) -> V>(a: &Vec<T>, b: &U, plus: F) -> (r: Vec<V>)
    requires
        forall|i: int| 0 <= i < a.len() ==> call_requires(plus, (&a[i], b)),
    ensures
        r.len() == a.len(),
        forall|i: int| 0 <= i < a.len() ==> call_ensures(plus, (&a[i], b), #[trigger] r[i]),
{
    let mut out: Vec<V> = Vec::new();
    let mut i: usize = 0;
    while i < a.len()
        invariant
            i <= a.len(),
            out.len() == i,
            forall|k: int| 0 <= k < a.len() ==> call_requires(plus, (&a[k], b)),
            forall|k: int| 0 <= k < i ==> call_ensures(plus, (&a[k], b), #[trigger] out[k]),
        decreases a.len() - i,
    {
        out.push(plus(&a[i], b));
        i += 1;
    }
    out
}

/// `a + b` for a single value and an array: `plus` applied to `a` and to each
/// element of `b`, in ascending index order.
pub fn each_plus<T, U, V, F: Fn(&T, &U) -> V>(a: &T, b: &Vec<U>, plus: F) -> (r: Vec<V>)
    requires
        forall|i: int| 0 <= i < b.len() ==> call_requires(plus, (a, &b[i])),
    ensures
        r.len() == b.len(),
        forall|i: int| 0 <= i < b.len() ==> call_ensures(plus, (a, &b[i]), #[trigger] r[i]),
{
    let mut out: Vec<V> = Vec::new();
    let mut i: usize = 0;
    while i < b.len()
        invariant
            i <= b.len(),
            out.len() == i,
            forall|k: int| 0 <= k < b.len() ==> call_requires(plus, (a, &b[k])),
            forall|k: int| 0 <= k < i ==> call_ensures(plus, (a, &b[k]), #[trigger] out[k]),
        decreases b.len() - i,
    {
        out.push(plus(a, &b[i]));
        i += 1;
    }
    out
}

/// `a == b` for arrays: the lengths are equal and `differ` finds no pair of
/// elements at the same index that differ. The comparison stops at the first
/// pair that does.
pub fn equal_arrays<T, F: Fn(&T, &T) -> bool>(a: &Vec<T>, b: &Vec<T>, differ: F) -> (r: bool)
    requires
        forall|i: int| 0 <= i < a.len() && i < b.len() ==> call_requires(differ, (&a[i], &b[i])),
    ensures
        r ==> a.len() == b.len() && forall|i: int|
            0 <= i < a.len() ==> call_ensures(differ, (&a[i], &b[i]), false),
        !r ==> a.len() != b.len() || exists|i: int|
            0 <= i < a.len() && #[trigger] call_ensures(differ, (&a[i], &b[i]), true) && forall|
                k: int,
            | 0 <= k < i ==> call_ensures(differ, (&a[k], &b[k]), false),
{
    if a.len() != b.len() {
        return false;
    }
    let mut i: usize = 0;
    while i < a.len()
        invariant
            i <= a.len(),
            a.len() == b.len(),
            forall|k: int| 0 <= k < a.len() ==> call_requires(differ, (&a[k], &b[k])),
            forall|k: int| 0 <= k < i ==> call_ensures(differ, (&a[k], &b[k]), false),
        decreases a.len() - i,
    {
        if differ(&a[i], &b[i]) {
            assert(call_ensures(differ, (&a[i as int], &b[i as int]), true));
            return false;
        }
        i += 1;
    }
    true
}

} // verus!
