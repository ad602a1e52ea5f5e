//! Callbacks that are functions: they accept every argument, and what they
//! return depends on their arguments alone.

use vstd::prelude::*;

verus! {

pub open spec fn pure1<A, R, F: Fn(A) -> R>(f: F) -> bool {
    &&& forall|a: A| f.requires((a,))
    &&& forall|a: A, r: R, s: R| f.ensures((a,), r) && f.ensures((a,), s) ==> r == s
}

pub open spec fn pure2<A, B, R, F: Fn(A, B) -> R>(f: F) -> bool {
    &&& forall|a: A, b: B| f.requires((a, b))
    &&& forall|a: A, b: B, r: R, s: R| f.ensures((a, b), r) && f.ensures((a, b), s) ==> r == s
}

pub open spec fn pure3<A, B, C, R, F: Fn(A, B, C) -> R>(f: F) -> bool {
    &&& forall|a: A, b: B, c: C| f.requires((a, b, c))
    &&& forall|a: A, b: B, c: C, r: R, s: R|
        f.ensures((a, b, c), r) && f.ensures((a, b, c), s) ==> r == s
}

pub open spec fn pure4<A, B, C, D, R, F: Fn(A, B, C, D) -> R>(f: F) -> bool {
    &&& forall|a: A, b: B, c: C, d: D| f.requires((a, b, c, d))
    &&& forall|a: A, b: B, c: C, d: D, r: R, s: R|
        f.ensures((a, b, c, d), r) && f.ensures((a, b, c, d), s) ==> r == s
}

/// What `f` returns for `a`.
pub open spec fn value1<A, R, F: Fn(A) -> R>(f: F, a: A) -> R {
    choose|r: R| f.ensures((a,), r)
}

/// What `f` returns for `a` and `b`.
pub open spec fn value2<A, B, R, F: Fn(A, B) -> R>(f: F, a: A, b: B) -> R {
    choose|r: R| f.ensures((a, b), r)
}

/// What `f` returns for `a`, `b` and `c`.
pub open spec fn value3<A, B, C, R, F: Fn(A, B, C) -> R>(f: F, a: A, b: B, c: C) -> R {
    choose|r: R| f.ensures((a, b, c), r)
}

/// What `f` returns for `a`, `b`, `c` and `d`.
pub open spec fn value4<A, B, C, D, R, F: Fn(A, B, C, D) -> R>(f: F, a: A, b: B, c: C, d: D) -> R {
    choose|r: R| f.ensures((a, b, c, d), r)
}

pub fn call1<A, R, F: Fn(A) -> R>(f: &F, a: A) -> (r: R)
    requires
        pure1(*f),
    ensures
        r == value1(*f, a),
{
    let r = f(a);
    assert(f.ensures((a,), r));
    r
}

pub fn call2<A, B, R, F: Fn(A, B) -> R>(f: &F, a: A, b: B) -> (r: R)
    requires
        pure2(*f),
    ensures
        r == value2(*f, a, b),
{
    let r = f(a, b);
    assert(f.ensures((a, b), r));
    r
}

pub fn call3<A, B, C, R, F: Fn(A, B, C) -> R>(f: &F, a: A, b: B, c: C) -> (r: R)
    requires
        pure3(*f),
    ensures
        r == value3(*f, a, b, c),
{
    let r = f(a, b, c);
    assert(f.ensures((a, b, c), r));
    r
}

pub fn call4<A, B, C, D, R, F: Fn(A, B, C, D) -> R>(f: &F, a: A, b: B, c: C, d: D) -> (r: R)
    requires
        pure4(*f),
    ensures
        r == value4(*f, a, b, c, d),
{
    let r = f(a, b, c, d);
    assert(f.ensures((a, b, c, d), r));
    r
}

} // verus!
