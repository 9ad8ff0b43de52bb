//! Texts put one behind the other.
use vstd::prelude::*;
use crate::text::{owned, push_str};

verus! {

#[verifier::opaque]
pub open spec fn cat2(a: Seq<char>, b: Seq<char>) -> Seq<char> {
    a + b
}

pub fn put2(a: &str, b: &str) -> (r: String)
    ensures
        r@ == cat2(a@, b@),
{
    reveal(cat2);
    let mut out = owned(a);
    push_str(&mut out, b);
    out
}

#[verifier::opaque]
pub open spec fn cat3(a: Seq<char>, b: Seq<char>, c: Seq<char>) -> Seq<char> {
    a + b + c
}

pub fn put3(a: &str, b: &str, c: &str) -> (r: String)
    ensures
        r@ == cat3(a@, b@, c@),
{
    reveal(cat3);
    let mut out = owned(a);
    push_str(&mut out, b);
    push_str(&mut out, c);
    out
}

#[verifier::opaque]
pub open spec fn cat4(a: Seq<char>, b: Seq<char>, c: Seq<char>, d: Seq<char>) -> Seq<char> {
    a + b + c + d
}

pub fn put4(a: &str, b: &str, c: &str, d: &str) -> (r: String)
    ensures
        r@ == cat4(a@, b@, c@, d@),
{
    reveal(cat4);
    let mut out = owned(a);
    push_str(&mut out, b);
    push_str(&mut out, c);
    push_str(&mut out, d);
    out
}

#[verifier::opaque]
pub open spec fn cat5(a: Seq<char>, b: Seq<char>, c: Seq<char>, d: Seq<char>, e: Seq<char>) -> Seq<char> {
    a + b + c + d + e
}

pub fn put5(a: &str, b: &str, c: &str, d: &str, e: &str) -> (r: String)
    ensures
        r@ == cat5(a@, b@, c@, d@, e@),
{
    reveal(cat5);
    let mut out = owned(a);
    push_str(&mut out, b);
    push_str(&mut out, c);
    push_str(&mut out, d);
    push_str(&mut out, e);
    out
}

#[verifier::opaque]
pub open spec fn cat6(a: Seq<char>, b: Seq<char>, c: Seq<char>, d: Seq<char>, e: Seq<char>, f: Seq<char>) -> Seq<char> {
    a + b + c + d + e + f
}

pub fn put6(a: &str, b: &str, c: &str, d: &str, e: &str, f: &str) -> (r: String)
    ensures
        r@ == cat6(a@, b@, c@, d@, e@, f@),
{
    reveal(cat6);
    let mut out = owned(a);
    push_str(&mut out, b);
    push_str(&mut out, c);
    push_str(&mut out, d);
    push_str(&mut out, e);
    push_str(&mut out, f);
    out
}

#[verifier::opaque]
pub open spec fn cat7(a: Seq<char>, b: Seq<char>, c: Seq<char>, d: Seq<char>, e: Seq<char>, f: Seq<char>, g: Seq<char>) -> Seq<char> {
    a + b + c + d + e + f + g
}

pub fn put7(a: &str, b: &str, c: &str, d: &str, e: &str, f: &str, g: &str) -> (r: String)
    ensures
        r@ == cat7(a@, b@, c@, d@, e@, f@, g@),
{
    reveal(cat7);
    let mut out = owned(a);
    push_str(&mut out, b);
    push_str(&mut out, c);
    push_str(&mut out, d);
    push_str(&mut out, e);
    push_str(&mut out, f);
    push_str(&mut out, g);
    out
}

#[verifier::opaque]
pub open spec fn cat8(a: Seq<char>, b: Seq<char>, c: Seq<char>, d: Seq<char>, e: Seq<char>, f: Seq<char>, g: Seq<char>, h: Seq<char>) -> Seq<char> {
    a + b + c + d + e + f + g + h
}

pub fn put8(a: &str, b: &str, c: &str, d: &str, e: &str, f: &str, g: &str, h: &str) -> (r: String)
    ensures
        r@ == cat8(a@, b@, c@, d@, e@, f@, g@, h@),
{
    reveal(cat8);
    let mut out = owned(a);
    push_str(&mut out, b);
    push_str(&mut out, c);
    push_str(&mut out, d);
    push_str(&mut out, e);
    push_str(&mut out, f);
    push_str(&mut out, g);
    push_str(&mut out, h);
    out
}

#[verifier::opaque]
pub open spec fn cat9(a: Seq<char>, b: Seq<char>, c: Seq<char>, d: Seq<char>, e: Seq<char>, f: Seq<char>, g: Seq<char>, h: Seq<char>, i: Seq<char>) -> Seq<char> {
    a + b + c + d + e + f + g + h + i
}

pub fn put9(a: &str, b: &str, c: &str, d: &str, e: &str, f: &str, g: &str, h: &str, i: &str) -> (r: String)
    ensures
        r@ == cat9(a@, b@, c@, d@, e@, f@, g@, h@, i@),
{
    reveal(cat9);
    let mut out = owned(a);
    push_str(&mut out, b);
    push_str(&mut out, c);
    push_str(&mut out, d);
    push_str(&mut out, e);
    push_str(&mut out, f);
    push_str(&mut out, g);
    push_str(&mut out, h);
    push_str(&mut out, i);
    out
}

} // verus!
