//! The time of day, and the local ids that are made of it.

use vstd::prelude::*;

use crate::number::{
    decimal, lemma_decimal_pair, lemma_decimal_value, push_decimal, push_signed, signed_decimal,
};
use crate::text::{is_digit, string_of};

verus! {

/// `chrono::Utc::now` in milliseconds since 1970 (`chrono::DateTime::timestamp_millis`).
/// Nothing is claimed of it: it is whatever the clock of the machine says.
#[verifier::external_body]
pub(crate) fn now_millis() -> (millis: i64) {
    chrono::Utc::now().timestamp_millis()
}

/// `chrono::Utc::now` in seconds since 1970 (`chrono::DateTime::timestamp`). Nothing
/// is claimed of it: it is whatever the clock of the machine says.
#[verifier::external_body]
pub(crate) fn now_seconds() -> (seconds: i64) {
    chrono::Utc::now().timestamp()
}

/// A local id: a letter, the time in milliseconds and a running number.
pub open spec fn local_id(letter: char, millis: int, n: nat) -> Seq<char> {
    seq![letter] + signed_decimal(millis) + seq!['-'] + decimal(n)
}

/// Writes a local id.
pub fn write_id(letter: char, millis: i64, n: u64) -> (id: String)
    ensures
        id@ == local_id(letter, millis as int, n as nat),
{
    let mut v: Vec<char> = Vec::new();
    v.push(letter);
    assert(v@ =~= seq![letter]);
    push_signed(&mut v, millis);
    v.push('-');
    push_decimal(&mut v, n);
    assert(v@ =~= local_id(letter, millis as int, n as nat));
    string_of(&v)
}

/// Ids that differ in time or in number are different.
pub proof fn law_local_ids_are_unique(letter: char, m: int, n: nat, p: int, q: nat)
    requires
        local_id(letter, m, n) == local_id(letter, p, q),
    ensures
        m == p,
        n == q,
{
    let s = local_id(letter, m, n);
    let t = local_id(letter, p, q);
    lemma_signed_first(m);
    lemma_signed_first(p);
    assert(s[1] == signed_decimal(m)[0]);
    assert(t[1] == signed_decimal(p)[0]);
    let skipped = if m < 0 {
        2int
    } else {
        1int
    };
    let (a, c) = if m < 0 {
        ((-m) as nat, (-p) as nat)
    } else {
        (m as nat, p as nat)
    };
    assert(s.skip(skipped) =~= decimal(a).push('-') + decimal(n));
    assert(t.skip(skipped) =~= decimal(c).push('-') + decimal(q));
    lemma_decimal_pair(a, n, c, q, '-');
}

proof fn lemma_signed_first(m: int)
    ensures
        signed_decimal(m).len() > 0,
        m < 0 <==> signed_decimal(m)[0] == '-',
{
    if m < 0 {
        lemma_decimal_value((-m) as nat);
    } else {
        lemma_decimal_value(m as nat);
        assert(is_digit(decimal(m as nat)[0]));
    }
}

} // verus!
