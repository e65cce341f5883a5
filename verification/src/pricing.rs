//! The numbers on a trade terminal: unit price (aUEC per SCU) and available
//! quantity (SCU).
//!
//! Prices show with a magnitude suffix, as in `¤6.561K/SCU`, or with thousands
//! separators, as in `¤6,561/SCU`; quantities are plain integers with optional
//! separators, as in `1,050 SCU`. The currency glyph is often misread and the
//! slash sometimes lost, so the patterns anchor on the number and the unit. A slash or
//! a suffix tells a price from a quantity.

use vstd::prelude::*;

use crate::confidence::lemma_pow10_adds;
use crate::double::{
    extended, half_is_reached, lemma_extended, lemma_pow10_pos, pow10, reaches_half,
};
use crate::number::{
    decimal, digit_value, digits_value, lemma_decimal_value, lemma_digits_grow, only_digits, padded,
    read_digits,
};
use crate::pattern::{
    captures, group, group_at, groups_view, regex_groups, regex_replaced, replace_all,
};
use crate::text::{
    chars_of, digit, find_chars, first_occurs_at, is_digit, lemma_position_of, occurs, position_of,
    slice_chars, string_of, trim, trimmed,
};

verus! {

/// A price: a number with a magnitude suffix, or a number and a slash, before the unit.
/// With a suffix there is one decimal point at the most, and commas are noise; without
/// one there can be any separators.
pub const PRICE: &'static str =
    r"(?i)(?:([0-9]+(?:,[0-9]+)*(?:\.[0-9]+(?:,[0-9]+)*)?)\s*([km])\s*/?|([0-9]+(?:[.,][0-9]+)*)\s*/)\s*s?cu";

/// A number directly before the unit, not behind a slash.
pub const QUANTITY: &'static str = r"(?i)(?:^|[^/0-9a-z])([0-9][0-9.,]*)\s*scu";

/// A price, with the text that it was read from.
#[derive(Debug, PartialEq, Eq)]
pub struct PriceMatch {
    pub value: u32,
    pub matched: String,
}

/// What a [`PriceMatch`] stands for.
pub struct PriceView {
    pub value: u32,
    pub matched: Seq<char>,
}

impl View for PriceMatch {
    type V = PriceView;

    open spec fn view(&self) -> PriceView {
        PriceView { value: self.value, matched: self.matched@ }
    }
}

impl Clone for PriceMatch {
    fn clone(&self) -> (r: Self)
        ensures
            r@ == self@,
    {
        PriceMatch { value: self.value, matched: self.matched.clone() }
    }
}

/// What an optional price stands for.
pub open spec fn price_view(p: Option<PriceMatch>) -> Option<PriceView> {
    match p {
        Some(m) => Some(m@),
        None => None,
    }
}

/// The digits of `s`.
pub open spec fn digits_of(s: Seq<char>) -> Seq<char>
    decreases s.len(),
{
    if s.len() == 0 {
        s
    } else if is_digit(s.last()) {
        digits_of(s.drop_last()).push(s.last())
    } else {
        digits_of(s.drop_last())
    }
}

/// The digits before the first decimal point of `s`.
pub open spec fn whole_digits(s: Seq<char>) -> Seq<char>
    decreases s.len(),
{
    if s.len() == 0 {
        s
    } else if is_digit(s.last()) && points(s) == 0 {
        whole_digits(s.drop_last()).push(s.last())
    } else {
        whole_digits(s.drop_last())
    }
}

/// The digits behind the first decimal point of `s`.
pub open spec fn fraction_digits(s: Seq<char>) -> Seq<char>
    decreases s.len(),
{
    if s.len() == 0 {
        s
    } else if is_digit(s.last()) && points(s) > 0 {
        fraction_digits(s.drop_last()).push(s.last())
    } else {
        fraction_digits(s.drop_last())
    }
}

/// The number of decimal points in `s`.
pub open spec fn points(s: Seq<char>) -> nat
    decreases s.len(),
{
    if s.len() == 0 {
        0
    } else if s.last() == '.' {
        points(s.drop_last()) + 1
    } else {
        points(s.drop_last())
    }
}

/// How many decimal places a magnitude suffix moves the point.
pub open spec fn places(suffix: char) -> nat {
    if suffix == 'k' || suffix == 'K' {
        3
    } else if suffix == 'm' || suffix == 'M' {
        6
    } else {
        0
    }
}

/// The number with the given digits before and behind the point, moved by `n`
/// places and rounded to the nearest whole number. The product is one of double
/// precision: of two numbers that are as near, it decides.
pub open spec fn scaled(whole: Seq<char>, fraction: Seq<char>, n: nat) -> nat {
    let base = digits_value(whole + padded(fraction, n));
    if reaches_half(digits_value(whole + fraction), pow10(fraction.len()), pow10(n), base) {
        base + 1
    } else {
        base
    }
}

/// The amount that `num` with a magnitude suffix stands for. The point is a
/// decimal point; every other character that is no digit is noise.
pub open spec fn suffixed_amount(num: Seq<char>, suffix: char) -> Option<u32> {
    let whole = whole_digits(num);
    let fraction = fraction_digits(num);
    if points(num) > 1 || whole.len() + fraction.len() == 0 {
        None
    } else {
        let value = scaled(whole, fraction, places(suffix));
        if value <= u32::MAX {
            Some(value as u32)
        } else {
            None
        }
    }
}

/// The amount that the digits of `num` stand for.
pub open spec fn plain_amount(num: Seq<char>) -> Option<u32> {
    let digits = digits_of(num);
    if digits.len() > 0 && digits_value(digits) <= u32::MAX {
        Some(digits_value(digits) as u32)
    } else {
        None
    }
}

proof fn lemma_digit_parts(s: Seq<char>)
    ensures
        only_digits(digits_of(s)),
        only_digits(whole_digits(s)),
        only_digits(fraction_digits(s)),
    decreases s.len(),
{
    if s.len() > 0 {
        lemma_digit_parts(s.drop_last());
    }
}

/// Converts a number with a magnitude suffix into whole aUEC, rounding to the
/// nearest.
pub fn amount_with_suffix(num: &str, suffix: char) -> (r: Option<u32>)
    ensures
        r == suffixed_amount(num@, suffix),
{
    let v = chars_of(num);
    let mut whole: Vec<char> = Vec::new();
    let mut fraction: Vec<char> = Vec::new();
    let mut seen: u128 = 0;
    let mut i: usize = 0;
    while i < v.len()
        invariant
            i <= v.len(),
            whole@ == whole_digits(v@.take(i as int)),
            fraction@ == fraction_digits(v@.take(i as int)),
            seen == points(v@.take(i as int)),
            seen <= i,
        decreases v.len() - i,
    {
        let c = v[i];
        proof {
            assert(v@.take(i + 1).drop_last() == v@.take(i as int));
        }
        if c == '.' {
            seen += 1;
        } else if digit(c) {
            if seen == 0 {
                whole.push(c);
            } else {
                fraction.push(c);
            }
        }
        i += 1;
    }
    proof {
        assert(v@.take(v@.len() as int) == v@);
        lemma_digit_parts(v@);
    }
    if seen > 1 || (whole.len() == 0 && fraction.len() == 0) {
        return None;
    }
    let n: usize = if suffix == 'k' || suffix == 'K' {
        3
    } else if suffix == 'm' || suffix == 'M' {
        6
    } else {
        0
    };
    let mut digits = slice_chars(&whole, 0, whole.len());
    let mut k: usize = 0;
    while k < n
        invariant
            k <= n,
            digits@ == whole@ + padded(fraction@, n as nat).take(k as int),
            only_digits(whole@),
            only_digits(fraction@),
            only_digits(digits@),
        decreases n - k,
    {
        let c = if k < fraction.len() {
            fraction[k]
        } else {
            '0'
        };
        digits.push(c);
        assert(padded(fraction@, n as nat).take(k + 1) == padded(fraction@, n as nat).take(
            k as int,
        ).push(c));
        k += 1;
    }
    assert(padded(fraction@, n as nat).take(n as int) == padded(fraction@, n as nat));
    let base: u64 = if digits.len() == 0 {
        0
    } else {
        assert(digits@.skip(0) == digits@);
        match read_digits(&digits, 0, u32::MAX as u64) {
            Some(value) => value,
            None => {
                return None;
            },
        }
    };
    let integer: u64 = if whole.len() == 0 {
        0
    } else {
        proof {
            assert(whole@.skip(0) == whole@);
            lemma_digits_grow(digits@, whole@.len() as int);
            assert(digits@.take(whole@.len() as int) =~= whole@);
        }
        match read_digits(&whole, 0, u32::MAX as u64) {
            Some(value) => value,
            None => {
                return None;
            },
        }
    };
    let factor: u64 = if n == 3 {
        1_000
    } else if n == 6 {
        1_000_000
    } else {
        1
    };
    proof {
        reveal_with_fuel(pow10, 7);
        lemma_extended(whole@, fraction@);
    }
    if half_is_reached(integer, &fraction, factor, base) {
        if base == u32::MAX as u64 {
            None
        } else {
            Some((base + 1) as u32)
        }
    } else {
        Some(base as u32)
    }
}

/// Converts a number without a magnitude suffix: only its digits count.
pub fn amount_plain(num: &str) -> (r: Option<u32>)
    ensures
        r == plain_amount(num@),
{
    let v = chars_of(num);
    let mut digits: Vec<char> = Vec::new();
    let mut i: usize = 0;
    while i < v.len()
        invariant
            i <= v.len(),
            digits@ == digits_of(v@.take(i as int)),
        decreases v.len() - i,
    {
        proof {
            assert(v@.take(i + 1).drop_last() == v@.take(i as int));
        }
        if digit(v[i]) {
            digits.push(v[i]);
        }
        i += 1;
    }
    proof {
        assert(v@.take(v@.len() as int) == v@);
        lemma_digit_parts(v@);
        assert(digits@.skip(0) == digits@);
    }
    match read_digits(&digits, 0, u32::MAX as u64) {
        Some(value) => Some(value as u32),
        None => None,
    }
}

/// The amount that the groups of a match give: of a number with a suffix, or of a whole
/// number; none where it is out of range.
pub open spec fn amount_of(groups: Seq<Option<Seq<char>>>) -> Option<u32> {
    match (group_at(groups, 1), group_at(groups, 2)) {
        (Some(num), Some(suffix)) => if suffix.len() == 0 {
            None
        } else {
            suffixed_amount(num, suffix[0])
        },
        _ => match group_at(groups, 3) {
            Some(num) => plain_amount(num),
            None => None,
        },
    }
}

/// The price that the groups of a match give.
pub open spec fn price_of(groups: Seq<Option<Seq<char>>>) -> Option<PriceView> {
    match (group_at(groups, 0), amount_of(groups)) {
        (Some(whole), Some(value)) => Some(PriceView { value, matched: trim(whole) }),
        _ => None,
    }
}

fn trimmed_text(s: &String) -> (r: String)
    ensures
        r@ == trim(s@),
{
    string_of(&trimmed(&chars_of(s.as_str())))
}

/// The price that the captured groups of the price pattern give.
pub fn price_from(groups: &Option<Vec<Option<String>>>) -> (r: Option<PriceMatch>)
    ensures
        price_view(r) == match groups_view(*groups) {
            Some(groups) => price_of(groups),
            None => None,
        },
{
    let groups = match groups {
        Some(groups) => groups,
        None => {
            return None;
        },
    };
    let amount = match (group(groups, 1), group(groups, 2)) {
        (Some(num), Some(suffix)) => {
            let suffix = chars_of(suffix.as_str());
            if suffix.len() == 0 {
                None
            } else {
                amount_with_suffix(num.as_str(), suffix[0])
            }
        },
        // Without a suffix the number is whole, whatever the separators were read
        // as: all of them are dropped, and none is a decimal point.
        _ => match group(groups, 3) {
            Some(num) => amount_plain(num.as_str()),
            None => None,
        },
    };
    match (group(groups, 0), amount) {
        (Some(whole), Some(value)) => Some(PriceMatch { value, matched: trimmed_text(whole) }),
        _ => None,
    }
}

/// What of `text` follows the first place of `found`; nothing where `found` is empty or
/// does not stand in it.
pub open spec fn behind(text: Seq<char>, found: Seq<char>) -> Seq<char> {
    match position_of(text, found) {
        Some(at) => if found.len() > 0 && 0 <= at && at + found.len() <= text.len() {
            text.skip(at + found.len())
        } else {
            Seq::empty()
        },
        None => Seq::empty(),
    }
}

/// The first price in `text`: the first match whose amount is in range.
pub open spec fn price_in(text: Seq<char>) -> Option<PriceView>
    decreases text.len(),
{
    match regex_groups(PRICE@, text) {
        Some(groups) => match price_of(groups) {
            Some(price) => Some(price),
            None => match group_at(groups, 0) {
                Some(found) => if behind(text, found).len() < text.len() {
                    price_in(behind(text, found))
                } else {
                    None
                },
                None => None,
            },
        },
        None => None,
    }
}

/// Cuts off everything up to the end of the first place of `found`.
fn cut_behind(v: &Vec<char>, found: &Vec<char>) -> (r: Vec<char>)
    ensures
        r@ == behind(v@, found@),
{
    match find_chars(v, found) {
        Some(at) => if found.len() > 0 {
            let end: usize = v.len();
            assert(at + found.len() <= end);
            let r = slice_chars(v, at + found.len(), end);
            assert(r@ =~= v@.skip(at + found.len()));
            r
        } else {
            Vec::new()
        },
        None => Vec::new(),
    }
}

/// Finds the first plausible price in a line of recognised text.
pub fn find_price(text: &str) -> (r: Option<PriceMatch>)
    ensures
        price_view(r) == price_in(text@),
{
    let mut rest = chars_of(text);
    loop
        invariant
            price_in(rest@) == price_in(text@),
        decreases rest.len(),
    {
        let groups = captures(PRICE, string_of(&rest).as_str());
        let price = price_from(&groups);
        if price.is_some() {
            return price;
        }
        let found = match &groups {
            Some(groups) => match group(groups, 0) {
                Some(found) => chars_of(found.as_str()),
                None => {
                    return None;
                },
            },
            None => {
                return None;
            },
        };
        let next = cut_behind(&rest, &found);
        if next.len() >= rest.len() {
            return None;
        }
        rest = next;
    }
}

/// `text` with a blank in place of everything that reads as a price.
pub open spec fn masked(text: Seq<char>) -> Seq<char> {
    regex_replaced(PRICE@, text, " "@)
}

/// The quantity that a match gives.
pub open spec fn quantity_of(groups: Option<Seq<Option<Seq<char>>>>) -> Option<u32> {
    match groups {
        Some(groups) => match group_at(groups, 1) {
            Some(num) => plain_amount(num),
            None => None,
        },
        None => None,
    }
}

/// The quantity in `text`.
pub open spec fn quantity_in(text: Seq<char>) -> Option<u32> {
    quantity_of(regex_groups(QUANTITY@, masked(text)))
}

/// The quantity that the captured groups of the quantity pattern give.
pub fn quantity_from(groups: &Option<Vec<Option<String>>>) -> (r: Option<u32>)
    ensures
        r == quantity_of(groups_view(*groups)),
{
    match groups {
        Some(groups) => match group(groups, 1) {
            Some(num) => amount_plain(num.as_str()),
            None => None,
        },
        None => None,
    }
}

/// Finds the first plausible quantity in a line of recognised text. Prices are
/// blanked out first, so that their numbers cannot be taken for a quantity.
pub fn find_quantity(text: &str) -> (r: Option<u32>)
    ensures
        r == quantity_in(text@),
        regex_groups(PRICE@, text@) is None ==> r == quantity_of(regex_groups(QUANTITY@, text@)),
{
    let rest = replace_all(PRICE, text, " ");
    quantity_from(&captures(QUANTITY, rest.as_str()))
}

/// The digits of two parts are those of the first and then those of the second.
proof fn lemma_digits_of_parts(a: Seq<char>, b: Seq<char>)
    ensures
        digits_of(a + b) == digits_of(a) + digits_of(b),
    decreases b.len(),
{
    if b.len() == 0 {
        assert(a + b =~= a);
        assert(digits_of(a) + digits_of(b) =~= digits_of(a));
    } else {
        lemma_digits_of_parts(a, b.drop_last());
        assert((a + b).drop_last() =~= a + b.drop_last());
        assert(digits_of(a + b) =~= digits_of(a) + digits_of(b));
    }
}

proof fn lemma_digits_of_digits(s: Seq<char>)
    requires
        only_digits(s),
    ensures
        digits_of(s) == s,
    decreases s.len(),
{
    if s.len() > 0 {
        assert(is_digit(s[s.len() - 1]));
        assert forall|i: int| 0 <= i < s.len() - 1 implies is_digit(#[trigger] s.drop_last()[i]) by {
            assert(is_digit(s[i]));
        }
        lemma_digits_of_digits(s.drop_last());
        assert(s.drop_last().push(s.last()) =~= s);
    }
}

/// Whatever stands between the digits of a whole number does not count, and the number is
/// read as it is written, as far as it is in range.
pub proof fn law_separators_do_not_count(a: Seq<char>, c: char, b: Seq<char>, n: nat)
    requires
        !('0' <= c && c <= '9'),
    ensures
        plain_amount(a + seq![c] + b) == plain_amount(a + b),
        n <= u32::MAX ==> plain_amount(decimal(n)) == Some(n as u32),
        n > u32::MAX ==> plain_amount(decimal(n)) is None,
        plain_amount(Seq::empty()) is None,
{
    lemma_digits_of_parts(a, b);
    lemma_digits_of_parts(a + seq![c], b);
    lemma_digits_of_parts(a, seq![c]);
    assert(seq![c].drop_last() =~= Seq::empty());
    assert(digits_of(seq![c]) =~= Seq::empty());
    assert(digits_of(a) + Seq::<char>::empty() =~= digits_of(a));
    lemma_decimal_value(n);
    lemma_digits_of_digits(decimal(n));
}

proof fn lemma_noise(a: Seq<char>, c: char, b: Seq<char>)
    requires
        !is_digit(c),
        c != '.',
    ensures
        points(a + seq![c] + b) == points(a + b),
        whole_digits(a + seq![c] + b) == whole_digits(a + b),
        fraction_digits(a + seq![c] + b) == fraction_digits(a + b),
    decreases b.len(),
{
    let noisy = a + seq![c] + b;
    if b.len() == 0 {
        assert(noisy.drop_last() =~= a);
        assert(a + b =~= a);
    } else {
        lemma_noise(a, c, b.drop_last());
        assert(noisy.drop_last() =~= a + seq![c] + b.drop_last());
        assert((a + b).drop_last() =~= a + b.drop_last());
    }
}

/// In a number with a magnitude suffix, what is neither a digit nor a point does not count;
/// and the suffix may be in upper or lower case.
pub proof fn law_noise_does_not_count(a: Seq<char>, c: char, b: Seq<char>, suffix: char)
    requires
        !('0' <= c && c <= '9'),
        c != '.',
    ensures
        suffixed_amount(a + seq![c] + b, suffix) == suffixed_amount(a + b, suffix),
        suffixed_amount(a, 'k') == suffixed_amount(a, 'K'),
        suffixed_amount(a, 'm') == suffixed_amount(a, 'M'),
{
    lemma_noise(a, c, b);
}

/// Digits behind a number move it by as many places.
proof fn lemma_extended_bounds(x: nat, g: Seq<char>)
    requires
        only_digits(g),
    ensures
        x * pow10(g.len()) <= extended(x, g) < (x + 1) * pow10(g.len()),
        (forall|i: int| 0 <= i < g.len() ==> #[trigger] g[i] == '0') ==> extended(x, g) == x
            * pow10(g.len()),
    decreases g.len(),
{
    if g.len() == 0 {
        assert(x * 1 == x && (x + 1) * 1 == x + 1);
    } else {
        let h = g.drop_last();
        assert forall|i: int| 0 <= i < h.len() implies is_digit(#[trigger] h[i]) by {
            assert(is_digit(g[i]));
        }
        lemma_extended_bounds(x, h);
        assert(is_digit(g[g.len() - 1]));
        let t = pow10(h.len()) as int;
        let e = extended(x, h) as int;
        let d = digit_value(g.last()) as int;
        assert(x * (10 * t) <= 10 * e + d < (x + 1) * (10 * t)) by (nonlinear_arith)
            requires
                x * t <= e < (x + 1) * t,
                0 <= d <= 9,
        ;
        if forall|i: int| 0 <= i < g.len() ==> #[trigger] g[i] == '0' {
            assert(g[g.len() - 1] == '0');
            assert(forall|i: int| 0 <= i < h.len() ==> #[trigger] h[i] == g[i]);
            assert(10 * (x * t) == x * (10 * t)) by (nonlinear_arith);
        }
    }
}

/// The digits up to `n` places behind the point make the whole part of the product.
proof fn lemma_whole_part(whole: Seq<char>, fraction: Seq<char>, n: nat)
    requires
        only_digits(whole),
        only_digits(fraction),
    ensures
        ({
            let base = digits_value(whole + padded(fraction, n));
            let product = digits_value(whole + fraction) * pow10(n);
            base * pow10(fraction.len()) <= product < (base + 1) * pow10(fraction.len())
        }),
{
    let l = fraction.len();
    let base = digits_value(whole + padded(fraction, n));
    let value = digits_value(whole + fraction);
    if n <= l {
        let first = fraction.take(n as int);
        let rest = fraction.skip(n as int);
        assert(padded(fraction, n) =~= first);
        assert(whole + fraction =~= whole + first + rest);
        lemma_extended(whole + first, rest);
        assert forall|i: int| 0 <= i < rest.len() implies is_digit(#[trigger] rest[i]) by {
            assert(is_digit(fraction[i + n]));
        }
        lemma_extended_bounds(base, rest);
        lemma_pow10_adds((l - n) as nat, n);
        lemma_pow10_pos(n);
        let t = pow10((l - n) as nat) as int;
        let u = pow10(n) as int;
        let b = base as int;
        let v = value as int;
        assert(b * (t * u) <= v * u < (b + 1) * (t * u)) by (nonlinear_arith)
            requires
                b * t <= v < (b + 1) * t,
                u > 0,
        ;
    } else {
        let zeros = Seq::new((n - l) as nat, |i: int| '0');
        assert(whole + padded(fraction, n) =~= whole + fraction + zeros);
        lemma_extended(whole + fraction, zeros);
        assert(only_digits(zeros));
        lemma_extended_bounds(value, zeros);
        lemma_pow10_adds((n - l) as nat, l);
        lemma_pow10_pos(l);
        let t = pow10((n - l) as nat) as int;
        let u = pow10(l) as int;
        let v = value as int;
        assert((v * t) * u == v * (t * u)) by (nonlinear_arith);
        assert((v * t) * u < (v * t + 1) * u) by (nonlinear_arith)
            requires
                u > 0,
        ;
    }
}

/// A number with a magnitude suffix is a thousand or a million times what its digits say,
/// in whole numbers: one away from the product at the most. It has one point at the most.
pub proof fn law_suffix_multiplies(num: Seq<char>, suffix: char)
    ensures
        match suffixed_amount(num, suffix) {
            Some(value) => {
                let digits = digits_value(whole_digits(num) + fraction_digits(num));
                let unit = pow10(fraction_digits(num).len());
                let factor: nat = if suffix == 'k' || suffix == 'K' {
                    1_000
                } else if suffix == 'm' || suffix == 'M' {
                    1_000_000
                } else {
                    1
                };
                &&& points(num) <= 1
                &&& (value - 1) * unit <= digits * factor < (value + 1) * unit
            },
            None => true,
        },
        points(num) > 1 ==> suffixed_amount(num, suffix) is None,
{
    let whole = whole_digits(num);
    let fraction = fraction_digits(num);
    let n = places(suffix);
    lemma_digit_parts(num);
    lemma_whole_part(whole, fraction, n);
    reveal_with_fuel(pow10, 7);
    assert(pow10(3) == 1_000 && pow10(6) == 1_000_000 && pow10(0) == 1);
    lemma_pow10_pos(fraction.len());
    if let Some(value) = suffixed_amount(num, suffix) {
        let base = digits_value(whole + padded(fraction, n)) as int;
        let unit = pow10(fraction.len()) as int;
        let product = digits_value(whole + fraction) * pow10(n);
        let v = value as int;
        assert(v == base || v == base + 1);
        assert((v - 1) * unit <= product < (v + 1) * unit) by (nonlinear_arith)
            requires
                base * unit <= product < (base + 1) * unit,
                v == base || v == base + 1,
                unit > 0,
        ;
    }
}

/// A price counts for nothing in the quantity: texts that are the same but for their
/// prices have the same quantity.
pub proof fn law_prices_are_no_quantities(text: Seq<char>, other: Seq<char>)
    requires
        regex_replaced(PRICE@, text, " "@) == regex_replaced(PRICE@, other, " "@),
    ensures
        quantity_in(text) == quantity_in(other),
{
}

/// The first price counts: where the first match is in range it is the price, and where it
/// is not, the price is the one of what follows the match.
pub proof fn law_first_price_counts(text: Seq<char>, groups: Seq<Option<Seq<char>>>)
    requires
        regex_groups(PRICE@, text) == Some(groups),
        group_at(groups, 0) is Some,
        group_at(groups, 0)->0.len() > 0,
        occurs(text, group_at(groups, 0)->0),
    ensures
        match price_of(groups) {
            Some(price) => price_in(text) == Some(price) && price.matched == trim(
                group_at(groups, 0)->0,
            ),
            None => forall|at: int| #[trigger]
                first_occurs_at(text, group_at(groups, 0)->0, at) ==> price_in(text) == price_in(
                    text.skip(at + group_at(groups, 0)->0.len()),
                ),
        },
{
    let found = group_at(groups, 0)->0;
    if price_of(groups) is None {
        assert forall|at: int| #[trigger] first_occurs_at(text, found, at) implies price_in(text)
            == price_in(text.skip(at + found.len())) by {
            lemma_position_of(text, found, at);
        }
    }
}

} // verus!
