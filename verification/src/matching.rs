//! Fuzzy matching of noisy text against known names: a plain similarity ratio
//! combined with a token-sorted ratio, on a scale of 0 to 100.

use vstd::multiset::Multiset;
use vstd::arithmetic::power2::{
    lemma2_to64, lemma2_to64_rest, lemma_pow2_strictly_increases, lemma_pow2_unfold, pow2,
};
use vstd::prelude::*;
use vstd::relations::*;
use vstd::seq_lib::{lemma_sorted_unique, to_multiset_build, to_multiset_insert};

use crate::double::{is_double, is_product, rounded_even};
use crate::text::{
    blank, chars_of, join_words, joined, split_words, string_of, texts, to_upper, trim,
    trimmed, upper, words,
};

verus! {

/// The least number of insertions, deletions and substitutions of single
/// characters that turn `a` into `b`.
pub open spec fn edit_distance(a: Seq<char>, b: Seq<char>) -> nat
    decreases a.len() + b.len(),
{
    if a.len() == 0 {
        b.len()
    } else if b.len() == 0 {
        a.len()
    } else {
        let delete = edit_distance(a.drop_last(), b) + 1;
        let insert = edit_distance(a, b.drop_last()) + 1;
        let replace = edit_distance(a.drop_last(), b.drop_last()) + if a.last() == b.last() {
            0nat
        } else {
            1nat
        };
        least(least(delete, insert), replace)
    }
}

pub open spec fn least(a: nat, b: nat) -> nat {
    if a <= b {
        a
    } else {
        b
    }
}

pub open spec fn larger(a: int, b: int) -> int {
    if a >= b {
        a
    } else {
        b
    }
}

/// `strsim::levenshtein`: the least number of insertions, deletions and
/// substitutions of characters that change `a` into `b`.
#[verifier::external_body]
fn levenshtein(a: &str, b: &str) -> (distance: usize)
    ensures
        distance == edit_distance(a@, b@),
{
    strsim::levenshtein(a, b)
}

/// Changing a text into itself takes nothing.
pub proof fn lemma_distance_to_self(a: Seq<char>)
    ensures
        edit_distance(a, a) == 0,
    decreases a.len(),
{
    if a.len() > 0 {
        lemma_distance_to_self(a.drop_last());
    }
}

/// The way back is as long as the way there.
pub proof fn lemma_distance_symmetric(a: Seq<char>, b: Seq<char>)
    ensures
        edit_distance(a, b) == edit_distance(b, a),
    decreases a.len() + b.len(),
{
    if a.len() > 0 && b.len() > 0 {
        lemma_distance_symmetric(a.drop_last(), b);
        lemma_distance_symmetric(a, b.drop_last());
        lemma_distance_symmetric(a.drop_last(), b.drop_last());
    }
}

/// No more changes are needed than the longer text has characters.
pub proof fn lemma_distance_bounded(a: Seq<char>, b: Seq<char>)
    ensures
        edit_distance(a, b) <= larger(a.len() as int, b.len() as int),
    decreases a.len() + b.len(),
{
    if a.len() > 0 && b.len() > 0 {
        lemma_distance_bounded(a.drop_last(), b.drop_last());
    }
}

/// The percentages that an exact half below them is rounded down from: in
/// double precision the quotient falls just short of the half.
pub open spec fn falls_short(percentage: int) -> bool {
    ||| 7 <= percentage <= 11
    ||| 20 <= percentage <= 23
    ||| 32 <= percentage <= 33
    ||| 45 <= percentage <= 46
    ||| 54 <= percentage <= 58
}

/// How much of `length` characters `distance` changes leave as they are, in per
/// cent, rounded to the nearest whole number and up where two are as near
/// (except for those that fall short).
pub open spec fn percentage(distance: int, length: int) -> int {
    let doubled = 200 * (length - distance);
    let nearest = (doubled + length) / (2 * length);
    if doubled % length == 0 && (doubled / length) % 2 == 1 && falls_short(nearest) {
        nearest - 1
    } else {
        nearest
    }
}

proof fn lemma_percentage_range(distance: int, length: int)
    requires
        0 <= distance <= length,
        0 < length,
    ensures
        0 <= percentage(distance, length) <= 100,
        distance == 0 ==> percentage(distance, length) == 100,
{
    let doubled = 200 * (length - distance);
    let nearest = (doubled + length) / (2 * length);
    assert(0 <= nearest <= 100) by (nonlinear_arith)
        requires
            0 <= doubled <= 200 * length,
            0 < length,
            nearest == (doubled + length) / (2 * length),
    ;
    if distance == 0 {
        assert(nearest == 100) by (nonlinear_arith)
            requires
                doubled == 200 * length,
                0 < length,
                nearest == (doubled + length) / (2 * length),
        ;
    }
}

/// The percentage as an integer.
fn percent(distance: usize, length: usize) -> (p: u8)
    requires
        distance <= length,
        0 < length,
    ensures
        p == percentage(distance as int, length as int),
{
    proof {
        lemma_percentage_range(distance as int, length as int);
    }
    let length: u128 = length as u128;
    let doubled: u128 = 200 * (length - distance as u128);
    let nearest: u128 = (doubled + length) / (2 * length);
    let half = doubled % length == 0 && (doubled / length) % 2 == 1;
    if half && ((7 <= nearest && nearest <= 11) || (20 <= nearest && nearest <= 23) || (32
        <= nearest && nearest <= 33) || (45 <= nearest && nearest <= 46) || (54 <= nearest
        && nearest <= 58)) {
        (nearest - 1) as u8
    } else {
        nearest as u8
    }
}

/// `s` without surrounding white space and in upper case.
pub open spec fn normalized(s: Seq<char>) -> Seq<char> {
    upper(trim(s))
}

/// How alike `a` and `b` are after normalization, in per cent.
pub open spec fn ratio_of(a: Seq<char>, b: Seq<char>) -> int {
    let (a, b) = (normalized(a), normalized(b));
    if a.len() == 0 && b.len() == 0 {
        100
    } else {
        percentage(edit_distance(a, b) as int, larger(a.len() as int, b.len() as int))
    }
}

fn normalize(v: &Vec<char>) -> (r: Vec<char>)
    ensures
        r@ == normalized(v@),
{
    to_upper(&trimmed(v))
}

fn ratio(a: &Vec<char>, b: &Vec<char>) -> (r: u8)
    ensures
        r == ratio_of(a@, b@),
        r <= 100,
{
    let a = normalize(a);
    let b = normalize(b);
    if a.len() == 0 && b.len() == 0 {
        return 100;
    }
    let length: usize = if a.len() >= b.len() {
        a.len()
    } else {
        b.len()
    };
    let distance: usize = levenshtein(string_of(&a).as_str(), string_of(&b).as_str());
    proof {
        lemma_distance_bounded(a@, b@);
        lemma_percentage_range(distance as int, length as int);
    }
    percent(distance, length)
}

/// Dictionary order by code points.
pub open spec fn text_leq(a: Seq<char>, b: Seq<char>) -> bool
    decreases a.len(),
{
    if a.len() == 0 {
        true
    } else if b.len() == 0 {
        false
    } else if a[0] == b[0] {
        text_leq(a.drop_first(), b.drop_first())
    } else {
        a[0] < b[0]
    }
}

proof fn lemma_leq_reflexive(a: Seq<char>)
    ensures
        text_leq(a, a),
    decreases a.len(),
{
    if a.len() > 0 {
        lemma_leq_reflexive(a.drop_first());
    }
}

/// The dictionary order is antisymmetric.
pub proof fn lemma_leq_antisymmetric(a: Seq<char>, b: Seq<char>)
    requires
        text_leq(a, b),
        text_leq(b, a),
    ensures
        a == b,
    decreases a.len(),
{
    if a.len() > 0 && b.len() > 0 {
        lemma_leq_antisymmetric(a.drop_first(), b.drop_first());
        assert(a == seq![a[0]] + a.drop_first());
        assert(b == seq![b[0]] + b.drop_first());
    } else {
        assert(a =~= b);
    }
}

/// The dictionary order is transitive.
pub proof fn lemma_leq_transitive(a: Seq<char>, b: Seq<char>, c: Seq<char>)
    requires
        text_leq(a, b),
        text_leq(b, c),
    ensures
        text_leq(a, c),
    decreases a.len(),
{
    if a.len() > 0 && b.len() > 0 && c.len() > 0 && a[0] == b[0] && b[0] == c[0] {
        lemma_leq_transitive(a.drop_first(), b.drop_first(), c.drop_first());
    }
}

/// The dictionary order is total.
pub proof fn lemma_leq_connected(a: Seq<char>, b: Seq<char>)
    ensures
        text_leq(a, b) || text_leq(b, a),
    decreases a.len(),
{
    if a.len() > 0 && b.len() > 0 && a[0] == b[0] {
        lemma_leq_connected(a.drop_first(), b.drop_first());
    }
}

/// The dictionary order as a relation.
pub open spec fn dictionary() -> spec_fn(Seq<char>, Seq<char>) -> bool {
    |a: Seq<char>, b: Seq<char>| text_leq(a, b)
}

proof fn lemma_dictionary_total()
    ensures
        total_ordering(dictionary()),
{
    let leq = dictionary();
    assert forall|a: Seq<char>| #[trigger] leq(a, a) by {
        lemma_leq_reflexive(a);
    }
    assert forall|a: Seq<char>, b: Seq<char>| #[trigger] leq(a, b) && #[trigger] leq(b, a) implies a
        == b by {
        lemma_leq_antisymmetric(a, b);
    }
    assert forall|a: Seq<char>, b: Seq<char>, c: Seq<char>| #[trigger]
        leq(a, b) && #[trigger] leq(b, c) implies leq(a, c) by {
        lemma_leq_transitive(a, b, c);
    }
    assert forall|a: Seq<char>, b: Seq<char>| #[trigger] leq(a, b) || #[trigger] leq(b, a) by {
        lemma_leq_connected(a, b);
    }
}

/// Whether `a` comes before `b` in dictionary order, or is the same.
pub fn comes_first(a: &Vec<char>, b: &Vec<char>) -> (r: bool)
    ensures
        r == text_leq(a@, b@),
{
    let mut i: usize = 0;
    assert(a@.skip(0) == a@ && b@.skip(0) == b@);
    while i < a.len() && i < b.len() && a[i] == b[i]
        invariant
            i <= a.len(),
            i <= b.len(),
            text_leq(a@, b@) == text_leq(a@.skip(i as int), b@.skip(i as int)),
        decreases a.len() - i,
    {
        assert(a@.skip(i as int).drop_first() == a@.skip(i + 1));
        assert(b@.skip(i as int).drop_first() == b@.skip(i + 1));
        i += 1;
    }
    if i == a.len() {
        true
    } else if i == b.len() {
        false
    } else {
        a[i] < b[i]
    }
}

/// The words of `s` in upper case and dictionary order, with one blank between each
/// two.
pub open spec fn token_sorted(s: Seq<char>) -> Seq<char> {
    joined(words(upper(s)).sort_by(dictionary()), blank())
}

proof fn lemma_empty_multiset(s: Seq<Seq<char>>)
    requires
        s.len() == 0,
    ensures
        s.to_multiset() == Multiset::<Seq<char>>::empty(),
{
    broadcast use vstd::seq_lib::group_to_multiset_ensures;

    assert forall|x: Seq<char>| s.to_multiset().count(x) == 0 by {
        assert(!s.contains(x));
    }
    assert(s.to_multiset() =~= Multiset::empty());
}

/// Sorts texts into dictionary order.
fn sort_texts(v: Vec<Vec<char>>) -> (r: Vec<Vec<char>>)
    ensures
        texts(r@) == texts(v@).sort_by(dictionary()),
{
    let mut v = v;
    let ghost original = texts(v@);
    let mut r: Vec<Vec<char>> = Vec::new();
    proof {
        lemma_dictionary_total();
        lemma_empty_multiset(texts(r@));
        assert(texts(r@).to_multiset().add(original.to_multiset()) =~= original.to_multiset());
    }
    while v.len() > 0
        invariant
            total_ordering(dictionary()),
            sorted_by(texts(r@), dictionary()),
            texts(r@).to_multiset().add(texts(v@).to_multiset()) == original.to_multiset(),
        decreases v.len(),
    {
        let ghost v0 = texts(v@);
        let ghost r0 = texts(r@);
        let item = v.pop().unwrap();
        let mut at: usize = r.len();
        while at > 0 && !comes_first(&r[at - 1], &item)
            invariant
                at <= r.len(),
                r0 == texts(r@),
                total_ordering(dictionary()),
                sorted_by(r0, dictionary()),
                forall|b: int| at <= b < r0.len() ==> dictionary()(item@, #[trigger] r0[b]),
            decreases at,
        {
            proof {
                lemma_leq_connected(r0[at - 1], item@);
            }
            at -= 1;
        }
        let ghost key = item@;
        r.insert(at, item);
        proof {
            let r1 = texts(r@);
            assert(r1 =~= r0.insert(at as int, key));
            assert(v0 =~= texts(v@).push(key));
            to_multiset_insert(r0, at as int, key);
            to_multiset_build(texts(v@), key);
            assert(r1.to_multiset().add(texts(v@).to_multiset()) =~= r0.to_multiset().add(
                v0.to_multiset(),
            ));
            assert forall|a: int, b: int| 0 <= a < b < r1.len() implies #[trigger] dictionary()(
                r1[a],
                r1[b],
            ) by {
                if b == at {
                    if a < at - 1 {
                        assert(dictionary()(r0[a], r0[at - 1]));
                        assert(dictionary()(r0[at - 1], key));
                    }
                } else if a == at {
                    assert(r1[b] == r0[b - 1]);
                } else {
                    let a0 = if a < at { a } else { a - 1 };
                    let b0 = if b < at { b } else { b - 1 };
                    assert(dictionary()(r0[a0], r0[b0]));
                }
            }
        }
    }
    proof {
        lemma_empty_multiset(texts(v@));
        assert(texts(r@).to_multiset() =~= original.to_multiset());
        original.lemma_sort_by_ensures(dictionary());
        lemma_sorted_unique(texts(r@), original.sort_by(dictionary()), dictionary());
    }
    r
}

fn token_sort(v: &Vec<char>) -> (r: Vec<char>)
    ensures
        r@ == token_sorted(v@),
{
    join_words(&sort_texts(split_words(&to_upper(v))))
}

/// How alike `query` and `candidate` are, from 0 to 100: the better of the plain
/// ratio and of the ratio of their sorted words.
pub open spec fn score_of(query: Seq<char>, candidate: Seq<char>) -> int {
    larger(ratio_of(query, candidate), ratio_of(token_sorted(query), token_sorted(candidate)))
}

/// Combined 0-100 similarity score between a query and a candidate.
pub fn score(query: &str, candidate: &str) -> (s: u8)
    ensures
        s == score_of(query@, candidate@),
        s <= 100,
{
    let query = chars_of(query);
    let candidate = chars_of(candidate);
    let plain = ratio(&query, &candidate);
    let sorted = ratio(&token_sort(&query), &token_sort(&candidate));
    if plain >= sorted {
        plain
    } else {
        sorted
    }
}

/// The scores of all candidates.
pub open spec fn scores_of(query: Seq<char>, candidates: Seq<Seq<char>>) -> Seq<int> {
    Seq::new(candidates.len(), |i: int| score_of(query, candidates[i]))
}

/// `i` is the first position of the largest score.
pub open spec fn first_best(scores: Seq<int>, i: int) -> bool {
    &&& 0 <= i < scores.len()
    &&& forall|j: int| 0 <= j < scores.len() ==> #[trigger] scores[j] <= scores[i]
    &&& forall|j: int| 0 <= j < i ==> #[trigger] scores[j] < scores[i]
}

/// The first position of the largest score; there is none in an empty list.
pub open spec fn best_position(scores: Seq<int>) -> int {
    choose|i: int| first_best(scores, i)
}

/// There is only one first position of the largest score.
pub proof fn lemma_best_position(scores: Seq<int>, i: int)
    requires
        first_best(scores, i),
    ensures
        best_position(scores) == i,
{
    let k = best_position(scores);
    assert(first_best(scores, k));
    if k < i {
        assert(scores[k] < scores[i]);
        assert(scores[i] <= scores[k]);
    }
    if i < k {
        assert(scores[i] < scores[k]);
        assert(scores[k] <= scores[i]);
    }
}

/// Where there is a score, there is a first position of the largest one.
pub proof fn lemma_best_exists(scores: Seq<int>)
    requires
        scores.len() > 0,
    ensures
        first_best(scores, best_position(scores)),
    decreases scores.len(),
{
    let shorter = scores.drop_last();
    if shorter.len() == 0 {
        assert(first_best(scores, 0));
    } else {
        lemma_best_exists(shorter);
        let i = best_position(shorter);
        assert(forall|j: int| 0 <= j < shorter.len() ==> #[trigger] scores[j] == shorter[j]);
        if scores.last() > scores[i] {
            assert(first_best(scores, scores.len() - 1));
        } else {
            assert(first_best(scores, i));
        }
    }
}

/// The characters of each name.
pub open spec fn names_of(v: Seq<&str>) -> Seq<Seq<char>> {
    Seq::new(v.len(), |i: int| v[i]@)
}

/// Picks the best-scoring candidate for `query`: its position and its score, or
/// `None` if there is no candidate. Among equally good ones the first wins.
pub fn best(query: &str, candidates: &Vec<&str>) -> (r: Option<(usize, u8)>)
    ensures
        match r {
            Some((i, s)) => {
                let scores = scores_of(query@, names_of(candidates@));
                &&& first_best(scores, i as int)
                &&& i == best_position(scores)
                &&& s == scores[i as int]
                &&& s <= 100
            },
            None => candidates@.len() == 0,
        },
{
    let ghost scores = scores_of(query@, names_of(candidates@));
    if candidates.len() == 0 {
        return None;
    }
    let mut at: usize = 0;
    let mut top: u8 = score(query, candidates[0]);
    let mut i: usize = 1;
    while i < candidates.len()
        invariant
            1 <= i <= candidates.len(),
            scores == scores_of(query@, names_of(candidates@)),
            top == scores[at as int],
            top <= 100,
            at < i,
            forall|j: int| 0 <= j < i ==> #[trigger] scores[j] <= top,
            forall|j: int| 0 <= j < at ==> #[trigger] scores[j] < top,
        decreases candidates.len() - i,
    {
        let s = score(query, candidates[i]);
        assert(s == scores[i as int]);
        if s > top {
            at = i;
            top = s;
        }
        i += 1;
    }
    proof {
        lemma_best_position(scores, at as int);
    }
    Some((at, top))
}

/// Texts that agree but for case and surrounding white space score 100.
pub proof fn law_exact_match_scores_100(a: Seq<char>, b: Seq<char>)
    requires
        normalized(a) == normalized(b),
    ensures
        score_of(a, b) == 100,
{
    lemma_score_range(a, b);
    lemma_same_ratio(a, b);
}

/// Texts with the same words score 100, whatever the order of the words, their case
/// and the space between them.
pub proof fn law_word_order_is_ignored(a: Seq<char>, b: Seq<char>)
    requires
        words(upper(a)).to_multiset() == words(upper(b)).to_multiset(),
    ensures
        score_of(a, b) == 100,
{
    lemma_dictionary_total();
    let x = words(upper(a)).sort_by(dictionary());
    let y = words(upper(b)).sort_by(dictionary());
    words(upper(a)).lemma_sort_by_ensures(dictionary());
    words(upper(b)).lemma_sort_by_ensures(dictionary());
    lemma_sorted_unique(x, y, dictionary());
    lemma_score_range(a, b);
    lemma_same_ratio(token_sorted(a), token_sorted(b));
}

/// Query and candidate can be exchanged.
pub proof fn law_score_is_symmetric(a: Seq<char>, b: Seq<char>)
    ensures
        score_of(a, b) == score_of(b, a),
{
    lemma_distance_symmetric(normalized(a), normalized(b));
    lemma_distance_symmetric(normalized(token_sorted(a)), normalized(token_sorted(b)));
}

proof fn lemma_same_ratio(a: Seq<char>, b: Seq<char>)
    requires
        normalized(a) == normalized(b),
    ensures
        ratio_of(a, b) == 100,
{
    let n = normalized(a);
    lemma_distance_to_self(n);
    if n.len() > 0 {
        lemma_percentage_range(0, n.len() as int);
    }
}

proof fn lemma_ratio_range(a: Seq<char>, b: Seq<char>)
    ensures
        0 <= ratio_of(a, b) <= 100,
{
    let (a, b) = (normalized(a), normalized(b));
    lemma_distance_bounded(a, b);
    if a.len() > 0 || b.len() > 0 {
        lemma_percentage_range(
            edit_distance(a, b) as int,
            larger(a.len() as int, b.len() as int),
        );
    }
}

/// Every score lies between 0 and 100.
pub proof fn lemma_score_range(a: Seq<char>, b: Seq<char>)
    ensures
        0 <= score_of(a, b) <= 100,
{
    lemma_ratio_range(a, b);
    lemma_ratio_range(token_sorted(a), token_sorted(b));
}

/// A ratio is the share of characters that no edit changes, in per cent: it is as near to
/// it as any whole number.
pub proof fn law_ratio_is_the_nearest_percentage(a: Seq<char>, b: Seq<char>)
    ensures
        ({
            let x = upper(trim(a));
            let y = upper(trim(b));
            let length = if x.len() >= y.len() {
                x.len() as int
            } else {
                y.len() as int
            };
            let same = length - edit_distance(x, y);
            &&& length == 0 ==> ratio_of(a, b) == 100
            &&& length > 0 ==> 200 * same - length <= 2 * ratio_of(a, b) * length <= 200 * same
                + length
        }),
{
    let x = normalized(a);
    let y = normalized(b);
    let length = larger(x.len() as int, y.len() as int);
    if length > 0 {
        lemma_distance_bounded(x, y);
        let same = length - edit_distance(x, y);
        let doubled = 200 * same;
        let nearest = (doubled + length) / (2 * length);
        assert(2 * nearest * length <= doubled + length < 2 * nearest * length + 2 * length)
            by (nonlinear_arith)
            requires
                length > 0,
                nearest == (doubled + length) / (2 * length),
                doubled >= 0,
        ;
        let r = ratio_of(a, b);
        if r == nearest - 1 {
            let q = doubled / length;
            assert(doubled == q * length) by (nonlinear_arith)
                requires
                    doubled % length == 0,
                    length > 0,
                    q == doubled / length,
            ;
            assert(q % 2 == 1);
            assert(2 * nearest == q + 1) by (nonlinear_arith)
                requires
                    doubled == q * length,
                    length > 0,
                    q % 2 == 1,
                    2 * nearest * length <= doubled + length < 2 * nearest * length + 2 * length,
            ;
            assert(2 * (nearest - 1) * length == doubled - length) by (nonlinear_arith)
                requires
                    2 * nearest == q + 1,
                    doubled == q * length,
            ;
        }
    }
}

/// A score is the larger of the ratio as it is and the ratio with the words in order.
pub proof fn law_score_is_the_better_ratio(a: Seq<char>, b: Seq<char>)
    ensures
        score_of(a, b) >= ratio_of(a, b),
        score_of(a, b) >= ratio_of(token_sorted(a), token_sorted(b)),
        score_of(a, b) == ratio_of(a, b) || score_of(a, b) == ratio_of(
            token_sorted(a),
            token_sorted(b),
        ),
{
}

/// Whether half a per cent below `p` comes out below the half, where `first`, `second` and
/// `third` are the units of the three results in double precision: of the share of edits,
/// of what that leaves of one, and of this in per cent.
spec fn comes_short(p: nat, first: nat, second: nat, third: nat) -> bool {
    let edits = rounded_even(((201 - 2 * p) * first) as nat, 200);
    let rest = rounded_even(((first - edits) * second) as nat, first);
    let percents = rounded_even(100 * rest, third);
    2 * percents * third < (2 * p - 1) * second
}

/// The units are those with which the three results have 53 binary digits.
spec fn has_units(p: nat, first: nat, second: nat, third: nat) -> bool {
    let edits = rounded_even(((201 - 2 * p) * first) as nat, 200);
    let rest = rounded_even(((first - edits) * second) as nat, first);
    &&& 0x10_0000_0000_0000 * 200 <= (201 - 2 * p) * first < 0x20_0000_0000_0000 * 200
    &&& 0x10_0000_0000_0000 * first <= (first - edits) * second < 0x20_0000_0000_0000 * first
    &&& 0x10_0000_0000_0000 * third <= 100 * rest < 0x20_0000_0000_0000 * third
}

/// The unit of the share of edits.
spec fn edits_unit(p: nat) -> nat {
    if p <= 50 {
        0x20_0000_0000_0000
    } else if p <= 75 {
        0x40_0000_0000_0000
    } else if p <= 88 {
        0x80_0000_0000_0000
    } else if p <= 94 {
        0x100_0000_0000_0000
    } else if p <= 97 {
        0x200_0000_0000_0000
    } else if p <= 98 {
        0x400_0000_0000_0000
    } else if p <= 99 {
        0x800_0000_0000_0000
    } else {
        0x1000_0000_0000_0000
    }
}

/// The unit of what is left of one.
spec fn rest_unit(p: nat) -> nat {
    if p >= 51 {
        0x20_0000_0000_0000
    } else if p >= 26 {
        0x40_0000_0000_0000
    } else if p >= 13 {
        0x80_0000_0000_0000
    } else if p >= 7 {
        0x100_0000_0000_0000
    } else if p >= 4 {
        0x200_0000_0000_0000
    } else if p >= 3 {
        0x400_0000_0000_0000
    } else if p >= 2 {
        0x800_0000_0000_0000
    } else {
        0x1000_0000_0000_0000
    }
}

/// The unit of the result in per cent.
spec fn percents_unit(p: nat) -> nat {
    if 26 <= p <= 32 || 13 <= p <= 16 || 7 <= p <= 8 || p == 4 || 51 <= p <= 64 {
        64
    } else {
        128
    }
}

/// `e` is the whole number next to `x / q`, and the even one of two.
spec fn is_nearest(x: int, q: int, e: int) -> bool {
    let d = 2 * (q * e - x);
    -q <= d <= q && (d == q || d == -q ==> e % 2 == 0)
}

proof fn lemma_nearest(x: nat, q: nat, e: nat)
    requires
        q > 0,
        is_nearest(x as int, q as int, e as int),
    ensures
        rounded_even(x, q) == e,
{
    let w = x as int / q as int;
    let r = x as int % q as int;
    assert(x == q * w + r && 0 <= r < q) by (nonlinear_arith)
        requires
            q > 0,
            w == x as int / q as int,
            r == x as int % q as int,
    ;
    let d = 2 * (q * e - x);
    assert(e == w || e == w + 1) by (nonlinear_arith)
        requires
            x == q * w + r,
            0 <= r < q,
            q > 0,
            d == 2 * (q * e - x),
            -q <= d <= q,
    ;
    if e == w {
        assert(d == -2 * r) by (nonlinear_arith)
            requires
                e == w,
                x == q * w + r,
                d == 2 * (q * e - x),
        ;
    } else {
        assert(d == 2 * q - 2 * r) by (nonlinear_arith)
            requires
                e == w + 1,
                x == q * w + r,
                d == 2 * (q * e - x),
        ;
    }
}

/// The three results, given.
proof fn lemma_half(p: nat, edits: nat, rest: nat, percents: nat)
    requires
        1 <= p <= 100,
        ({
            let first = edits_unit(p) as int;
            let second = rest_unit(p) as int;
            let third = percents_unit(p) as int;
            &&& is_nearest((201 - 2 * p) * first, 200, edits as int)
            &&& edits <= first
            &&& is_nearest((first - edits) * second, first, rest as int)
            &&& is_nearest(100 * rest as int, third, percents as int)
            &&& 0x10_0000_0000_0000 * 200 <= (201 - 2 * p) * first < 0x20_0000_0000_0000 * 200
            &&& 0x10_0000_0000_0000 * first <= (first - edits) * second < 0x20_0000_0000_0000
                * first
            &&& 0x10_0000_0000_0000 * third <= 100 * rest < 0x20_0000_0000_0000 * third
            &&& falls_short(p as int) <==> 2 * percents * third < (2 * p - 1) * second
        }),
    ensures
        has_units(p, edits_unit(p), rest_unit(p), percents_unit(p)),
        comes_short(p, edits_unit(p), rest_unit(p), percents_unit(p)) == falls_short(p as int),
{
    let first = edits_unit(p);
    let second = rest_unit(p);
    let third = percents_unit(p);
    assert((201 - 2 * p) * first >= 0);
    lemma_nearest(((201 - 2 * p) * first) as nat, 200, edits);
    assert((first - edits) * second >= 0);
    lemma_nearest(((first - edits) * second) as nat, first, rest);
    lemma_nearest(100 * rest, third, percents);
}

/// The results from 1 to 10 per cent.
proof fn lemma_halves_to_10(p: nat)
    requires
        1 <= p <= 10,
    ensures
        has_units(p, edits_unit(p), rest_unit(p), percents_unit(p)),
        comes_short(p, edits_unit(p), rest_unit(p), percents_unit(p)) == falls_short(p as int),
{
    if p == 1 {
        lemma_half(1, 0x1f_d70a_3d70_a3d7, 0x14_7ae1_47ae_1480, 0x10_0000_0000_0004);
    } else if p == 2 {
        lemma_half(2, 0x1f_851e_b851_eb85, 0x1e_b851_eb85_1ec0, 0x18_0000_0000_0006);
    } else if p == 3 {
        lemma_half(3, 0x1f_3333_3333_3333, 0x19_9999_9999_99a0, 0x14_0000_0000_0005);
    } else if p == 4 {
        lemma_half(4, 0x1e_e147_ae14_7ae1, 0x11_eb85_1eb8_51f0, 0x1c_0000_0000_0007);
    } else if p == 5 {
        lemma_half(5, 0x1e_8f5c_28f5_c28f, 0x17_0a3d_70a3_d710, 0x12_0000_0000_0004);
    } else if p == 6 {
        lemma_half(6, 0x1e_3d70_a3d7_0a3d, 0x1c_28f5_c28f_5c30, 0x16_0000_0000_0006);
    } else if p == 7 {
        lemma_half(7, 0x1d_eb85_1eb8_51ec, 0x10_a3d7_0a3d_70a0, 0x19_ffff_ffff_fffa);
    } else if p == 8 {
        lemma_half(8, 0x1d_9999_9999_999a, 0x13_3333_3333_3330, 0x1d_ffff_ffff_fffb);
    } else if p == 9 {
        lemma_half(9, 0x1d_47ae_147a_e148, 0x15_c28f_5c28_f5c0, 0x10_ffff_ffff_fffe);
    } else if p == 10 {
        lemma_half(10, 0x1c_f5c2_8f5c_28f6, 0x18_51eb_851e_b850, 0x12_ffff_ffff_fffe);
    }
}

/// The results from 11 to 20 per cent.
proof fn lemma_halves_to_20(p: nat)
    requires
        11 <= p <= 20,
    ensures
        has_units(p, edits_unit(p), rest_unit(p), percents_unit(p)),
        comes_short(p, edits_unit(p), rest_unit(p), percents_unit(p)) == falls_short(p as int),
{
    if p == 11 {
        lemma_half(11, 0x1c_a3d7_0a3d_70a4, 0x1a_e147_ae14_7ae0, 0x14_ffff_ffff_ffff);
    } else if p == 12 {
        lemma_half(12, 0x1c_51eb_851e_b852, 0x1d_70a3_d70a_3d70, 0x17_0000_0000_0000);
    } else if p == 13 {
        lemma_half(13, 0x1c_0000_0000_0000, 0x10_0000_0000_0000, 0x19_0000_0000_0000);
    } else if p == 14 {
        lemma_half(14, 0x1b_ae14_7ae1_47ae, 0x11_47ae_147a_e148, 0x1b_0000_0000_0000);
    } else if p == 15 {
        lemma_half(15, 0x1b_5c28_f5c2_8f5c, 0x12_8f5c_28f5_c290, 0x1d_0000_0000_0001);
    } else if p == 16 {
        lemma_half(16, 0x1b_0a3d_70a3_d70a, 0x13_d70a_3d70_a3d8, 0x1f_0000_0000_0002);
    } else if p == 17 {
        lemma_half(17, 0x1a_b851_eb85_1eb8, 0x15_1eb8_51eb_8520, 0x10_8000_0000_0001);
    } else if p == 18 {
        lemma_half(18, 0x1a_6666_6666_6666, 0x16_6666_6666_6668, 0x11_8000_0000_0001);
    } else if p == 19 {
        lemma_half(19, 0x1a_147a_e147_ae14, 0x17_ae14_7ae1_47b0, 0x12_8000_0000_0002);
    } else if p == 20 {
        lemma_half(20, 0x19_c28f_5c28_f5c3, 0x18_f5c2_8f5c_28f4, 0x13_7fff_ffff_ffff);
    }
}

/// The results from 21 to 30 per cent.
proof fn lemma_halves_to_30(p: nat)
    requires
        21 <= p <= 30,
    ensures
        has_units(p, edits_unit(p), rest_unit(p), percents_unit(p)),
        comes_short(p, edits_unit(p), rest_unit(p), percents_unit(p)) == falls_short(p as int),
{
    if p == 21 {
        lemma_half(21, 0x19_70a3_d70a_3d71, 0x1a_3d70_a3d7_0a3c, 0x14_7fff_ffff_ffff);
    } else if p == 22 {
        lemma_half(22, 0x19_1eb8_51eb_851f, 0x1b_851e_b851_eb84, 0x15_7fff_ffff_ffff);
    } else if p == 23 {
        lemma_half(23, 0x18_cccc_cccc_cccd, 0x1c_cccc_cccc_cccc, 0x16_7fff_ffff_ffff);
    } else if p == 24 {
        lemma_half(24, 0x18_7ae1_47ae_147b, 0x1e_147a_e147_ae14, 0x17_8000_0000_0000);
    } else if p == 25 {
        lemma_half(25, 0x18_28f5_c28f_5c29, 0x1f_5c28_f5c2_8f5c, 0x18_8000_0000_0000);
    } else if p == 26 {
        lemma_half(26, 0x17_d70a_3d70_a3d7, 0x10_51eb_851e_b852, 0x19_8000_0000_0000);
    } else if p == 27 {
        lemma_half(27, 0x17_851e_b851_eb85, 0x10_f5c2_8f5c_28f6, 0x1a_8000_0000_0000);
    } else if p == 28 {
        lemma_half(28, 0x17_3333_3333_3333, 0x11_9999_9999_999a, 0x1b_8000_0000_0001);
    } else if p == 29 {
        lemma_half(29, 0x16_e147_ae14_7ae1, 0x12_3d70_a3d7_0a3e, 0x1c_8000_0000_0001);
    } else if p == 30 {
        lemma_half(30, 0x16_8f5c_28f5_c28f, 0x12_e147_ae14_7ae2, 0x1d_8000_0000_0001);
    }
}

/// The results from 31 to 40 per cent.
proof fn lemma_halves_to_40(p: nat)
    requires
        31 <= p <= 40,
    ensures
        has_units(p, edits_unit(p), rest_unit(p), percents_unit(p)),
        comes_short(p, edits_unit(p), rest_unit(p), percents_unit(p)) == falls_short(p as int),
{
    if p == 31 {
        lemma_half(31, 0x16_3d70_a3d7_0a3d, 0x13_851e_b851_eb86, 0x1e_8000_0000_0001);
    } else if p == 32 {
        lemma_half(32, 0x15_eb85_1eb8_51ec, 0x14_28f5_c28f_5c28, 0x1f_7fff_ffff_fffe);
    } else if p == 33 {
        lemma_half(33, 0x15_9999_9999_999a, 0x14_cccc_cccc_cccc, 0x10_3fff_ffff_ffff);
    } else if p == 34 {
        lemma_half(34, 0x15_47ae_147a_e148, 0x15_70a3_d70a_3d70, 0x10_c000_0000_0000);
    } else if p == 35 {
        lemma_half(35, 0x14_f5c2_8f5c_28f6, 0x16_147a_e147_ae14, 0x11_4000_0000_0000);
    } else if p == 36 {
        lemma_half(36, 0x14_a3d7_0a3d_70a4, 0x16_b851_eb85_1eb8, 0x11_c000_0000_0000);
    } else if p == 37 {
        lemma_half(37, 0x14_51eb_851e_b852, 0x17_5c28_f5c2_8f5c, 0x12_4000_0000_0000);
    } else if p == 38 {
        lemma_half(38, 0x14_0000_0000_0000, 0x18_0000_0000_0000, 0x12_c000_0000_0000);
    } else if p == 39 {
        lemma_half(39, 0x13_ae14_7ae1_47ae, 0x18_a3d7_0a3d_70a4, 0x13_4000_0000_0000);
    } else if p == 40 {
        lemma_half(40, 0x13_5c28_f5c2_8f5c, 0x19_47ae_147a_e148, 0x13_c000_0000_0000);
    }
}

/// The results from 41 to 50 per cent.
proof fn lemma_halves_to_50(p: nat)
    requires
        41 <= p <= 50,
    ensures
        has_units(p, edits_unit(p), rest_unit(p), percents_unit(p)),
        comes_short(p, edits_unit(p), rest_unit(p), percents_unit(p)) == falls_short(p as int),
{
    if p == 41 {
        lemma_half(41, 0x13_0a3d_70a3_d70a, 0x19_eb85_1eb8_51ec, 0x14_4000_0000_0000);
    } else if p == 42 {
        lemma_half(42, 0x12_b851_eb85_1eb8, 0x1a_8f5c_28f5_c290, 0x14_c000_0000_0000);
    } else if p == 43 {
        lemma_half(43, 0x12_6666_6666_6666, 0x1b_3333_3333_3334, 0x15_4000_0000_0001);
    } else if p == 44 {
        lemma_half(44, 0x12_147a_e147_ae14, 0x1b_d70a_3d70_a3d8, 0x15_c000_0000_0001);
    } else if p == 45 {
        lemma_half(45, 0x11_c28f_5c28_f5c3, 0x1c_7ae1_47ae_147a, 0x16_3fff_ffff_ffff);
    } else if p == 46 {
        lemma_half(46, 0x11_70a3_d70a_3d71, 0x1d_1eb8_51eb_851e, 0x16_bfff_ffff_ffff);
    } else if p == 47 {
        lemma_half(47, 0x11_1eb8_51eb_851f, 0x1d_c28f_5c28_f5c2, 0x17_4000_0000_0000);
    } else if p == 48 {
        lemma_half(48, 0x10_cccc_cccc_cccd, 0x1e_6666_6666_6666, 0x17_c000_0000_0000);
    } else if p == 49 {
        lemma_half(49, 0x10_7ae1_47ae_147b, 0x1f_0a3d_70a3_d70a, 0x18_4000_0000_0000);
    } else if p == 50 {
        lemma_half(50, 0x10_28f5_c28f_5c29, 0x1f_ae14_7ae1_47ae, 0x18_c000_0000_0000);
    }
}

/// The results from 51 to 60 per cent.
proof fn lemma_halves_to_60(p: nat)
    requires
        51 <= p <= 60,
    ensures
        has_units(p, edits_unit(p), rest_unit(p), percents_unit(p)),
        comes_short(p, edits_unit(p), rest_unit(p), percents_unit(p)) == falls_short(p as int),
{
    if p == 51 {
        lemma_half(51, 0x1f_ae14_7ae1_47ae, 0x10_28f5_c28f_5c29, 0x19_4000_0000_0000);
    } else if p == 52 {
        lemma_half(52, 0x1f_0a3d_70a3_d70a, 0x10_7ae1_47ae_147b, 0x19_c000_0000_0000);
    } else if p == 53 {
        lemma_half(53, 0x1e_6666_6666_6666, 0x10_cccc_cccc_cccd, 0x1a_4000_0000_0000);
    } else if p == 54 {
        lemma_half(54, 0x1d_c28f_5c28_f5c3, 0x11_1eb8_51eb_851e, 0x1a_bfff_ffff_ffff);
    } else if p == 55 {
        lemma_half(55, 0x1d_1eb8_51eb_851f, 0x11_70a3_d70a_3d70, 0x1b_3fff_ffff_ffff);
    } else if p == 56 {
        lemma_half(56, 0x1c_7ae1_47ae_147b, 0x11_c28f_5c28_f5c2, 0x1b_bfff_ffff_ffff);
    } else if p == 57 {
        lemma_half(57, 0x1b_d70a_3d70_a3d7, 0x12_147a_e147_ae14, 0x1c_3fff_ffff_ffff);
    } else if p == 58 {
        lemma_half(58, 0x1b_3333_3333_3333, 0x12_6666_6666_6666, 0x1c_bfff_ffff_ffff);
    } else if p == 59 {
        lemma_half(59, 0x1a_8f5c_28f5_c28f, 0x12_b851_eb85_1eb8, 0x1d_4000_0000_0000);
    } else if p == 60 {
        lemma_half(60, 0x19_eb85_1eb8_51ec, 0x13_0a3d_70a3_d70a, 0x1d_c000_0000_0000);
    }
}

/// The results from 61 to 70 per cent.
proof fn lemma_halves_to_70(p: nat)
    requires
        61 <= p <= 70,
    ensures
        has_units(p, edits_unit(p), rest_unit(p), percents_unit(p)),
        comes_short(p, edits_unit(p), rest_unit(p), percents_unit(p)) == falls_short(p as int),
{
    if p == 61 {
        lemma_half(61, 0x19_47ae_147a_e148, 0x13_5c28_f5c2_8f5c, 0x1e_4000_0000_0000);
    } else if p == 62 {
        lemma_half(62, 0x18_a3d7_0a3d_70a4, 0x13_ae14_7ae1_47ae, 0x1e_c000_0000_0000);
    } else if p == 63 {
        lemma_half(63, 0x18_0000_0000_0000, 0x14_0000_0000_0000, 0x1f_4000_0000_0000);
    } else if p == 64 {
        lemma_half(64, 0x17_5c28_f5c2_8f5c, 0x14_51eb_851e_b852, 0x1f_c000_0000_0000);
    } else if p == 65 {
        lemma_half(65, 0x16_b851_eb85_1eb8, 0x14_a3d7_0a3d_70a4, 0x10_2000_0000_0000);
    } else if p == 66 {
        lemma_half(66, 0x16_147a_e147_ae14, 0x14_f5c2_8f5c_28f6, 0x10_6000_0000_0000);
    } else if p == 67 {
        lemma_half(67, 0x15_70a3_d70a_3d71, 0x15_47ae_147a_e148, 0x10_a000_0000_0000);
    } else if p == 68 {
        lemma_half(68, 0x14_cccc_cccc_cccd, 0x15_9999_9999_999a, 0x10_e000_0000_0000);
    } else if p == 69 {
        lemma_half(69, 0x14_28f5_c28f_5c29, 0x15_eb85_1eb8_51ec, 0x11_2000_0000_0000);
    } else if p == 70 {
        lemma_half(70, 0x13_851e_b851_eb85, 0x16_3d70_a3d7_0a3e, 0x11_6000_0000_0000);
    }
}

/// The results from 71 to 80 per cent.
proof fn lemma_halves_to_80(p: nat)
    requires
        71 <= p <= 80,
    ensures
        has_units(p, edits_unit(p), rest_unit(p), percents_unit(p)),
        comes_short(p, edits_unit(p), rest_unit(p), percents_unit(p)) == falls_short(p as int),
{
    if p == 71 {
        lemma_half(71, 0x12_e147_ae14_7ae1, 0x16_8f5c_28f5_c290, 0x11_a000_0000_0000);
    } else if p == 72 {
        lemma_half(72, 0x12_3d70_a3d7_0a3d, 0x16_e147_ae14_7ae2, 0x11_e000_0000_0001);
    } else if p == 73 {
        lemma_half(73, 0x11_9999_9999_999a, 0x17_3333_3333_3333, 0x12_2000_0000_0000);
    } else if p == 74 {
        lemma_half(74, 0x10_f5c2_8f5c_28f6, 0x17_851e_b851_eb85, 0x12_6000_0000_0000);
    } else if p == 75 {
        lemma_half(75, 0x10_51eb_851e_b852, 0x17_d70a_3d70_a3d7, 0x12_a000_0000_0000);
    } else if p == 76 {
        lemma_half(76, 0x1f_5c28_f5c2_8f5c, 0x18_28f5_c28f_5c29, 0x12_e000_0000_0000);
    } else if p == 77 {
        lemma_half(77, 0x1e_147a_e147_ae14, 0x18_7ae1_47ae_147b, 0x13_2000_0000_0000);
    } else if p == 78 {
        lemma_half(78, 0x1c_cccc_cccc_cccd, 0x18_cccc_cccc_cccd, 0x13_6000_0000_0000);
    } else if p == 79 {
        lemma_half(79, 0x1b_851e_b851_eb85, 0x19_1eb8_51eb_851f, 0x13_a000_0000_0000);
    } else if p == 80 {
        lemma_half(80, 0x1a_3d70_a3d7_0a3d, 0x19_70a3_d70a_3d71, 0x13_e000_0000_0000);
    }
}

/// The results from 81 to 90 per cent.
proof fn lemma_halves_to_90(p: nat)
    requires
        81 <= p <= 90,
    ensures
        has_units(p, edits_unit(p), rest_unit(p), percents_unit(p)),
        comes_short(p, edits_unit(p), rest_unit(p), percents_unit(p)) == falls_short(p as int),
{
    if p == 81 {
        lemma_half(81, 0x18_f5c2_8f5c_28f6, 0x19_c28f_5c28_f5c2, 0x14_2000_0000_0000);
    } else if p == 82 {
        lemma_half(82, 0x17_ae14_7ae1_47ae, 0x1a_147a_e147_ae14, 0x14_6000_0000_0000);
    } else if p == 83 {
        lemma_half(83, 0x16_6666_6666_6666, 0x1a_6666_6666_6666, 0x14_a000_0000_0000);
    } else if p == 84 {
        lemma_half(84, 0x15_1eb8_51eb_851f, 0x1a_b851_eb85_1eb8, 0x14_e000_0000_0000);
    } else if p == 85 {
        lemma_half(85, 0x13_d70a_3d70_a3d7, 0x1b_0a3d_70a3_d70a, 0x15_2000_0000_0000);
    } else if p == 86 {
        lemma_half(86, 0x12_8f5c_28f5_c28f, 0x1b_5c28_f5c2_8f5c, 0x15_6000_0000_0000);
    } else if p == 87 {
        lemma_half(87, 0x11_47ae_147a_e148, 0x1b_ae14_7ae1_47ae, 0x15_a000_0000_0000);
    } else if p == 88 {
        lemma_half(88, 0x10_0000_0000_0000, 0x1c_0000_0000_0000, 0x15_e000_0000_0000);
    } else if p == 89 {
        lemma_half(89, 0x1d_70a3_d70a_3d71, 0x1c_51eb_851e_b852, 0x16_2000_0000_0000);
    } else if p == 90 {
        lemma_half(90, 0x1a_e147_ae14_7ae1, 0x1c_a3d7_0a3d_70a4, 0x16_6000_0000_0000);
    }
}

/// The results from 91 to 100 per cent.
proof fn lemma_halves_to_100(p: nat)
    requires
        91 <= p <= 100,
    ensures
        has_units(p, edits_unit(p), rest_unit(p), percents_unit(p)),
        comes_short(p, edits_unit(p), rest_unit(p), percents_unit(p)) == falls_short(p as int),
{
    if p == 91 {
        lemma_half(91, 0x18_51eb_851e_b852, 0x1c_f5c2_8f5c_28f6, 0x16_a000_0000_0000);
    } else if p == 92 {
        lemma_half(92, 0x15_c28f_5c28_f5c3, 0x1d_47ae_147a_e148, 0x16_e000_0000_0000);
    } else if p == 93 {
        lemma_half(93, 0x13_3333_3333_3333, 0x1d_9999_9999_999a, 0x17_2000_0000_0000);
    } else if p == 94 {
        lemma_half(94, 0x10_a3d7_0a3d_70a4, 0x1d_eb85_1eb8_51ec, 0x17_6000_0000_0000);
    } else if p == 95 {
        lemma_half(95, 0x1c_28f5_c28f_5c29, 0x1e_3d70_a3d7_0a3d, 0x17_a000_0000_0000);
    } else if p == 96 {
        lemma_half(96, 0x17_0a3d_70a3_d70a, 0x1e_8f5c_28f5_c28f, 0x17_e000_0000_0000);
    } else if p == 97 {
        lemma_half(97, 0x11_eb85_1eb8_51ec, 0x1e_e147_ae14_7ae1, 0x18_2000_0000_0000);
    } else if p == 98 {
        lemma_half(98, 0x19_9999_9999_999a, 0x1f_3333_3333_3333, 0x18_6000_0000_0000);
    } else if p == 99 {
        lemma_half(99, 0x1e_b851_eb85_1eb8, 0x1f_851e_b851_eb85, 0x18_a000_0000_0000);
    } else if p == 100 {
        lemma_half(100, 0x14_7ae1_47ae_147b, 0x1f_d70a_3d70_a3d7, 0x18_e000_0000_0000);
    }
}

/// A power of two between bounds of which one is twice the other is the only one there.
proof fn lemma_one_power(p: nat, q: nat, j: nat, k: nat)
    requires
        pow2(52) * q <= p * pow2(j) < pow2(53) * q,
        pow2(52) * q <= p * pow2(k) < pow2(53) * q,
    ensures
        j == k,
{
    lemma_pow2_unfold(53);
    if j < k {
        lemma_larger_power(p, q, j, k);
    } else if k < j {
        lemma_larger_power(p, q, k, j);
    }
}

proof fn lemma_larger_power(p: nat, q: nat, j: nat, k: nat)
    requires
        pow2(52) * q <= p * pow2(j),
        j < k,
    ensures
        pow2(53) * q <= p * pow2(k),
{
    lemma_pow2_unfold(53);
    lemma_pow2_unfold(j + 1);
    if j + 1 < k {
        lemma_pow2_strictly_increases(j + 1, k);
    }
    let a = pow2(j) as int;
    let b = pow2(k) as int;
    let c = pow2(52) as int;
    assert(p * b >= 2 * (p * a)) by (nonlinear_arith)
        requires
            b >= 2 * a,
            p >= 0,
    ;
    assert((2 * c) * q == 2 * (c * q)) by (nonlinear_arith);
}

/// Of a ratio that is half a per cent more than a whole number of them, the way in which it
/// is rounded is that of double precision: the share of edits is taken off one and this is
/// multiplied by a hundred, each result being the nearest number of 53 binary digits, and
/// what then reaches the half is rounded up.
pub proof fn law_halves_go_the_way_of_double_precision(
    p: nat,
    edits: nat,
    j: nat,
    rest: nat,
    k: nat,
    percents: nat,
    t: nat,
)
    requires
        1 <= p <= 100,
        is_double((201 - 2 * p) as nat, 200, edits, j),
        edits <= pow2(j),
        is_double((pow2(j) - edits) as nat, pow2(j), rest, k),
        is_product(rest, 100, percents, t),
    ensures
        falls_short(p as int) <==> 2 * percents * pow2(t) < (2 * p - 1) * pow2(k),
{
    lemma2_to64();
    lemma2_to64_rest();
    if p <= 10 {
        lemma_halves_to_10(p);
    } else if p <= 20 {
        lemma_halves_to_20(p);
    } else if p <= 30 {
        lemma_halves_to_30(p);
    } else if p <= 40 {
        lemma_halves_to_40(p);
    } else if p <= 50 {
        lemma_halves_to_50(p);
    } else if p <= 60 {
        lemma_halves_to_60(p);
    } else if p <= 70 {
        lemma_halves_to_70(p);
    } else if p <= 80 {
        lemma_halves_to_80(p);
    } else if p <= 90 {
        lemma_halves_to_90(p);
    } else {
        lemma_halves_to_100(p);
    }
    let j2 = exponent_of(edits_unit(p));
    let k2 = exponent_of(rest_unit(p));
    let t2: nat = if percents_unit(p) == 64 {
        6
    } else {
        7
    };
    assert(pow2(j2) == edits_unit(p) && pow2(k2) == rest_unit(p) && pow2(t2) == percents_unit(p));
    lemma_one_power((201 - 2 * p) as nat, 200, j, j2);
    assert(edits == rounded_even(((201 - 2 * p) * edits_unit(p)) as nat, 200));
    lemma_one_power((pow2(j) - edits) as nat, pow2(j), k, k2);
    assert(rest == rounded_even(
        ((edits_unit(p) - edits) * rest_unit(p)) as nat,
        edits_unit(p),
    ));
    lemma_one_unit(100 * rest, t, t2);
}

proof fn lemma_one_unit(x: nat, s: nat, t: nat)
    requires
        pow2(52) * pow2(s) <= x < pow2(53) * pow2(s),
        pow2(52) * pow2(t) <= x < pow2(53) * pow2(t),
    ensures
        s == t,
{
    lemma_pow2_unfold(53);
    let c = pow2(52) as int;
    let a = pow2(s) as int;
    let b = pow2(t) as int;
    if s < t {
        lemma_pow2_unfold(s + 1);
        if s + 1 < t {
            lemma_pow2_strictly_increases(s + 1, t);
        }
        assert(c * b >= (2 * c) * a) by (nonlinear_arith)
            requires
                b >= 2 * a,
                c >= 0,
        ;
    } else if t < s {
        lemma_pow2_unfold(t + 1);
        if t + 1 < s {
            lemma_pow2_strictly_increases(t + 1, s);
        }
        assert(c * a >= (2 * c) * b) by (nonlinear_arith)
            requires
                a >= 2 * b,
                c >= 0,
        ;
    }
}

/// The exponent of a unit.
spec fn exponent_of(unit: nat) -> nat {
    if unit == 0x20_0000_0000_0000 {
        53
    } else if unit == 0x40_0000_0000_0000 {
        54
    } else if unit == 0x80_0000_0000_0000 {
        55
    } else if unit == 0x100_0000_0000_0000 {
        56
    } else if unit == 0x200_0000_0000_0000 {
        57
    } else if unit == 0x400_0000_0000_0000 {
        58
    } else if unit == 0x800_0000_0000_0000 {
        59
    } else {
        60
    }
}

} // verus!
