//! Stock labels as shown in game, and the inventory status scale from 1 to 7
//! that reports use.

use vstd::prelude::*;

use crate::text::{chars_of, has, is_white, lower, occurs, occurs_at, to_lower, white};

verus! {

/// The label of an inventory status.
pub open spec fn level_label(status: u8) -> Seq<char> {
    if status == 1 {
        "out of stock"@
    } else if status == 2 {
        "very low inventory"@
    } else if status == 3 {
        "low inventory"@
    } else if status == 4 {
        "medium inventory"@
    } else if status == 5 {
        "high inventory"@
    } else if status == 6 {
        "very high inventory"@
    } else if status == 7 {
        "max inventory"@
    } else {
        "?"@
    }
}

/// The label of an inventory status; a question mark where there is no such
/// status.
pub fn status_label(status: u8) -> (label: &'static str)
    ensures
        label@ == level_label(status),
{
    match status {
        1 => "out of stock",
        2 => "very low inventory",
        3 => "low inventory",
        4 => "medium inventory",
        5 => "high inventory",
        6 => "very high inventory",
        7 => "max inventory",
        _ => "?",
    }
}

/// The table of all labels with their status, from low to high.
pub fn stock_levels() -> (levels: Vec<(&'static str, u8)>)
    ensures
        levels@.len() == 7,
        forall|i: int|
            0 <= i < 7 ==> (#[trigger] levels@[i]).1 == i + 1 && levels@[i].0@ == level_label(
                levels@[i].1,
            ),
{
    let mut levels: Vec<(&'static str, u8)> = Vec::new();
    let mut status: u8 = 1;
    while status <= 7
        invariant
            1 <= status <= 8,
            levels@.len() == status - 1,
            forall|i: int|
                0 <= i < levels@.len() ==> (#[trigger] levels@[i]).1 == i + 1 && levels@[i].0@
                    == level_label(levels@[i].1),
        decreases 8 - status,
    {
        levels.push((status_label(status), status));
        status += 1;
    }
    levels
}

/// `s` without any white space.
pub open spec fn without_white(s: Seq<char>) -> Seq<char>
    decreases s.len(),
{
    if s.len() == 0 {
        s
    } else if is_white(s.last()) {
        without_white(s.drop_last())
    } else {
        without_white(s.drop_last()).push(s.last())
    }
}

/// `v` without any white space.
fn drop_white(v: &Vec<char>) -> (r: Vec<char>)
    ensures
        r@ == without_white(v@),
{
    let mut r: Vec<char> = Vec::new();
    let mut i: usize = 0;
    while i < v.len()
        invariant
            i <= v.len(),
            r@ == without_white(v@.take(i as int)),
        decreases v.len() - i,
    {
        proof {
            assert(v@.take(i + 1).drop_last() == v@.take(i as int));
        }
        if !white(v[i]) {
            r.push(v[i]);
        }
        i += 1;
    }
    assert(v@.take(v@.len() as int) == v@);
    r
}

/// The status that the keywords in `raw` name. Case and white space do not
/// count, and the qualified tiers are looked for before the plain ones.
pub open spec fn stock_status(raw: Seq<char>) -> Option<u8> {
    let s = without_white(lower(raw));
    if occurs(s, "outofstock"@) || occurs(s, "ofstock"@) || occurs(s, "cannotsell"@) || occurs(
        s,
        "soldout"@,
    ) {
        Some(1)
    } else if occurs(s, "verylow"@) {
        Some(2)
    } else if occurs(s, "veryhigh"@) {
        Some(6)
    } else if occurs(s, "low"@) {
        Some(3)
    } else if occurs(s, "medium"@) {
        Some(4)
    } else if occurs(s, "max"@) {
        Some(7)
    } else if occurs(s, "high"@) {
        Some(5)
    } else {
        None
    }
}

/// Normalises a stock phrase to its canonical label and status. Matching is by
/// keyword, so that noisy readings such as "MAXINVENTORY" still resolve; `None`
/// when no tier keyword is recognised.
pub fn parse_stock_label(raw: &str) -> (r: Option<(&'static str, u8)>)
    ensures
        match r {
            Some((label, status)) => stock_status(raw@) == Some(status) && label@ == level_label(
                status,
            ),
            None => stock_status(raw@) is None,
        },
{
    let s = drop_white(&to_lower(&chars_of(raw)));
    // "ofstock" also catches a misread first letter, as in "0UT OF STOCK".
    let status: u8 = if has(&s, "outofstock") || has(&s, "ofstock") || has(&s, "cannotsell") || has(
        &s,
        "soldout",
    ) {
        1
    } else if has(&s, "verylow") {
        2
    } else if has(&s, "veryhigh") {
        6
    } else if has(&s, "low") {
        3
    } else if has(&s, "medium") {
        4
    } else if has(&s, "max") {
        7
    } else if has(&s, "high") {
        5
    } else {
        return None;
    };
    Some((status_label(status), status))
}

/// White space is dropped from either part alike.
proof fn lemma_without_white_parts(a: Seq<char>, b: Seq<char>)
    ensures
        without_white(a + b) == without_white(a) + without_white(b),
    decreases b.len(),
{
    if b.len() == 0 {
        assert(a + b =~= a);
        assert(without_white(a) + without_white(b) =~= without_white(a));
    } else {
        lemma_without_white_parts(a, b.drop_last());
        assert((a + b).drop_last() =~= a + b.drop_last());
        assert(without_white(a + b) =~= without_white(a) + without_white(b));
    }
}

/// What has no white space stays as it is.
proof fn lemma_without_white_same(s: Seq<char>)
    requires
        forall|i: int| 0 <= i < s.len() ==> !is_white(#[trigger] s[i]),
    ensures
        without_white(s) == s,
    decreases s.len(),
{
    if s.len() > 0 {
        assert(!is_white(s[s.len() - 1]));
        assert forall|i: int| 0 <= i < s.len() - 1 implies !is_white(#[trigger] s.drop_last()[i]) by {
            assert(!is_white(s[i]));
        }
        lemma_without_white_same(s.drop_last());
        assert(s.drop_last().push(s.last()) =~= s);
    }
}

/// Two words lose the blank between them.
proof fn lemma_words_join(a: Seq<char>, b: Seq<char>)
    requires
        forall|i: int| 0 <= i < a.len() ==> !is_white(#[trigger] a[i]),
    ensures
        without_white(a + seq![' '] + b) == a + without_white(b),
{
    lemma_without_white_parts(a + seq![' '], b);
    assert((a + seq![' ']).drop_last() =~= a);
    lemma_without_white_same(a);
}

/// A pattern is not there where one of its characters is not, from its place on.
proof fn lemma_absent(s: Seq<char>, pattern: Seq<char>, k: int)
    requires
        0 <= k < pattern.len(),
        forall|i: int| k <= i < s.len() ==> #[trigger] s[i] != pattern[k],
    ensures
        !occurs(s, pattern),
{
    assert forall|at: int| !#[trigger] occurs_at(s, pattern, at) by {
        if occurs_at(s, pattern, at) {
            assert(s.subrange(at, at + pattern.len())[k] == s[at + k]);
        }
    }
}

/// Reading the label of a status gives the status back.
pub proof fn law_labels_read_back(status: u8)
    requires
        1 <= status <= 7,
    ensures
        stock_status(level_label(status)) == Some(status),
{
    reveal_strlit("outofstock");
    reveal_strlit("ofstock");
    reveal_strlit("cannotsell");
    reveal_strlit("soldout");
    reveal_strlit("verylow");
    reveal_strlit("veryhigh");
    reveal_strlit("low");
    reveal_strlit("medium");
    reveal_strlit("max");
    reveal_strlit("high");
    reveal_strlit("very");
    reveal_strlit("inventory");
    let s = without_white(lower(level_label(status)));
    if status == 1 {
        reveal_strlit("out of stock");
        let words = lower("out of stock"@);
        assert(words =~= seq!['o', 'u', 't'] + seq![' '] + (seq!['o', 'f'] + seq![' '] + seq![
            's',
            't',
            'o',
            'c',
            'k',
        ]));
        lemma_words_join(seq!['o', 'u', 't'], seq!['o', 'f'] + seq![' '] + seq![
            's',
            't',
            'o',
            'c',
            'k',
        ]);
        lemma_words_join(seq!['o', 'f'], seq!['s', 't', 'o', 'c', 'k']);
        lemma_without_white_same(seq!['s', 't', 'o', 'c', 'k']);
        assert(s =~= "outofstock"@);
        assert(s.subrange(0, 10) =~= "outofstock"@);
        assert(occurs_at(s, "outofstock"@, 0));
    } else {
        lemma_without_white_same("inventory"@);
        if status == 2 || status == 6 {
            let level = if status == 2 {
                "low"@
            } else {
                "high"@
            };
            reveal_strlit("very low inventory");
            reveal_strlit("very high inventory");
            let rest = level + seq![' '] + "inventory"@;
            assert(lower(level_label(status)) =~= "very"@ + seq![' '] + rest);
            lemma_words_join("very"@, rest);
            lemma_words_join(level, "inventory"@);
            assert(s == "very"@ + (level + "inventory"@));
            lemma_absent(s, "outofstock"@, 9);
            lemma_absent(s, "ofstock"@, 6);
            lemma_absent(s, "cannotsell"@, 0);
            lemma_absent(s, "soldout"@, 0);
            if status == 2 {
                assert(s.subrange(0, 7) =~= "verylow"@);
                assert(occurs_at(s, "verylow"@, 0));
            } else {
                lemma_absent(s, "verylow"@, 4);
                assert(s.subrange(0, 8) =~= "veryhigh"@);
                assert(occurs_at(s, "veryhigh"@, 0));
            }
        } else {
            let level = if status == 3 {
                "low"@
            } else if status == 4 {
                "medium"@
            } else if status == 5 {
                "high"@
            } else {
                "max"@
            };
            reveal_strlit("low inventory");
            reveal_strlit("medium inventory");
            reveal_strlit("high inventory");
            reveal_strlit("max inventory");
            assert(lower(level_label(status)) =~= level + seq![' '] + "inventory"@);
            lemma_words_join(level, "inventory"@);
            assert(s == level + "inventory"@);
            lemma_absent(s, "outofstock"@, 9);
            lemma_absent(s, "ofstock"@, 6);
            lemma_absent(s, "cannotsell"@, 0);
            lemma_absent(s, "soldout"@, 0);
            lemma_absent(s, "verylow"@, 4);
            lemma_absent(s, "veryhigh"@, 4);
            if status != 3 {
                lemma_absent(s, "low"@, 0);
            }
            if status != 3 && status != 4 {
                lemma_absent(s, "medium"@, 2);
            }
            if status == 5 {
                lemma_absent(s, "max"@, 2);
            }
            assert(s.subrange(0, level.len() as int) =~= level);
            assert(occurs_at(s, level, 0));
        }
    }
}

/// Neither upper and lower case nor blanks count in a stock label.
pub proof fn law_case_and_blanks_do_not_count(a: Seq<char>, b: Seq<char>)
    ensures
        stock_status(lower(a)) == stock_status(a),
        stock_status(a + seq![' '] + b) == stock_status(a + b),
{
    assert(lower(lower(a)) =~= lower(a));
    let spaced = lower(a + seq![' '] + b);
    assert(spaced =~= lower(a) + seq![' '] + lower(b));
    assert(lower(a + b) =~= lower(a) + lower(b));
    lemma_without_white_parts(lower(a) + seq![' '], lower(b));
    lemma_without_white_parts(lower(a), lower(b));
    assert((lower(a) + seq![' ']).drop_last() =~= lower(a));
    assert(without_white(lower(a) + seq![' ']) == without_white(lower(a)));
}

} // verus!
