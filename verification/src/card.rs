//! The text of a commodity card: its stock level, the cut before its cargo sizes,
//! and the size of ship ammunition.

use vstd::prelude::*;

use crate::matching::{best, best_position, lemma_best_exists, names_of, score_of, scores_of};
use crate::number::{decimal, parse_u32, push_decimal, u32_of};
use crate::pattern::{captures, group, group_at, groups_view, regex_groups};
use crate::status::{level_label, parse_stock_label, status_label, stock_status};
use crate::text::{
    after_last, append_chars, blank, chars_of, find_chars, first_occurs_at, lemma_position_of,
    lower, occurs, position_of, rest_after_last, slice_chars, split_words, stands_at,
    starts_with, string_of, to_lower, trim, trim_end, trimmed, trimmed_end, words,
};

verus! {

/// What the stock levels are called in front of "inventory", from 7 down to 2.
pub open spec fn level_keys() -> Seq<Seq<char>> {
    seq!["max"@, "very high"@, "high"@, "medium"@, "low"@, "very low"@]
}

/// How well a phrase matches the level that it matches best.
pub open spec fn level_score(phrase: Seq<char>) -> int {
    let scores = scores_of(phrase, level_keys());
    scores[best_position(scores)]
}

/// The level that a phrase matches best.
pub open spec fn level_of(phrase: Seq<char>) -> int {
    7 - best_position(scores_of(phrase, level_keys()))
}

/// The level that the last word, or the last two words, of `before` come close
/// to. The two words count only where they match better than the one.
pub open spec fn nearest_level(before: Seq<Seq<char>>) -> Option<u8> {
    if before.len() == 0 {
        None
    } else {
        let one = before.last();
        let two = before[before.len() - 2] + blank() + before.last();
        let phrase = if before.len() >= 2 && level_score(two) > level_score(one) {
            two
        } else {
            one
        };
        if level_score(phrase) >= 62 {
            Some(level_of(phrase) as u8)
        } else {
            None
        }
    }
}

/// The stock level of a card: by keyword, or else by what stands before
/// "inventory".
pub open spec fn card_stock(text: Seq<char>) -> Option<u8> {
    match stock_status(text) {
        Some(status) => Some(status),
        None => match position_of(lower(text), "inventory"@) {
            Some(at) => nearest_level(words(text.take(at))),
            None => None,
        },
    }
}

/// The level that a phrase matches best, and how well.
fn closest_level(phrase: &Vec<char>) -> (r: (u8, u8))
    ensures
        r.0 == level_of(phrase@),
        r.1 == level_score(phrase@),
        2 <= r.0 <= 7,
{
    let mut keys: Vec<&str> = Vec::new();
    keys.push("max");
    keys.push("very high");
    keys.push("high");
    keys.push("medium");
    keys.push("low");
    keys.push("very low");
    assert(names_of(keys@) =~= level_keys());
    let phrase = string_of(phrase);
    match best(phrase.as_str(), &keys) {
        Some((at, score)) => (7 - at as u8, score),
        None => (7, 0),
    }
}

/// The stock level of a card. First by keyword; where that fails but the text
/// mentions "inventory", by the one or two words before it, which recovers
/// misread levels such as "1AX INVENTORY".
pub fn resolve_stock(text: &str) -> (r: Option<(String, u8)>)
    ensures
        match r {
            Some((label, status)) => card_stock(text@) == Some(status) && label@ == level_label(
                status,
            ) && 1 <= status <= 7,
            None => card_stock(text@) is None,
        },
{
    if let Some((label, status)) = parse_stock_label(text) {
        return Some((label.to_owned(), status));
    }
    let v = chars_of(text);
    let at = match find_chars(&to_lower(&v), &chars_of("inventory")) {
        Some(at) => at,
        None => {
            return None;
        },
    };
    let before = slice_chars(&v, 0, at);
    assert(before@ == text@.take(at as int));
    let found = split_words(&before);
    let ghost w = words(before@);
    assert(w.len() == found@.len());
    assert(forall|i: int| 0 <= i < w.len() ==> w[i] == #[trigger] found@[i]@);
    if found.len() == 0 {
        return None;
    }
    let last = &found[found.len() - 1];
    let (mut level, mut score) = closest_level(last);
    if found.len() >= 2 {
        let first = &found[found.len() - 2];
        let mut two = slice_chars(first, 0, first.len());
        assert(two@ =~= first@);
        two.push(' ');
        append_chars(&mut two, last);
        assert(two@ =~= w[w.len() - 2] + blank() + w.last());
        let (other_level, other_score) = closest_level(&two);
        if other_score > score {
            level = other_level;
            score = other_score;
        }
    }
    if score >= 62 {
        Some((status_label(level).to_owned(), level))
    } else {
        None
    }
}

/// Where the row of cargo sizes starts.
pub open spec fn cargo_sizes_at(text: Seq<char>) -> Option<int> {
    let s = lower(text);
    if occurs(s, "available cargo"@) {
        position_of(s, "available cargo"@)
    } else if occurs(s, "cargo size"@) {
        position_of(s, "cargo size"@)
    } else {
        position_of(s, "cargo siz"@)
    }
}

/// What stands before the row of cargo sizes.
pub open spec fn before_cargo_sizes(text: Seq<char>) -> Seq<char> {
    match cargo_sizes_at(text) {
        Some(at) => trim_end(text.take(at)),
        None => text,
    }
}

/// Cuts a card's text at the "AVAILABLE CARGO SIZE" row, so that the container
/// sizes below it are not read as quantities or prices.
pub fn truncate_before_cargo_sizes(text: &str) -> (r: String)
    ensures
        r@ == before_cargo_sizes(text@),
{
    let v = chars_of(text);
    let s = to_lower(&v);
    let cut = match find_chars(&s, &chars_of("available cargo")) {
        Some(at) => Some(at),
        None => match find_chars(&s, &chars_of("cargo size")) {
            Some(at) => Some(at),
            None => find_chars(&s, &chars_of("cargo siz")),
        },
    };
    match cut {
        Some(at) => {
            let before = slice_chars(&v, 0, at);
            assert(before@ == text@.take(at as int));
            string_of(&trimmed_end(&before))
        },
        None => string_of(&v),
    }
}

/// A legible ammunition size.
pub const AMMO_SIZE: &'static str = r"(?i)\bi?size\s+([1-7])\b";

/// The size that an ammunition's name ends with.
pub open spec fn named_size(name: Seq<char>) -> Option<u32> {
    match after_last(name, "Size "@) {
        Some(rest) => u32_of(trim(rest)),
        None => None,
    }
}

/// The size that was legible on the card.
pub open spec fn legible_size(groups: Option<Seq<Option<Seq<char>>>>) -> Option<u32> {
    match groups {
        Some(groups) => match group_at(groups, 1) {
            Some(size) => u32_of(size),
            None => None,
        },
        None => None,
    }
}

/// The size of ship ammunition, from 1 to 7: the one in its name, or else the
/// legible one, or else the one after the last size above it, or else 1.
pub open spec fn ammo_size(
    name: Seq<char>,
    groups: Option<Seq<Option<Seq<char>>>>,
    last: Option<u32>,
) -> int {
    let size = match named_size(name) {
        Some(size) => size as int,
        None => match legible_size(groups) {
            Some(size) => size as int,
            None => match last {
                Some(size) => size + 1,
                None => 1,
            },
        },
    };
    if size < 1 {
        1
    } else if size > 7 {
        7
    } else {
        size
    }
}

/// A commodity after its ammunition size was resolved, and the last size seen.
pub struct AmmoView {
    pub id: u32,
    pub name: Seq<char>,
    pub last: Option<u32>,
}

/// Ship ammunition becomes the commodity of its size; every other commodity
/// stays as it is and ends the run of sizes.
pub open spec fn resolved_ammo(
    id: u32,
    name: Seq<char>,
    groups: Option<Seq<Option<Seq<char>>>>,
    last: Option<u32>,
) -> AmmoView {
    if starts_with(name, "Ship Ammunition"@) {
        let size = ammo_size(name, groups, last);
        AmmoView {
            id: (200 + size) as u32,
            name: "Ship Ammunition - Size "@ + decimal(size as nat),
            last: Some(size as u32),
        }
    } else {
        AmmoView { id, name, last: None }
    }
}

/// Resolves an ammunition size, given what the size pattern captured.
pub fn ship_ammo_from(
    base_id: u32,
    base_name: &str,
    groups: &Option<Vec<Option<String>>>,
    last_size: &mut Option<u32>,
) -> (r: (u32, String))
    requires
        *old(last_size) != Some(u32::MAX),
    ensures
        ({
            let resolved = resolved_ammo(
                base_id,
                base_name@,
                groups_view(*groups),
                *old(last_size),
            );
            &&& r.0 == resolved.id
            &&& r.1@ == resolved.name
            &&& *final(last_size) == resolved.last
        }),
        *final(last_size) is Some ==> (*final(last_size))->0 <= 7,
{
    let name = chars_of(base_name);
    if !stands_at(&name, &chars_of("Ship Ammunition"), 0) {
        *last_size = None;
        return (base_id, base_name.to_owned());
    }
    let from_name = match rest_after_last(&name, &chars_of("Size ")) {
        Some(rest) => parse_u32(&trimmed(&rest)),
        None => None,
    };
    let explicit = match groups {
        Some(groups) => match group(groups, 1) {
            Some(size) => parse_u32(&chars_of(size.as_str())),
            None => None,
        },
        None => None,
    };
    let size: u32 = match from_name {
        Some(size) => size,
        None => match explicit {
            Some(size) => size,
            None => match *last_size {
                Some(size) => size + 1,
                None => 1,
            },
        },
    };
    let size: u32 = if size < 1 {
        1
    } else if size > 7 {
        7
    } else {
        size
    };
    *last_size = Some(size);
    let mut v = chars_of("Ship Ammunition - Size ");
    push_decimal(&mut v, size as u64);
    (200 + size, string_of(&v))
}

/// Ship ammunition is listed by size from top to bottom, but the digit is often
/// lost. Resolves the size from the name or from a legible digit where possible,
/// else by position in the run, so that the sizes become distinct commodities.
pub fn resolve_ship_ammo(
    base_id: u32,
    base_name: &str,
    text: &str,
    last_size: &mut Option<u32>,
) -> (r: (u32, String))
    requires
        *old(last_size) != Some(u32::MAX),
    ensures
        ({
            let resolved = resolved_ammo(
                base_id,
                base_name@,
                regex_groups(AMMO_SIZE@, text@),
                *old(last_size),
            );
            &&& r.0 == resolved.id
            &&& r.1@ == resolved.name
            &&& *final(last_size) == resolved.last
        }),
        *final(last_size) is Some ==> (*final(last_size))->0 <= 7,
{
    ship_ammo_from(base_id, base_name, &captures(AMMO_SIZE, text), last_size)
}

/// Where the digits of a run are lost, each card gets the size after the one
/// above it, up to 7.
pub proof fn law_lost_sizes_count_up(
    id: u32,
    name: Seq<char>,
    groups: Option<Seq<Option<Seq<char>>>>,
    last: u32,
)
    requires
        starts_with(name, "Ship Ammunition"@),
        named_size(name) is None,
        legible_size(groups) is None,
        1 <= last <= 7,
    ensures
        ({
            let next = if last < 7 {
                last + 1
            } else {
                7
            };
            let resolved = resolved_ammo(id, name, groups, Some(last));
            resolved.id == 200 + next && resolved.last == Some(next as u32)
        }),
{
}

/// Ship ammunition always becomes one of the seven sized commodities.
pub proof fn law_ammo_is_sized(
    id: u32,
    name: Seq<char>,
    groups: Option<Seq<Option<Seq<char>>>>,
    last: Option<u32>,
)
    requires
        starts_with(name, "Ship Ammunition"@),
    ensures
        201 <= resolved_ammo(id, name, groups, last).id <= 207,
{
}

/// What a stock level is called in front of "inventory": its label without that word.
pub open spec fn level_word(level: int) -> Seq<char> {
    level_label(level as u8).take(level_label(level as u8).len() - 10)
}

/// `phrase` is the last word of `before`, or its last two words with a blank between.
pub open spec fn ends_with_words(before: Seq<Seq<char>>, phrase: Seq<char>) -> bool {
    ||| before.len() >= 1 && phrase == before.last()
    ||| before.len() >= 2 && phrase == before[before.len() - 2] + seq![' '] + before.last()
}

proof fn lemma_level_words()
    ensures
        forall|level: int|
            2 <= level <= 7 ==> #[trigger] level_word(level) == level_keys()[7 - level],
{
    reveal_strlit("very low inventory");
    reveal_strlit("low inventory");
    reveal_strlit("medium inventory");
    reveal_strlit("high inventory");
    reveal_strlit("very high inventory");
    reveal_strlit("max inventory");
    reveal_strlit("max");
    reveal_strlit("very high");
    reveal_strlit("high");
    reveal_strlit("medium");
    reveal_strlit("low");
    reveal_strlit("very low");
    assert(level_word(2) =~= level_keys()[5]);
    assert(level_word(3) =~= level_keys()[4]);
    assert(level_word(4) =~= level_keys()[3]);
    assert(level_word(5) =~= level_keys()[2]);
    assert(level_word(6) =~= level_keys()[1]);
    assert(level_word(7) =~= level_keys()[0]);
}

/// A level that a phrase matches best.
proof fn lemma_level(phrase: Seq<char>)
    ensures
        2 <= level_of(phrase) <= 7,
        level_score(phrase) == score_of(phrase, level_word(level_of(phrase))),
        forall|level: int|
            2 <= level <= 7 ==> score_of(phrase, #[trigger] level_word(level)) <= level_score(
                phrase,
            ),
{
    let scores = scores_of(phrase, level_keys());
    lemma_best_exists(scores);
    lemma_level_words();
    assert forall|level: int| 2 <= level <= 7 implies score_of(
        phrase,
        #[trigger] level_word(level),
    ) <= level_score(phrase) by {
        assert(scores[7 - level] == score_of(phrase, level_word(level)));
    }
}

/// A stock level is read by its keyword; and where there is none, by what the one or two
/// words before the first "inventory" come closest to, if they do so with 62 or more.
pub proof fn law_misread_levels_are_recovered(text: Seq<char>, at: int)
    requires
        first_occurs_at(lower(text), "inventory"@, at) || !occurs(lower(text), "inventory"@),
    ensures
        match stock_status(text) {
            Some(status) => card_stock(text) == Some(status),
            None => if !occurs(lower(text), "inventory"@) {
                card_stock(text) is None
            } else {
                let before = words(text.take(at));
                match card_stock(text) {
                    Some(level) => {
                        &&& 2 <= level <= 7
                        &&& exists|phrase: Seq<char>| #[trigger]
                            ends_with_words(before, phrase) && score_of(
                                phrase,
                                level_word(level as int),
                            ) >= 62 && forall|other: Seq<char>, l: int|
                                #![trigger score_of(other, level_word(l))]
                                ends_with_words(before, other) && 2 <= l <= 7 ==> score_of(
                                    other,
                                    level_word(l),
                                ) <= score_of(phrase, level_word(level as int))
                    },
                    None => forall|other: Seq<char>, l: int|
                        #![trigger score_of(other, level_word(l))]
                        ends_with_words(before, other) && 2 <= l <= 7 ==> score_of(
                            other,
                            level_word(l),
                        ) < 62,
                }
            },
        },
{
    if stock_status(text) is None && first_occurs_at(lower(text), "inventory"@, at) {
        lemma_position_of(lower(text), "inventory"@, at);
        let before = words(text.take(at));
        if before.len() > 0 {
            let one = before.last();
            let two = before[before.len() - 2] + blank() + before.last();
            lemma_level(one);
            lemma_level(two);
            let phrase = if before.len() >= 2 && level_score(two) > level_score(one) {
                two
            } else {
                one
            };
            assert(ends_with_words(before, phrase));
        }
    }
}

/// A card's text is cut at the row of cargo sizes, however much of its label is legible,
/// and white space before it goes too; a text without such a row stays as it is.
pub proof fn law_text_ends_before_cargo_sizes(text: Seq<char>, at: int)
    ensures
        first_occurs_at(lower(text), "available cargo"@, at) ==> before_cargo_sizes(text)
            == trim_end(text.take(at)),
        !occurs(lower(text), "available cargo"@) && first_occurs_at(lower(text), "cargo size"@, at)
            ==> before_cargo_sizes(text) == trim_end(text.take(at)),
        !occurs(lower(text), "available cargo"@) && !occurs(lower(text), "cargo size"@)
            && first_occurs_at(lower(text), "cargo siz"@, at) ==> before_cargo_sizes(text)
            == trim_end(text.take(at)),
        !occurs(lower(text), "available cargo"@) && !occurs(lower(text), "cargo size"@) && !occurs(
            lower(text),
            "cargo siz"@,
        ) ==> before_cargo_sizes(text) == text,
{
    let s = lower(text);
    if first_occurs_at(s, "available cargo"@, at) {
        lemma_position_of(s, "available cargo"@, at);
    }
    if first_occurs_at(s, "cargo size"@, at) {
        lemma_position_of(s, "cargo size"@, at);
    }
    if first_occurs_at(s, "cargo siz"@, at) {
        lemma_position_of(s, "cargo siz"@, at);
    }
}

/// The size in the name of ship ammunition counts before the one that is legible on the
/// card, and that before the run of sizes; the first of a run is 1. What is no ship
/// ammunition stays what it is, and ends the run.
pub proof fn law_sizes_have_their_precedence(
    id: u32,
    name: Seq<char>,
    groups: Option<Seq<Option<Seq<char>>>>,
    last: Option<u32>,
    size: u32,
)
    requires
        1 <= size <= 7,
    ensures
        ({
            let r = resolved_ammo(id, name, groups, last);
            if starts_with(name, "Ship Ammunition"@) {
                &&& named_size(name) == Some(size) ==> r.id == 200 + size && r.last == Some(size)
                &&& named_size(name) is None && legible_size(groups) == Some(size) ==> r.id == 200
                    + size && r.last == Some(size)
                &&& named_size(name) is None && legible_size(groups) is None && last is None
                    ==> r.id == 201 && r.last == Some(1u32)
                &&& r.name == "Ship Ammunition - Size "@ + decimal((r.id - 200) as nat)
                &&& r.last == Some((r.id - 200) as u32)
            } else {
                r.id == id && r.name == name && r.last is None
            }
        }),
{
}

} // verus!
