//! Turns recognised words into an extraction: which terminal, buy or sell, and
//! the commodity rows with their confidences.
//!
//! * The terminal is the best fuzzy match among short runs of words.
//! * A visible "SHOP QUANTITY" label means that the player buys from the shop;
//!   otherwise the screen is a sell terminal.
//! * Each commodity is anchored by a fuzzy match of its name; the words in a band
//!   below the name give its stock level, quantity and unit price.

use vstd::prelude::*;

use crate::card::{
    ammo_size, before_cargo_sizes, card_stock, level_keys, resolve_stock, resolved_ammo,
    ship_ammo_from, truncate_before_cargo_sizes, AMMO_SIZE,
};
use crate::matching::{best_position, lemma_best_exists, scores_of};
use crate::model::{
    lemma_views_push, text_of, views, Commodity, CommodityView, Extraction, ExtractionView,
    TerminalType,
};
use crate::number::decimal;
use crate::ocr::{Word, WordView};
use crate::order::{
    as_ints, is_stable_order, lemma_stable_order_exists, precedes, sorted_positions, stable_order,
    Key,
};
use crate::pattern::{captures, groups_view, regex_groups};
use crate::pricing::{find_price, find_quantity, price_in, quantity_in};
use crate::reference::{
    match_view, ranking_keys, CommodityMatch, CommodityMatchView, Reference, ReferenceView,
    TerminalMatch, TerminalMatchView,
};
use crate::single::{divide_singles, rounded_quotient, single, to_single};
use crate::status::{level_label, status_label, stock_status};
use crate::text::{
    blank, byte_len, chars_of, digit, has, is_digit, joined, lower, occurs, position_of, push_text,
    same_chars, starts_with, string_of, texts, to_upper, trim, trimmed, upper, upper_char,
    utf8_len, words,
};

pub use crate::merge::merge;

verus! {

/// Whether `c` is an ASCII letter or digit.
pub open spec fn is_alphanumeric(c: char) -> bool {
    is_digit(c) || ('a' <= c && c <= 'z') || ('A' <= c && c <= 'Z')
}

/// The letters and digits of `s`, in upper case.
pub open spec fn compact_upper(s: Seq<char>) -> Seq<char>
    decreases s.len(),
{
    if s.len() == 0 {
        s
    } else if is_alphanumeric(s.last()) {
        compact_upper(s.drop_last()).push(upper_char(s.last()))
    } else {
        compact_upper(s.drop_last())
    }
}

/// The words in upper case.
pub open spec fn uppers(words: Seq<WordView>) -> Seq<Seq<char>> {
    Seq::new(words.len(), |i: int| upper(words[i].text))
}

/// Whether a "SHOP QUANTITY" label starts at word `i`: one mashed word, or the
/// pair.
pub open spec fn label_starts(up: Seq<Seq<char>>, i: int) -> bool {
    compact_upper(up[i]) == "SHOPQUANTITY"@ || (occurs(up[i], "SHOP"@) && i + 1 < up.len()
        && occurs(up[i + 1], "QUANTITY"@))
}

/// Whether word `i` is part of a "SHOP QUANTITY" label.
pub open spec fn in_label(up: Seq<Seq<char>>, i: int) -> bool {
    label_starts(up, i) || (occurs(up[i], "QUANTITY"@) && i > 0 && occurs(up[i - 1], "SHOP"@))
}

/// How many labels start among the first `n` words.
pub open spec fn label_count(up: Seq<Seq<char>>, n: int) -> nat
    decreases n,
{
    if n <= 0 {
        0
    } else if label_starts(up, n - 1) {
        label_count(up, n - 1) + 1
    } else {
        label_count(up, n - 1)
    }
}

/// Buying where a label is visible, selling otherwise.
pub open spec fn type_of(words: Seq<WordView>) -> TerminalType {
    if label_count(uppers(words), words.len() as int) > 0 {
        TerminalType::Buy
    } else {
        TerminalType::Sell
    }
}

/// The first `n` words without those that are part of a label.
pub open spec fn unlabelled(words: Seq<WordView>, n: int) -> Seq<WordView>
    decreases n,
{
    if n <= 0 {
        Seq::empty()
    } else if in_label(uppers(words), n - 1) {
        unlabelled(words, n - 1)
    } else {
        unlabelled(words, n - 1).push(words[n - 1])
    }
}

/// Keeps the letters and digits, in upper case.
fn compacted(v: &Vec<char>) -> (r: Vec<char>)
    ensures
        r@ == compact_upper(v@),
{
    let mut r: Vec<char> = Vec::new();
    let mut i: usize = 0;
    while i < v.len()
        invariant
            i <= v.len(),
            r@ == compact_upper(v@.take(i as int)),
        decreases v.len() - i,
    {
        assert(v@.take(i + 1).drop_last() == v@.take(i as int));
        let c = v[i];
        if 'a' <= c && c <= 'z' {
            r.push((c as u8 - 32) as char);
        } else if digit(c) || ('A' <= c && c <= 'Z') {
            r.push(c);
        }
        i += 1;
    }
    assert(v@.take(v@.len() as int) == v@);
    r
}

/// The words in upper case.
fn upper_words(words: &[Word]) -> (up: Vec<Vec<char>>)
    ensures
        texts(up@) == uppers(views(words@)),
{
    let mut up: Vec<Vec<char>> = Vec::new();
    let mut i: usize = 0;
    while i < words.len()
        invariant
            i <= words.len(),
            texts(up@) == uppers(views(words@)).take(i as int),
        decreases words.len() - i,
    {
        let next = to_upper(&chars_of(words[i].text.as_str()));
        proof {
            assert(uppers(views(words@))[i as int] == next@);
            assert(texts(up@.push(next)) =~= texts(up@).push(next@));
            assert(uppers(views(words@)).take(i + 1) =~= uppers(views(words@)).take(i as int).push(
                next@,
            ));
        }
        up.push(next);
        i += 1;
    }
    assert(uppers(views(words@)).take(i as int) =~= uppers(views(words@)));
    up
}

fn starts_label(up: &Vec<Vec<char>>, i: usize) -> (r: bool)
    requires
        i < up.len(),
    ensures
        r == label_starts(texts(up@), i as int),
{
    assert(texts(up@)[i as int] == up@[i as int]@);
    if same_chars(&compacted(&up[i]), &chars_of("SHOPQUANTITY")) {
        return true;
    }
    if i + 1 < up.len() {
        assert(texts(up@)[i + 1] == up@[i + 1]@);
        has(&up[i], "SHOP") && has(&up[i + 1], "QUANTITY")
    } else {
        false
    }
}

/// Whether a word is part of a "SHOP QUANTITY" label.
pub fn is_shop_quantity_word(up: &Vec<Vec<char>>, i: usize) -> (r: bool)
    requires
        i < up.len(),
    ensures
        r == in_label(texts(up@), i as int),
{
    if starts_label(up, i) {
        return true;
    }
    assert(texts(up@)[i as int] == up@[i as int]@);
    if i > 0 {
        assert(texts(up@)[i - 1] == up@[i - 1]@);
        has(&up[i], "QUANTITY") && has(&up[i - 1], "SHOP")
    } else {
        false
    }
}

/// Counts the "SHOP QUANTITY" labels.
pub fn count_shop_quantity(up: &Vec<Vec<char>>) -> (n: usize)
    ensures
        n == label_count(texts(up@), up@.len() as int),
        n <= up@.len(),
{
    let mut n: usize = 0;
    let mut i: usize = 0;
    while i < up.len()
        invariant
            i <= up.len(),
            n == label_count(texts(up@), i as int),
            n <= i,
        decreases up.len() - i,
    {
        if starts_label(up, i) {
            n += 1;
        }
        i += 1;
    }
    n
}

/// Buy or sell, and the number of "SHOP QUANTITY" labels. Both tabs of a terminal
/// are always labelled on screen, so their texts tell nothing; only the buy tab
/// labels its quantities.
pub fn detect_type(words: &[Word]) -> (r: (TerminalType, usize))
    ensures
        r.0 == type_of(views(words@)),
        r.1 == label_count(uppers(views(words@)), words@.len() as int),
{
    let up = upper_words(words);
    assert(up@.len() == texts(up@).len());
    let n = count_shop_quantity(&up);
    if n > 0 {
        (TerminalType::Buy, n)
    } else {
        (TerminalType::Sell, 0)
    }
}

/// Drops the words of "SHOP QUANTITY" labels.
fn without_labels(words: &[Word]) -> (r: Vec<Word>)
    ensures
        views(r@) == unlabelled(views(words@), words@.len() as int),
{
    let up = upper_words(words);
    let mut r: Vec<Word> = Vec::new();
    let mut i: usize = 0;
    assert(views(r@) =~= Seq::empty());
    assert(up@.len() == texts(up@).len());
    while i < words.len()
        invariant
            i <= words.len(),
            up@.len() == words@.len(),
            texts(up@) == uppers(views(words@)),
            views(r@) == unlabelled(views(words@), i as int),
        decreases words.len() - i,
    {
        if !is_shop_quantity_word(&up, i) {
            let word = words[i].clone();
            proof {
                lemma_views_push(r@, word);
                assert(views(words@)[i as int] == word@);
            }
            r.push(word);
        }
        i += 1;
    }
    r
}

/// The text of `n` words from `i` on, with blanks between.
pub open spec fn phrase(words: Seq<WordView>, i: int, n: int) -> Seq<char>
    decreases n,
{
    if n <= 0 {
        Seq::empty()
    } else {
        let before = phrase(words, i, n - 1);
        if before.len() == 0 {
            words[i + n - 1].text
        } else {
            before + blank() + words[i + n - 1].text
        }
    }
}

/// What is looked up for a phrase, where it is long enough.
pub open spec fn query_of(text: Seq<char>) -> Option<Seq<char>> {
    if byte_len(trim(text)) >= 3 {
        Some(trim(text))
    } else {
        None
    }
}

/// Appends a word to a phrase.
fn extend_phrase(text: &mut Vec<char>, word: &str)
    ensures
        final(text)@ == if old(text)@.len() == 0 {
            word@
        } else {
            old(text)@ + blank() + word@
        },
{
    let ghost before = text@;
    if text.len() > 0 {
        text.push(' ');
        assert(text@ =~= before + blank());
    }
    push_text(text, word);
}

/// What is looked up for a phrase, where it is long enough.
fn query(text: &Vec<char>) -> (r: Option<String>)
    ensures
        text_of(r) == query_of(text@),
{
    let t = trimmed(text);
    if utf8_len(&t) >= 3 {
        Some(string_of(&t))
    } else {
        None
    }
}

/// Whether the `n` words from `i` on are there and stand on one line.
pub open spec fn on_one_line(words: Seq<WordView>, i: int, n: int) -> bool {
    i + n <= words.len() && forall|j: int|
        i <= j < i + n ==> (#[trigger] words[j]).line == words[i].line
}

/// The better of two terminal matches; the first where they are equally good.
pub open spec fn better_terminal(
    a: Option<TerminalMatchView>,
    b: Option<TerminalMatchView>,
) -> Option<TerminalMatchView> {
    match (a, b) {
        (Some(x), Some(y)) => if y.score > x.score {
            b
        } else {
            a
        },
        (None, _) => b,
        (_, None) => a,
    }
}

/// The best terminal among the phrases of up to `n` words that start at word `i`.
pub open spec fn terminal_at(
    reference: ReferenceView,
    words: Seq<WordView>,
    i: int,
    n: int,
) -> Option<TerminalMatchView>
    decreases n,
{
    if n <= 0 {
        None
    } else {
        let before = terminal_at(reference, words, i, n - 1);
        if on_one_line(words, i, n) {
            match query_of(phrase(words, i, n)) {
                Some(q) => better_terminal(before, reference.best_terminal(q)),
                None => before,
            }
        } else {
            before
        }
    }
}

/// The best terminal among the phrases of up to four words that start before word
/// `n`.
pub open spec fn terminal_among(
    reference: ReferenceView,
    words: Seq<WordView>,
    n: int,
) -> Option<TerminalMatchView>
    decreases n,
{
    if n <= 0 {
        None
    } else {
        better_terminal(
            terminal_among(reference, words, n - 1),
            terminal_at(reference, words, n - 1, 4),
        )
    }
}

/// The terminal that the words name, where the match is good enough.
pub open spec fn terminal_of(reference: ReferenceView, words: Seq<WordView>) -> Option<
    TerminalMatchView,
> {
    match terminal_among(reference, words, words.len() as int) {
        Some(found) => if found.score >= 55 {
            Some(found)
        } else {
            None
        },
        None => None,
    }
}

fn pick_terminal(a: Option<TerminalMatch>, b: Option<TerminalMatch>) -> (r: Option<TerminalMatch>)
    ensures
        match_view(r) == better_terminal(match_view(a), match_view(b)),
{
    match (a, b) {
        (Some(x), Some(y)) => if y.score > x.score {
            Some(y)
        } else {
            Some(x)
        },
        (None, b) => b,
        (a, None) => a,
    }
}

/// Whether two words stand on one line.
fn same_line(a: &Word, b: &Word) -> (r: bool)
    ensures
        r == (a@.line == b@.line),
{
    a.line.0 == b.line.0 && a.line.1 == b.line.1 && a.line.2 == b.line.2
}

fn find_terminal_at(reference: &Reference, words: &[Word], i: usize) -> (r: Option<TerminalMatch>)
    requires
        i < words@.len(),
    ensures
        match_view(r) == terminal_at(reference@, views(words@), i as int, 4),
{
    let ghost all = views(words@);
    let mut found: Option<TerminalMatch> = None;
    let mut text: Vec<char> = Vec::new();
    let mut n: usize = 0;
    let mut open = true;
    while n < 4
        invariant
            n <= 4,
            i < words@.len(),
            all == views(words@),
            open == on_one_line(all, i as int, n as int),
            open ==> text@ == phrase(all, i as int, n as int),
            match_view(found) == terminal_at(reference@, all, i as int, n as int),
        decreases 4 - n,
    {
        if open && n < words.len() - i && same_line(&words[i + n], &words[i]) {
            assert(all[i + n] == words@[i + n]@);
            assert(all[i as int] == words@[i as int]@);
            extend_phrase(&mut text, words[i + n].text.as_str());
            assert(on_one_line(all, i as int, n + 1)) by {
                assert forall|j: int| i <= j < i + n + 1 implies (#[trigger] all[j]).line
                    == all[i as int].line by {}
            }
            if let Some(q) = query(&text) {
                let next = reference.best_terminal(q.as_str());
                found = pick_terminal(found, next);
            }
        } else {
            assert(!on_one_line(all, i as int, n + 1)) by {
                if on_one_line(all, i as int, n + 1) {
                    assert(on_one_line(all, i as int, n as int));
                    assert(all[i + n].line == all[i as int].line);
                    assert(all[i + n] == words@[i + n]@);
                    assert(all[i as int] == words@[i as int]@);
                }
            }
            open = false;
        }
        n += 1;
    }
    found
}

/// The best terminal match among short phrases on one line.
pub fn detect_terminal(reference: &Reference, words: &[Word]) -> (r: Option<TerminalMatch>)
    ensures
        match_view(r) == terminal_of(reference@, views(words@)),
{
    let mut found: Option<TerminalMatch> = None;
    let mut i: usize = 0;
    while i < words.len()
        invariant
            i <= words.len(),
            match_view(found) == terminal_among(reference@, views(words@), i as int),
        decreases words.len() - i,
    {
        let next = find_terminal_at(reference, words, i);
        found = pick_terminal(found, next);
        i += 1;
    }
    match found {
        Some(m) => if m.score >= 55 {
            Some(m)
        } else {
            None
        },
        None => None,
    }
}

/// How many line breaks there are among the `n` words from `i` on.
pub open spec fn line_breaks(words: Seq<WordView>, i: int, n: int) -> nat
    decreases n,
{
    if n <= 1 {
        0
    } else if words[i + n - 1].line != words[i + n - 2].line {
        line_breaks(words, i, n - 1) + 1
    } else {
        line_breaks(words, i, n - 1)
    }
}

/// Whether the `n` words from `i` on are there and stand on at most two lines.
pub open spec fn on_two_lines(words: Seq<WordView>, i: int, n: int) -> bool {
    i + n <= words.len() && line_breaks(words, i, n) <= 1
}

/// A commodity name that starts at a given word, and how many words it has.
pub struct NameView {
    pub length: int,
    pub found: CommodityMatchView,
}

/// The best commodity name among the phrases of up to `n` words that start at
/// word `i`; the shortest of the equally good ones.
pub open spec fn name_at(
    reference: ReferenceView,
    words: Seq<WordView>,
    i: int,
    n: int,
) -> Option<NameView>
    decreases n,
{
    if n <= 0 {
        None
    } else {
        let before = name_at(reference, words, i, n - 1);
        if on_two_lines(words, i, n) {
            match query_of(phrase(words, i, n)) {
                Some(q) => match reference.best_commodity(q) {
                    Some(found) => if before is None || found.score > before->0.found.score {
                        Some(NameView { length: n, found })
                    } else {
                        before
                    },
                    None => before,
                },
                None => before,
            }
        } else {
            before
        }
    }
}

/// A name has at least one word, and they are all there.
pub proof fn lemma_name_length(reference: ReferenceView, words: Seq<WordView>, i: int, n: int)
    ensures
        name_at(reference, words, i, n) is Some ==> {
            let name = name_at(reference, words, i, n)->0;
            1 <= name.length <= n && i + name.length <= words.len()
        },
    decreases n,
{
    if n > 0 {
        lemma_name_length(reference, words, i, n - 1);
    }
}

/// The smallest left edge of the words from `from` up to `to`.
pub open spec fn left_edge(words: Seq<WordView>, from: int, to: int) -> int
    decreases to - from,
{
    if to <= from + 1 {
        words[from].left as int
    } else {
        let before = left_edge(words, from, to - 1);
        if words[to - 1].left < before {
            words[to - 1].left as int
        } else {
            before
        }
    }
}

/// A recognised commodity name and where it sits on the screen.
pub struct AnchorView {
    pub found: CommodityMatchView,
    /// The words that make up the name: the first, and the one behind the last.
    pub from: int,
    pub to: int,
    /// Left edge of the name.
    pub x: int,
    /// Vertical centre of the name.
    pub y: int,
    /// Height of the name, by which its card is sized.
    pub h: int,
}

/// The anchor of a name.
pub open spec fn anchor_of(words: Seq<WordView>, i: int, name: NameView) -> AnchorView {
    AnchorView {
        found: name.found,
        from: i,
        to: i + name.length,
        x: left_edge(words, i, i + name.length),
        y: words[i].center(),
        h: if words[i].height < 8 {
            8
        } else {
            words[i].height as int
        },
    }
}

/// The name that starts at word `i`, where the match is good enough.
pub open spec fn anchor_at(reference: ReferenceView, words: Seq<WordView>, i: int) -> Option<
    AnchorView,
> {
    match name_at(reference, words, i, 5) {
        Some(name) => if name.found.score >= 80 {
            Some(anchor_of(words, i, name))
        } else {
            None
        },
        None => None,
    }
}

/// The commodity names from word `i` on. No name starts inside another.
pub open spec fn anchors_from(reference: ReferenceView, words: Seq<WordView>, i: int) -> Seq<
    AnchorView,
>
    decreases words.len() - i,
{
    if i >= words.len() {
        Seq::empty()
    } else {
        proof {
            lemma_name_length(reference, words, i, 5);
        }
        match anchor_at(reference, words, i) {
            Some(anchor) => seq![anchor] + anchors_from(reference, words, anchor.to),
            None => anchors_from(reference, words, i + 1),
        }
    }
}

/// A recognised commodity name and where it sits on the screen.
struct Anchor {
    found: CommodityMatch,
    from: usize,
    to: usize,
    x: i64,
    y: i64,
    h: i64,
}

impl View for Anchor {
    type V = AnchorView;

    closed spec fn view(&self) -> AnchorView {
        AnchorView {
            found: self.found@,
            from: self.from as int,
            to: self.to as int,
            x: self.x as int,
            y: self.y as int,
            h: self.h as int,
        }
    }
}

/// The sizes that the coordinates of anchors can have.
spec fn in_range(a: Anchor) -> bool {
    &&& -0x8000_0000 <= a.x <= 0x7fff_ffff
    &&& -0x1_0000_0000 <= a.y <= 0x1_0000_0000
    &&& 8 <= a.h <= 0x7fff_ffff
}

fn find_name_at(reference: &Reference, words: &Vec<Word>, i: usize) -> (r: Option<
    (usize, CommodityMatch),
>)
    requires
        i < words@.len(),
    ensures
        match (r, name_at(reference@, views(words@), i as int, 5)) {
            (Some((length, found)), Some(name)) => length == name.length && found@ == name.found,
            (None, None) => true,
            _ => false,
        },
{
    let ghost all = views(words@);
    let mut best: Option<(usize, CommodityMatch)> = None;
    let mut text: Vec<char> = Vec::new();
    let mut breaks: usize = 0;
    let mut open = true;
    let mut n: usize = 0;
    while n < 5
        invariant
            n <= 5,
            i < words@.len(),
            all == views(words@),
            open == on_two_lines(all, i as int, n as int),
            open ==> text@ == phrase(all, i as int, n as int),
            open ==> breaks == line_breaks(all, i as int, n as int),
            match (best, name_at(reference@, all, i as int, n as int)) {
                (Some((length, found)), Some(name)) => length == name.length && found@
                    == name.found,
                (None, None) => true,
                _ => false,
            },
        decreases 5 - n,
    {
        if open && n < words.len() - i {
            assert(all[i + n] == words@[i + n]@);
            if n > 0 {
                assert(all[i + n - 1] == words@[i + n - 1]@);
                if !same_line(&words[i + n], &words[i + n - 1]) {
                    breaks += 1;
                }
            }
            assert(breaks == line_breaks(all, i as int, n + 1));
            if breaks > 1 {
                open = false;
            } else {
                extend_phrase(&mut text, words[i + n].text.as_str());
                assert(text@ == phrase(all, i as int, n + 1));
                if let Some(q) = query(&text) {
                    if let Some(found) = reference.best_commodity(q.as_str()) {
                        let better = match &best {
                            Some((_, other)) => found.score > other.score,
                            None => true,
                        };
                        if better {
                            best = Some((n + 1, found));
                        }
                    }
                }
            }
        } else {
            open = false;
        }
        n += 1;
    }
    best
}

fn least_left(words: &Vec<Word>, from: usize, to: usize) -> (x: i64)
    requires
        from < to <= words@.len(),
    ensures
        x == left_edge(views(words@), from as int, to as int),
        -0x8000_0000 <= x <= 0x7fff_ffff,
{
    let mut x: i64 = words[from].left as i64;
    let mut i: usize = from + 1;
    assert(views(words@)[from as int] == words@[from as int]@);
    while i < to
        invariant
            from < i <= to <= words@.len(),
            x == left_edge(views(words@), from as int, i as int),
            -0x8000_0000 <= x <= 0x7fff_ffff,
        decreases to - i,
    {
        assert(views(words@)[i as int] == words@[i as int]@);
        let left: i64 = words[i].left as i64;
        if left < x {
            x = left;
        }
        i += 1;
    }
    x
}

/// Finds the commodity names. A name may wrap onto a second line, so phrases of up
/// to five words on at most two lines are tried at every word.
fn find_anchors(reference: &Reference, words: &Vec<Word>) -> (anchors: Vec<Anchor>)
    ensures
        views(anchors@) == anchors_from(reference@, views(words@), 0),
        forall|k: int| 0 <= k < anchors@.len() ==> in_range(#[trigger] anchors@[k]),
{
    let ghost all = views(words@);
    let mut anchors: Vec<Anchor> = Vec::new();
    let mut i: usize = 0;
    assert(views(anchors@) =~= Seq::empty());
    assert(anchors_from(reference@, all, 0) =~= views(anchors@) + anchors_from(
        reference@,
        all,
        0,
    ));
    while i < words.len()
        invariant
            i <= words.len(),
            all == views(words@),
            anchors_from(reference@, all, 0) == views(anchors@) + anchors_from(
                reference@,
                all,
                i as int,
            ),
            forall|k: int| 0 <= k < anchors@.len() ==> in_range(#[trigger] anchors@[k]),
        decreases words.len() - i,
    {
        proof {
            lemma_name_length(reference@, all, i as int, 5);
            assert(all[i as int] == words@[i as int]@);
        }
        let mut step: usize = 1;
        match find_name_at(reference, words, i) {
            Some((length, found)) => {
                if found.score >= 80 {
                    let word = &words[i];
                    let anchor = Anchor {
                        found,
                        from: i,
                        to: i + length,
                        x: least_left(words, i, i + length),
                        y: word.center(),
                        h: if word.height < 8 {
                            8
                        } else {
                            word.height as i64
                        },
                    };
                    proof {
                        assert(anchor_at(reference@, all, i as int) == Some(anchor@));
                        lemma_views_push(anchors@, anchor);
                        assert(views(anchors@) + (seq![anchor@] + anchors_from(
                            reference@,
                            all,
                            i + length,
                        )) =~= views(anchors@).push(anchor@) + anchors_from(
                            reference@,
                            all,
                            i + length,
                        ));
                    }
                    anchors.push(anchor);
                    step = length;
                }
            },
            None => {},
        }
        i += step;
    }
    assert(views(anchors@) + anchors_from(reference@, all, i as int) =~= views(anchors@));
    anchors
}

/// The sorting keys of anchors: from top to bottom, then from left to right.
pub open spec fn anchor_keys(anchors: Seq<AnchorView>) -> Seq<Key> {
    Seq::new(anchors.len(), |k: int| (anchors[k].y as i64, anchors[k].x as i64))
}

/// The anchors from top to bottom.
pub open spec fn from_top(anchors: Seq<AnchorView>) -> Seq<AnchorView> {
    let order = stable_order(anchor_keys(anchors));
    Seq::new(anchors.len(), |k: int| anchors[order[k]])
}

/// The lowest centre that still belongs to the card of anchor `k`: a card spans a
/// few rows, and ends above the next anchor.
pub open spec fn card_bottom(anchors: Seq<AnchorView>, k: int) -> int {
    let a = anchors[k];
    let reach = a.y + 6 * a.h;
    if k + 1 < anchors.len() && anchors[k + 1].y - 1 < reach {
        anchors[k + 1].y - 1
    } else {
        reach
    }
}

/// Whether word `i` belongs to a card. What is to the left of the panel does not,
/// nor does the name itself.
pub open spec fn on_card(words: Seq<WordView>, i: int, a: AnchorView, bottom: int) -> bool {
    &&& !(a.from <= i < a.to)
    &&& a.y - a.h <= words[i].center() <= bottom
    &&& words[i].left >= a.x - 3 * a.h
}

/// The positions below `n` of the words on a card.
pub open spec fn card_positions(
    words: Seq<WordView>,
    a: AnchorView,
    bottom: int,
    n: int,
) -> Seq<int>
    decreases n,
{
    if n <= 0 {
        Seq::empty()
    } else if on_card(words, n - 1, a, bottom) {
        card_positions(words, a, bottom, n - 1).push(n - 1)
    } else {
        card_positions(words, a, bottom, n - 1)
    }
}

/// Seven tenths in single precision, in units of `2^-24`.
pub const SEVEN_TENTHS: u32 = 11_744_051;

/// The height of a row, in the same units: seven tenths of the height of the name, and
/// six at the least.
pub open spec fn row_height(h: nat) -> nat {
    let height = single(single(h) * SEVEN_TENTHS as nat);
    if height < 6 * 0x100_0000 {
        6 * 0x100_0000
    } else {
        height
    }
}

/// The row of a card that a centre falls in, counted in single precision. Rows are so
/// high that a difference of one pixel does not part a number from its unit.
pub open spec fn row_of(y: int, h: int) -> int {
    if y >= 0 {
        rounded_quotient(single(y as nat) * 0x100_0000, row_height(h as nat)) as int
    } else {
        -(rounded_quotient(single((-y) as nat) * 0x100_0000, row_height(h as nat)) as int)
    }
}

/// The sorting keys of the words on a card: by row, then from left to right.
pub open spec fn card_keys(words: Seq<WordView>, positions: Seq<int>, h: int) -> Seq<Key> {
    Seq::new(
        positions.len(),
        |k: int| (row_of(words[positions[k]].center(), h) as i64, words[positions[k]].left as i64),
    )
}

/// The words of a card in reading order.
pub open spec fn card_words(words: Seq<WordView>, a: AnchorView, bottom: int) -> Seq<WordView> {
    let positions = card_positions(words, a, bottom, words.len() as int);
    let order = stable_order(card_keys(words, positions, a.h));
    Seq::new(positions.len(), |k: int| words[positions[order[k]]])
}

/// The text of words, with blanks between.
pub open spec fn text_of_words(words: Seq<WordView>) -> Seq<char> {
    joined(Seq::new(words.len(), |k: int| words[k].text), blank())
}

/// Whether `s` holds a digit.
pub open spec fn holds_digit(s: Seq<char>) -> bool {
    exists|i: int| 0 <= i < s.len() && is_digit(#[trigger] s[i])
}

/// The confidence of the first word that holds a digit; 50 where there is none.
pub open spec fn digit_confidence(words: Seq<WordView>) -> u8
    decreases words.len(),
{
    if words.len() == 0 {
        50
    } else if holds_digit(words[0].text) {
        words[0].conf
    } else {
        digit_confidence(words.drop_first())
    }
}

/// Row number of a centre.
pub fn row_number(y: i64, h: i64) -> (r: i64)
    requires
        -0x1_0000_0000 <= y <= 0x1_0000_0000,
        8 <= h <= 0x7fff_ffff,
    ensures
        r == row_of(y as int, h as int),
{
    let pixels = to_single(h as u128);
    assert(pixels * SEVEN_TENTHS < 0x100_0000_0000_0000) by (nonlinear_arith)
        requires
            pixels <= 0x1_0000_0000,
            SEVEN_TENTHS == 11_744_051,
    ;
    let height = to_single(pixels * SEVEN_TENTHS as u128);
    let height: u128 = if height < 6 * 0x100_0000 {
        6 * 0x100_0000
    } else {
        height
    };
    let distance: u128 = if y >= 0 {
        y as u128
    } else {
        (-y) as u128
    };
    let row = divide_singles(to_single(distance) * 0x100_0000, height);
    if y >= 0 {
        row as i64
    } else {
        -(row as i64)
    }
}

fn is_on_card(word: &Word, i: usize, a: &Anchor, bottom: i64) -> (r: bool)
    requires
        in_range(*a),
    ensures
        forall|words: Seq<WordView>|
            0 <= i < words.len() && words[i as int] == word@ ==> r == #[trigger] on_card(
                words,
                i as int,
                a@,
                bottom as int,
            ),
{
    let y = word.center();
    !(a.from <= i && i < a.to) && a.y - a.h <= y && y <= bottom && word.left as i64 >= a.x - 3
        * a.h
}

/// Collects the words of a card in reading order.
fn collect_card(words: &Vec<Word>, a: &Anchor, bottom: i64) -> (card: Vec<Word>)
    requires
        in_range(*a),
    ensures
        views(card@) == card_words(views(words@), a@, bottom as int),
{
    let ghost all = views(words@);
    let mut positions: Vec<usize> = Vec::new();
    let mut keys: Vec<Key> = Vec::new();
    let mut i: usize = 0;
    assert(as_ints(positions@) =~= Seq::empty());
    assert(keys@ =~= card_keys(all, Seq::empty(), a@.h));
    while i < words.len()
        invariant
            i <= words.len(),
            all == views(words@),
            in_range(*a),
            as_ints(positions@) == card_positions(all, a@, bottom as int, i as int),
            keys@ == card_keys(all, as_ints(positions@), a@.h),
            forall|k: int| 0 <= k < positions@.len() ==> #[trigger] positions@[k] < i,
        decreases words.len() - i,
    {
        let word = &words[i];
        assert(all[i as int] == word@);
        if is_on_card(word, i, a, bottom) {
            let ghost before = as_ints(positions@);
            let ghost old_keys = keys@;
            positions.push(i);
            keys.push((row_number(word.center(), a.h), word.left as i64));
            proof {
                assert(as_ints(positions@) =~= before.push(i as int));
                assert(keys@ =~= card_keys(all, as_ints(positions@), a@.h));
            }
        }
        i += 1;
    }
    let order = sorted_positions(&keys);
    let ghost expected = card_words(all, a@, bottom as int);
    let mut card: Vec<Word> = Vec::new();
    let mut k: usize = 0;
    assert(views(card@) =~= Seq::empty());
    while k < order.len()
        invariant
            k <= order.len() == positions.len() == keys.len(),
            all == views(words@),
            expected == card_words(all, a@, bottom as int),
            as_ints(positions@) == card_positions(all, a@, bottom as int, words@.len() as int),
            keys@ == card_keys(all, as_ints(positions@), a@.h),
            forall|k: int| 0 <= k < positions@.len() ==> #[trigger] positions@[k] < words@.len(),
            is_stable_order(as_ints(order@), keys@),
            as_ints(order@) == stable_order(keys@),
            views(card@) == expected.take(k as int),
        decreases order.len() - k,
    {
        assert(as_ints(order@)[k as int] == order@[k as int]);
        let at = positions[order[k]];
        assert(as_ints(positions@)[order@[k as int] as int] == at);
        let word = words[at].clone();
        proof {
            lemma_views_push(card@, word);
            assert(expected[k as int] == word@);
            assert(expected.take(k + 1) =~= expected.take(k as int).push(word@));
        }
        card.push(word);
        k += 1;
    }
    assert(expected.take(k as int) =~= expected);
    card
}

/// The text of words, with blanks between.
fn words_text(words: &Vec<Word>) -> (r: String)
    ensures
        r@ == text_of_words(views(words@)),
{
    let ghost all = Seq::new(words@.len(), |k: int| views(words@)[k].text);
    let mut v: Vec<char> = Vec::new();
    let mut i: usize = 0;
    while i < words.len()
        invariant
            i <= words.len(),
            all == Seq::new(words@.len(), |k: int| views(words@)[k].text),
            v@ == joined(all.take(i as int), blank()),
        decreases words.len() - i,
    {
        proof {
            assert(all.take(i + 1).drop_last() =~= all.take(i as int));
            assert(all.take(i + 1).last() == words@[i as int].text@);
        }
        let ghost before = v@;
        if i > 0 {
            v.push(' ');
            assert(v@ =~= before + blank());
        }
        push_text(&mut v, words[i].text.as_str());
        i += 1;
    }
    assert(all.take(i as int) =~= all);
    assert(all =~= Seq::new(views(words@).len(), |k: int| views(words@)[k].text));
    string_of(&v)
}

fn has_digit(text: &str) -> (r: bool)
    ensures
        r == holds_digit(text@),
{
    let v = chars_of(text);
    let mut i: usize = 0;
    while i < v.len()
        invariant
            i <= v.len(),
            v@ == text@,
            forall|k: int| 0 <= k < i ==> !is_digit(#[trigger] v@[k]),
        decreases v.len() - i,
    {
        if digit(v[i]) {
            assert(is_digit(text@[i as int]));
            return true;
        }
        i += 1;
    }
    false
}

fn find_digit_confidence(words: &Vec<Word>) -> (conf: u8)
    ensures
        conf == digit_confidence(views(words@)),
{
    let ghost all = views(words@);
    let mut i: usize = 0;
    assert(all.skip(0) =~= all);
    while i < words.len()
        invariant
            i <= words.len(),
            all == views(words@),
            digit_confidence(all) == digit_confidence(all.skip(i as int)),
        decreases words.len() - i,
    {
        let word = &words[i];
        assert(all.skip(i as int)[0] == word@);
        if has_digit(word.text.as_str()) {
            return word.conf;
        }
        assert(all.skip(i as int).drop_first() =~= all.skip(i + 1));
        i += 1;
    }
    50
}

/// What was read off a card.
pub struct CardReading {
    /// Stock level from 1 to 7.
    pub status: Option<u8>,
    pub quantity: Option<u32>,
    pub price: Option<u32>,
    /// Confidence of the numbers.
    pub confidence: u8,
    /// What the ammunition size pattern captured.
    pub size_groups: Option<Vec<Option<String>>>,
}

/// What a [`CardReading`] stands for.
pub struct ReadingView {
    pub status: Option<u8>,
    pub quantity: Option<u32>,
    pub price: Option<u32>,
    pub confidence: u8,
    pub size_groups: Option<Seq<Option<Seq<char>>>>,
}

impl View for CardReading {
    type V = ReadingView;

    open spec fn view(&self) -> ReadingView {
        ReadingView {
            status: self.status,
            quantity: self.quantity,
            price: self.price,
            confidence: self.confidence,
            size_groups: groups_view(self.size_groups),
        }
    }
}

impl ReadingView {
    /// Nothing was read.
    pub open spec fn is_empty(self) -> bool {
        self.status is None && self.quantity is None && self.price is None
    }

    /// The confidence of the numbers, which is not 0: that would mean that they
    /// were not measured.
    pub open spec fn measured(self) -> u8 {
        if self.confidence < 1 {
            1
        } else {
            self.confidence
        }
    }

    /// The label of the stock level.
    pub open spec fn label(self) -> Option<Seq<char>> {
        match self.status {
            Some(status) => Some(level_label(status)),
            None => None,
        }
    }
}

/// The rows so far, and the last ammunition size.
pub struct RowsView {
    pub rows: Seq<CommodityView>,
    pub last_size: Option<u32>,
}

/// A new row.
pub open spec fn new_row(
    id: u32,
    name: Seq<char>,
    score: u8,
    reading: ReadingView,
) -> CommodityView {
    CommodityView {
        name,
        id_commodity: Some(id),
        name_confidence: score,
        quantity_scu: reading.quantity,
        quantity_confidence: if reading.quantity is Some {
            reading.measured()
        } else {
            0
        },
        stock_label: reading.label(),
        status: reading.status,
        price: reading.price,
        price_confidence: if reading.price is Some {
            reading.measured()
        } else {
            0
        },
        included: true,
    }
}

/// A row with what it lacks filled in from a second card of its commodity.
pub open spec fn filled_row(row: CommodityView, reading: ReadingView) -> CommodityView {
    let price = reading.price is Some && row.price is None;
    let quantity = reading.quantity is Some && row.quantity_scu is None;
    CommodityView {
        price: if price {
            reading.price
        } else {
            row.price
        },
        price_confidence: if price {
            reading.measured()
        } else {
            row.price_confidence
        },
        quantity_scu: if quantity {
            reading.quantity
        } else {
            row.quantity_scu
        },
        quantity_confidence: if quantity {
            reading.measured()
        } else {
            row.quantity_confidence
        },
        status: if row.status is None {
            reading.status
        } else {
            row.status
        },
        stock_label: if row.status is None {
            reading.label()
        } else {
            row.stock_label
        },
        ..row
    }
}

/// The rows after one more card. A card on which nothing was read is a stray match
/// of a name; a second card of the commodity above it fills that row.
pub open spec fn rows_with(
    before: RowsView,
    found: CommodityMatchView,
    reading: ReadingView,
) -> RowsView {
    if reading.is_empty() {
        before
    } else {
        let resolved = resolved_ammo(
            found.id,
            found.name,
            reading.size_groups,
            before.last_size,
        );
        let rows = if before.rows.len() > 0 && before.rows.last().id_commodity == Some(
            resolved.id,
        ) {
            before.rows.drop_last().push(filled_row(before.rows.last(), reading))
        } else {
            before.rows.push(new_row(resolved.id, resolved.name, found.score, reading))
        };
        RowsView { rows, last_size: resolved.last }
    }
}

/// A copy of the label of a stock level.
fn label_of(status: Option<u8>) -> (r: Option<String>)
    ensures
        text_of(r) == match status {
            Some(status) => Some(level_label(status)),
            None => None,
        },
{
    match status {
        Some(status) => Some(status_label(status).to_owned()),
        None => None,
    }
}

/// Fills in what a row lacks.
fn fill_row(row: &mut Commodity, reading: &CardReading)
    ensures
        final(row)@ == filled_row(old(row)@, reading@),
{
    let measured: u8 = if reading.confidence < 1 {
        1
    } else {
        reading.confidence
    };
    if reading.price.is_some() && row.price.is_none() {
        row.price = reading.price;
        row.price_confidence = measured;
    }
    if reading.quantity.is_some() && row.quantity_scu.is_none() {
        row.quantity_scu = reading.quantity;
        row.quantity_confidence = measured;
    }
    if row.status.is_none() {
        row.status = reading.status;
        row.stock_label = label_of(reading.status);
    }
}

/// Adds what was read off the card of a commodity to the rows.
pub fn add_card(
    rows: &mut Vec<Commodity>,
    last_size: &mut Option<u32>,
    found: &CommodityMatch,
    reading: &CardReading,
)
    requires
        *old(last_size) != Some(u32::MAX),
    ensures
        (RowsView { rows: views(final(rows)@), last_size: *final(last_size) }) == rows_with(
            (RowsView { rows: views(old(rows)@), last_size: *old(last_size) }),
            found@,
            reading@,
        ),
        match *final(last_size) {
            Some(size) => size <= 7 || *old(last_size) == Some(size),
            None => true,
        },
{
    if reading.status.is_none() && reading.quantity.is_none() && reading.price.is_none() {
        return;
    }
    let ghost before = views(rows@);
    let (id, name) = ship_ammo_from(found.id, found.name.as_str(), &reading.size_groups, last_size);
    if rows.len() > 0 {
        let at: usize = rows.len() - 1;
        assert(before.last() == rows@[at as int]@);
        if rows[at].id_commodity == Some(id) {
            let mut row = rows[at].clone();
            fill_row(&mut row, reading);
            rows.set(at, row);
            assert(views(rows@) =~= before.drop_last().push(row@));
            return;
        }
    }
    let measured: u8 = if reading.confidence < 1 {
        1
    } else {
        reading.confidence
    };
    let mut row = Commodity::new(name.as_str());
    row.id_commodity = Some(id);
    row.name_confidence = found.score;
    row.quantity_scu = reading.quantity;
    row.quantity_confidence = if reading.quantity.is_some() {
        measured
    } else {
        0
    };
    row.stock_label = label_of(reading.status);
    row.status = reading.status;
    row.price = reading.price;
    row.price_confidence = if reading.price.is_some() {
        measured
    } else {
        0
    };
    assert(row@ == new_row(id, name@, found.score, reading@));
    proof {
        lemma_views_push(rows@, row);
    }
    rows.push(row);
}

/// What is read off the words of a card.
pub open spec fn reading_of(card: Seq<WordView>) -> ReadingView {
    let all = text_of_words(card);
    let text = before_cargo_sizes(all);
    ReadingView {
        status: card_stock(text),
        quantity: quantity_in(text),
        price: match price_in(text) {
            Some(price) => Some(price.value),
            None => None,
        },
        confidence: digit_confidence(card),
        size_groups: regex_groups(AMMO_SIZE@, all),
    }
}

/// Reads a card.
fn read_card(card: &Vec<Word>) -> (r: CardReading)
    ensures
        r@ == reading_of(views(card@)),
{
    let all = words_text(card);
    // The container sizes are listed below quantity and price; without the cut
    // they could be taken for the quantity.
    let text = truncate_before_cargo_sizes(all.as_str());
    CardReading {
        status: match resolve_stock(text.as_str()) {
            Some((_, status)) => Some(status),
            None => None,
        },
        quantity: find_quantity(text.as_str()),
        price: match find_price(text.as_str()) {
            Some(price) => Some(price.value),
            None => None,
        },
        confidence: find_digit_confidence(card),
        size_groups: captures(AMMO_SIZE, all.as_str()),
    }
}

/// The rows that the first `n` anchors, from top to bottom, give.
pub open spec fn rows_from(words: Seq<WordView>, anchors: Seq<AnchorView>, n: int) -> RowsView
    decreases n,
{
    if n <= 0 {
        RowsView { rows: Seq::empty(), last_size: None }
    } else {
        rows_with(
            rows_from(words, anchors, n - 1),
            anchors[n - 1].found,
            reading_of(card_words(words, anchors[n - 1], card_bottom(anchors, n - 1))),
        )
    }
}

/// The commodity rows that the words show.
pub open spec fn commodities_of(reference: ReferenceView, words: Seq<WordView>) -> Seq<
    CommodityView,
> {
    let anchors = from_top(anchors_from(reference, words, 0));
    rows_from(words, anchors, anchors.len() as int).rows
}

/// Gives each anchor its stock level, quantity and price from the words in a band
/// below the name and within the same panel column.
fn extract_commodities(reference: &Reference, words: &Vec<Word>) -> (rows: Vec<Commodity>)
    ensures
        views(rows@) == commodities_of(reference@, views(words@)),
{
    let ghost all = views(words@);
    let anchors = find_anchors(reference, words);
    let ghost found = views(anchors@);
    let ghost sorted = from_top(found);
    let mut keys: Vec<Key> = Vec::new();
    let mut i: usize = 0;
    while i < anchors.len()
        invariant
            i <= anchors.len(),
            found == views(anchors@),
            forall|k: int| 0 <= k < anchors@.len() ==> in_range(#[trigger] anchors@[k]),
            keys@ == anchor_keys(found).take(i as int),
        decreases anchors.len() - i,
    {
        let a = &anchors[i];
        assert(found[i as int] == a@);
        keys.push((a.y, a.x));
        assert(anchor_keys(found).take(i + 1) =~= anchor_keys(found).take(i as int).push(
            anchor_keys(found)[i as int],
        ));
        i += 1;
    }
    assert(anchor_keys(found).take(i as int) =~= anchor_keys(found));
    let order = sorted_positions(&keys);
    let mut rows: Vec<Commodity> = Vec::new();
    let mut last_size: Option<u32> = None;
    let mut k: usize = 0;
    assert(views(rows@) =~= Seq::empty());
    while k < order.len()
        invariant
            k <= order.len() == anchors.len(),
            all == views(words@),
            found == views(anchors@),
            sorted == from_top(found),
            forall|k: int| 0 <= k < anchors@.len() ==> in_range(#[trigger] anchors@[k]),
            keys@ == anchor_keys(found),
            is_stable_order(as_ints(order@), keys@),
            as_ints(order@) == stable_order(keys@),
            (RowsView { rows: views(rows@), last_size }) == rows_from(all, sorted, k as int),
            last_size is Some ==> last_size->0 <= 7,
        decreases order.len() - k,
    {
        assert(as_ints(order@)[k as int] == order@[k as int]);
        let a = &anchors[order[k]];
        assert(sorted[k as int] == a@);
        let mut bottom: i64 = a.y + 6 * a.h;
        if k + 1 < order.len() {
            assert(as_ints(order@)[k + 1] == order@[k + 1]);
            let next = &anchors[order[k + 1]];
            assert(sorted[k + 1] == next@);
            if next.y - 1 < bottom {
                bottom = next.y - 1;
            }
        }
        assert(bottom == card_bottom(sorted, k as int));
        let card = collect_card(words, a, bottom);
        let reading = read_card(&card);
        add_card(&mut rows, &mut last_size, &a.found, &reading);
        k += 1;
    }
    rows
}

/// What the words of a screenshot show.
pub open spec fn extraction_of(
    reference: ReferenceView,
    words: Seq<WordView>,
    screenshot: Seq<char>,
    captured_at: Option<i64>,
) -> ExtractionView {
    let terminal = terminal_of(reference, words);
    ExtractionView {
        screenshot,
        terminal_name: match terminal {
            Some(t) => Some(t.name),
            None => None,
        },
        id_terminal: match terminal {
            Some(t) => Some(t.id),
            None => None,
        },
        terminal_confidence: match terminal {
            Some(t) => t.score,
            None => 0,
        },
        terminal_candidates: match terminal {
            Some(t) => t.candidates,
            None => Seq::empty(),
        },
        terminal_type: Some(type_of(words)),
        commodities: commodities_of(reference, unlabelled(words, words.len() as int)),
        captured_at,
    }
}

/// Extracts everything that the words of a screenshot show.
pub fn extract(
    reference: &Reference,
    words: &[Word],
    screenshot: &str,
    captured_at: Option<i64>,
) -> (r: Extraction)
    ensures
        r@ == extraction_of(reference@, views(words@), screenshot@, captured_at),
{
    let mut r = Extraction::new(screenshot);
    r.captured_at = captured_at;
    if let Some(t) = detect_terminal(reference, words) {
        r.terminal_name = Some(t.name);
        r.id_terminal = Some(t.id);
        r.terminal_confidence = t.score;
        r.terminal_candidates = t.candidates;
    }
    let (terminal_type, _) = detect_type(words);
    r.terminal_type = Some(terminal_type);
    r.commodities = extract_commodities(reference, &without_labels(words));
    r
}

/// The terminal is on the list.
pub open spec fn lists_terminal(reference: ReferenceView, id: u32, name: Seq<char>) -> bool {
    exists|i: int|
        0 <= i < reference.terminals.len() && (#[trigger] reference.terminals[i]).id == id
            && reference.terminals[i].name == name
}

/// The commodity is on the list.
pub open spec fn lists_commodity(reference: ReferenceView, id: u32, name: Seq<char>) -> bool {
    exists|i: int|
        0 <= i < reference.commodities.len() && (#[trigger] reference.commodities[i]).id == id
            && reference.commodities[i].name == name
}

/// The commodity is ship ammunition of some size.
pub open spec fn names_sized_ammo(id: u32, name: Seq<char>) -> bool {
    exists|size: nat|
        1 <= size <= 7 && id == 200 + size && name == "Ship Ammunition - Size "@
            + #[trigger] decimal(size)
}

proof fn lemma_terminal_at_is_listed(
    reference: ReferenceView,
    words: Seq<WordView>,
    i: int,
    n: int,
)
    ensures
        match terminal_at(reference, words, i, n) {
            Some(t) => lists_terminal(reference, t.id, t.name),
            None => true,
        },
    decreases n,
{
    if n > 0 {
        lemma_terminal_at_is_listed(reference, words, i, n - 1);
        if reference.terminals.len() > 0 {
            if let Some(q) = query_of(phrase(words, i, n)) {
                let scores = reference.terminal_scores(q);
                lemma_stable_order_exists(ranking_keys(scores));
                let first = reference.terminal_ranking(q)[0];
                assert(0 <= first < reference.terminals.len());
                assert(reference.terminals[first].id == reference.terminals[first].id);
            }
        }
    }
}

proof fn lemma_terminal_is_listed(reference: ReferenceView, words: Seq<WordView>, n: int)
    ensures
        match terminal_among(reference, words, n) {
            Some(t) => lists_terminal(reference, t.id, t.name),
            None => true,
        },
    decreases n,
{
    if n > 0 {
        lemma_terminal_is_listed(reference, words, n - 1);
        lemma_terminal_at_is_listed(reference, words, n - 1, 4);
    }
}

/// An extracted terminal is one of the list, with a confidence of 55 or more; and
/// where none was found, nothing is said of it.
pub proof fn law_terminal_is_listed(
    reference: ReferenceView,
    words: Seq<WordView>,
    screenshot: Seq<char>,
    captured_at: Option<i64>,
)
    ensures
        ({
            let e = extraction_of(reference, words, screenshot, captured_at);
            match (e.id_terminal, e.terminal_name) {
                (Some(id), Some(name)) => e.terminal_confidence >= 55 && lists_terminal(
                    reference,
                    id,
                    name,
                ),
                (None, None) => e.terminal_confidence == 0 && e.terminal_candidates.len() == 0,
                _ => false,
            }
        }),
{
    lemma_terminal_is_listed(reference, words, words.len() as int);
}

/// The screen is a buy terminal exactly where a "SHOP QUANTITY" label starts at
/// some word.
pub proof fn law_buy_means_shop_quantity(words: Seq<WordView>)
    ensures
        type_of(words) == TerminalType::Buy <==> exists|i: int|
            0 <= i < words.len() && #[trigger] label_starts(uppers(words), i),
{
    lemma_label_count(uppers(words), words.len() as int);
}

proof fn lemma_label_count(up: Seq<Seq<char>>, n: int)
    ensures
        label_count(up, n) > 0 <==> exists|i: int| 0 <= i < n && #[trigger] label_starts(up, i),
    decreases n,
{
    if n > 0 {
        lemma_label_count(up, n - 1);
        if label_starts(up, n - 1) {
            assert(label_count(up, n) > 0);
        } else if label_count(up, n - 1) > 0 {
            let i = choose|i: int| 0 <= i < n - 1 && #[trigger] label_starts(up, i);
            assert(label_starts(up, i));
        }
    }
}

/// A commodity name that is good enough and on the list.
pub open spec fn good_anchor(reference: ReferenceView, a: AnchorView) -> bool {
    a.found.score >= 80 && lists_commodity(reference, a.found.id, a.found.name)
}

proof fn lemma_name_is_listed(reference: ReferenceView, words: Seq<WordView>, i: int, n: int)
    ensures
        match name_at(reference, words, i, n) {
            Some(name) => lists_commodity(reference, name.found.id, name.found.name),
            None => true,
        },
    decreases n,
{
    if n > 0 {
        lemma_name_is_listed(reference, words, i, n - 1);
        if reference.commodities.len() > 0 {
            if let Some(q) = query_of(phrase(words, i, n)) {
                let scores = scores_of(q, reference.commodity_names());
                lemma_best_exists(scores);
                let at = best_position(scores);
                assert(reference.commodities[at].id == reference.commodities[at].id);
            }
        }
    }
}

/// Names do not overlap and follow each other, and each is good enough and on the
/// list.
pub proof fn law_names_do_not_overlap(reference: ReferenceView, words: Seq<WordView>, i: int)
    requires
        0 <= i,
    ensures
        ({
            let anchors = anchors_from(reference, words, i);
            &&& forall|k: int|
                0 <= k < anchors.len() ==> good_anchor(reference, #[trigger] anchors[k]) && i
                    <= anchors[k].from < anchors[k].to <= words.len()
            &&& forall|k: int, l: int|
                0 <= k < l < anchors.len() ==> (#[trigger] anchors[k]).to <= (
                #[trigger] anchors[l]).from
        }),
    decreases words.len() - i,
{
    if i < words.len() {
        lemma_name_length(reference, words, i, 5);
        lemma_name_is_listed(reference, words, i, 5);
        let anchors = anchors_from(reference, words, i);
        match anchor_at(reference, words, i) {
            Some(anchor) => {
                law_names_do_not_overlap(reference, words, anchor.to);
                let rest = anchors_from(reference, words, anchor.to);
                assert forall|k: int| 0 <= k < anchors.len() implies good_anchor(
                    reference,
                    #[trigger] anchors[k],
                ) && i <= anchors[k].from < anchors[k].to <= words.len() by {
                    if k > 0 {
                        assert(anchors[k] == rest[k - 1]);
                    }
                }
                assert forall|k: int, l: int| 0 <= k < l < anchors.len() implies (
                #[trigger] anchors[k]).to <= (#[trigger] anchors[l]).from by {
                    assert(anchors[l] == rest[l - 1]);
                    if k > 0 {
                        assert(anchors[k] == rest[k - 1]);
                    }
                }
            },
            None => {
                law_names_do_not_overlap(reference, words, i + 1);
                assert(anchors == anchors_from(reference, words, i + 1));
                assert forall|k: int| 0 <= k < anchors.len() implies good_anchor(
                    reference,
                    #[trigger] anchors[k],
                ) && i <= anchors[k].from < anchors[k].to <= words.len() by {}
            },
        }
    }
}

/// Anchors are taken from top to bottom.
pub proof fn law_anchors_go_down(anchors: Seq<AnchorView>, k: int, l: int)
    requires
        forall|k: int|
            0 <= k < anchors.len() ==> i64::MIN <= (#[trigger] anchors[k]).y <= i64::MAX,
        0 <= k < l < anchors.len(),
    ensures
        from_top(anchors)[k].y <= from_top(anchors)[l].y,
{
    let keys = anchor_keys(anchors);
    lemma_stable_order_exists(keys);
    let order = stable_order(keys);
    assert(precedes(keys, order[k], order[l]));
}

/// A row with a known commodity, a good name and some supporting value, each
/// value with a confidence exactly where it is there.
pub open spec fn supported(row: CommodityView) -> bool {
    &&& row.id_commodity is Some
    &&& row.included
    &&& row.name_confidence >= 80
    &&& row.status is Some || row.quantity_scu is Some || row.price is Some
    &&& row.quantity_scu is Some <==> row.quantity_confidence > 0
    &&& row.price is Some <==> row.price_confidence > 0
    &&& match row.status {
        Some(status) => 1 <= status <= 7 && row.stock_label == Some(level_label(status)),
        None => row.stock_label is None,
    }
}

/// A row has the id and the name of one commodity on the list that is no ship ammunition,
/// or of ship ammunition of some size.
pub open spec fn known(reference: ReferenceView, row: CommodityView) -> bool {
    match row.id_commodity {
        Some(id) => if starts_with(row.name, "Ship Ammunition"@) {
            names_sized_ammo(id, row.name)
        } else {
            lists_commodity(reference, id, row.name)
        },
        None => false,
    }
}

/// No two neighbouring rows are of one commodity.
pub open spec fn neighbours_differ(rows: Seq<CommodityView>) -> bool {
    forall|k: int|
        0 < k < rows.len() ==> rows[k - 1].id_commodity != (#[trigger] rows[k]).id_commodity
}

proof fn lemma_stock_range(text: Seq<char>)
    ensures
        match card_stock(text) {
            Some(status) => 1 <= status <= 7,
            None => true,
        },
{
    if stock_status(text) is None {
        if let Some(at) = position_of(lower(text), "inventory"@) {
            let before = words(text.take(at));
            let one = before.last();
            let two = before[before.len() - 2] + blank() + before.last();
            lemma_best_exists(scores_of(one, level_keys()));
            lemma_best_exists(scores_of(two, level_keys()));
        }
    }
}

/// What a listed commodity becomes when its ammunition size is resolved.
proof fn lemma_resolved_is_known(
    reference: ReferenceView,
    id: u32,
    name: Seq<char>,
    groups: Option<Seq<Option<Seq<char>>>>,
    last: Option<u32>,
)
    requires
        lists_commodity(reference, id, name),
    ensures
        ({
            let resolved = resolved_ammo(id, name, groups, last);
            if starts_with(resolved.name, "Ship Ammunition"@) {
                names_sized_ammo(resolved.id, resolved.name)
            } else {
                lists_commodity(reference, resolved.id, resolved.name)
            }
        }),
{
    if starts_with(name, "Ship Ammunition"@) {
        reveal_strlit("Ship Ammunition");
        reveal_strlit("Ship Ammunition - Size ");
        let size = ammo_size(name, groups, last) as nat;
        let sized = "Ship Ammunition - Size "@ + decimal(size);
        assert(sized.subrange(0, 15) =~= "Ship Ammunition"@);
        assert(names_sized_ammo((200 + size) as u32, sized));
    }
}

proof fn lemma_rows(
    reference: ReferenceView,
    words: Seq<WordView>,
    anchors: Seq<AnchorView>,
    n: int,
)
    requires
        0 <= n <= anchors.len(),
        forall|k: int| 0 <= k < anchors.len() ==> good_anchor(reference, #[trigger] anchors[k]),
    ensures
        ({
            let rows = rows_from(words, anchors, n).rows;
            &&& forall|k: int|
                0 <= k < rows.len() ==> supported(#[trigger] rows[k]) && known(reference, rows[k])
            &&& neighbours_differ(rows)
        }),
    decreases n,
{
    if n > 0 {
        lemma_rows(reference, words, anchors, n - 1);
        let before = rows_from(words, anchors, n - 1);
        let card = card_words(words, anchors[n - 1], card_bottom(anchors, n - 1));
        let reading = reading_of(card);
        lemma_stock_range(before_cargo_sizes(text_of_words(card)));
        let found = anchors[n - 1].found;
        assert(good_anchor(reference, anchors[n - 1]));
        lemma_resolved_is_known(
            reference,
            found.id,
            found.name,
            reading.size_groups,
            before.last_size,
        );
        let after = rows_with(before, found, reading);
        assert forall|k: int| 0 <= k < after.rows.len() implies supported(
            #[trigger] after.rows[k],
        ) && known(reference, after.rows[k]) by {
            if k < before.rows.len() {
                assert(supported(before.rows[k]) && known(reference, before.rows[k]));
            }
        }
        assert forall|k: int| 0 < k < after.rows.len() implies after.rows[k - 1].id_commodity != (
        #[trigger] after.rows[k]).id_commodity by {
            if k < before.rows.len() {
                assert(before.rows[k - 1].id_commodity != before.rows[k].id_commodity);
            }
        }
    }
}

/// Every extracted row has the id and the name of a commodity that is on the list or is
/// sized ammunition, a good name and some supporting value, with confidences exactly where there
/// are values; and no two neighbouring rows are of one commodity.
pub proof fn law_rows_are_supported(
    reference: ReferenceView,
    words: Seq<WordView>,
    screenshot: Seq<char>,
    captured_at: Option<i64>,
)
    ensures
        ({
            let rows = extraction_of(reference, words, screenshot, captured_at).commodities;
            &&& forall|k: int|
                0 <= k < rows.len() ==> supported(#[trigger] rows[k]) && known(reference, rows[k])
            &&& neighbours_differ(rows)
        }),
{
    let kept = unlabelled(words, words.len() as int);
    let anchors = anchors_from(reference, kept, 0);
    law_names_do_not_overlap(reference, kept, 0);
    let keys = anchor_keys(anchors);
    lemma_stable_order_exists(keys);
    let sorted = from_top(anchors);
    assert forall|k: int| 0 <= k < sorted.len() implies good_anchor(
        reference,
        #[trigger] sorted[k],
    ) by {
        assert(0 <= stable_order(keys)[k] < anchors.len());
    }
    lemma_rows(reference, kept, sorted, sorted.len() as int);
}

} // verus!
