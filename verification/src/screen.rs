//! What holds of everything that is read off a screen: which phrases name its terminal
//! and its commodities, which words belong to a commodity, and what its row takes from
//! them.

use vstd::prelude::*;

use crate::card::{before_cargo_sizes, resolved_ammo};
use crate::extract::{
    anchor_at, anchor_keys, anchors_from, better_terminal, card_bottom, card_keys, card_positions,
    card_words, commodities_of, compact_upper, extraction_of, from_top, holds_digit, in_label,
    label_starts, law_buy_means_shop_quantity, left_edge, lemma_name_length, line_breaks, name_at,
    on_card, on_one_line, on_two_lines, phrase, query_of, reading_of, row_of, rows_from, rows_with,
    terminal_among, terminal_at, terminal_of, text_of_words, unlabelled, uppers, AnchorView,
    ReadingView, RowsView,
};
use crate::model::TerminalType;
use crate::ocr::WordView;
use crate::order::{lemma_stable_order_exists, precedes, stable_order};
use crate::reference::{CommodityMatchView, ReferenceView, TerminalMatchView};
use crate::status::level_label;
use crate::text::{byte_len, is_white, joined, occurs, trim, trim_start, upper};

verus! {

/// The texts of `n` words from `i` on, with one blank between each two, and nothing
/// around them.
pub open spec fn shown_text(words: Seq<WordView>, i: int, n: int) -> Seq<char> {
    trim(joined(Seq::new(n as nat, |k: int| words[i + k].text), seq![' ']))
}

/// The words from `i` on, `n` of them, may name a terminal: one to four words of one line
/// that have three bytes or more.
pub open spec fn may_name_terminal(words: Seq<WordView>, i: int, n: int) -> bool {
    &&& 0 <= i
    &&& 1 <= n <= 4
    &&& i + n <= words.len()
    &&& forall|j: int| i <= j < i + n ==> (#[trigger] words[j]).line == words[i].line
    &&& byte_len(shown_text(words, i, n)) >= 3
}

/// The words from `i` on, `n` of them, may name a commodity: one to five words that have
/// three bytes or more and stand on one line, or on two lines one after the other.
pub open spec fn may_name_commodity(words: Seq<WordView>, i: int, n: int) -> bool {
    &&& 0 <= i
    &&& 1 <= n <= 5
    &&& i + n <= words.len()
    &&& exists|m: int| #[trigger] splits_at(words, i, n, m)
    &&& byte_len(shown_text(words, i, n)) >= 3
}

/// The first `m` of the words stand on one line, and so do the others.
pub open spec fn splits_at(words: Seq<WordView>, i: int, n: int, m: int) -> bool {
    &&& 1 <= m <= n
    &&& forall|j: int| i <= j < i + m ==> (#[trigger] words[j]).line == words[i].line
    &&& forall|j: int| i + m <= j < i + n ==> (#[trigger] words[j]).line == words[i + n - 1].line
}

proof fn lemma_trim_start_blanks(p: Seq<char>, s: Seq<char>)
    requires
        forall|k: int| 0 <= k < p.len() ==> is_white(#[trigger] p[k]),
    ensures
        trim_start(p + s) == trim_start(s),
    decreases p.len(),
{
    if p.len() == 0 {
        assert(p + s =~= s);
    } else {
        assert((p + s)[0] == p[0]);
        assert((p + s).skip(1) =~= p.skip(1) + s);
        assert((p + s).drop_first() =~= p.skip(1) + s);
        assert forall|k: int| 0 <= k < p.skip(1).len() implies is_white(#[trigger] p.skip(1)[k]) by {
            assert(p.skip(1)[k] == p[k + 1]);
        }
        lemma_trim_start_blanks(p.skip(1), s);
    }
}

/// A phrase is the joined texts without leading blanks.
proof fn lemma_phrase_blanks(words: Seq<WordView>, i: int, n: int) -> (p: Seq<char>)
    requires
        n >= 1,
    ensures
        forall|k: int| 0 <= k < p.len() ==> is_white(#[trigger] p[k]),
        joined(Seq::new(n as nat, |k: int| words[i + k].text), seq![' ']) == p + phrase(
            words,
            i,
            n,
        ),
    decreases n,
{
    let all = Seq::new(n as nat, |k: int| words[i + k].text);
    let whole = joined(all, seq![' ']);
    if n == 1 {
        assert(phrase(words, i, 0) =~= Seq::empty());
        assert(phrase(words, i, 1) =~= words[i].text);
        assert(whole == all[0]);
        assert(whole =~= Seq::empty() + phrase(words, i, 1));
        Seq::empty()
    } else {
        let p = lemma_phrase_blanks(words, i, n - 1);
        let before = Seq::new((n - 1) as nat, |k: int| words[i + k].text);
        assert(all.drop_last() =~= before);
        assert(all.last() == words[i + n - 1].text);
        let start = phrase(words, i, n - 1);
        if start.len() == 0 {
            let q = p.push(' ');
            assert(whole =~= q + phrase(words, i, n));
            q
        } else {
            assert(whole =~= p + phrase(words, i, n));
            p
        }
    }
}

proof fn lemma_shown_text(words: Seq<WordView>, i: int, n: int)
    requires
        n >= 1,
    ensures
        shown_text(words, i, n) == trim(phrase(words, i, n)),
        query_of(phrase(words, i, n)) == if byte_len(shown_text(words, i, n)) >= 3 {
            Some(shown_text(words, i, n))
        } else {
            None
        },
{
    let p = lemma_phrase_blanks(words, i, n);
    lemma_trim_start_blanks(p, phrase(words, i, n));
}

/// One phrase comes before another: it starts earlier, or it is shorter.
pub open spec fn tried_before(i: int, n: int, j: int, m: int) -> bool {
    i < j || (i == j && n < m)
}

/// What the words from `i` on, `n` of them, match among the terminals.
pub open spec fn terminal_match(
    reference: ReferenceView,
    words: Seq<WordView>,
    i: int,
    n: int,
) -> TerminalMatchView {
    reference.best_terminal(shown_text(words, i, n))->0
}

/// `found` is the best of the phrases that are tried before the given one.
spec fn best_so_far(
    reference: ReferenceView,
    words: Seq<WordView>,
    found: Option<TerminalMatchView>,
    j: int,
    m: int,
) -> bool {
    match found {
        Some(found) => {
            &&& exists|i: int, n: int| #[trigger]
                is_first_best(reference, words, found, i, n) && tried_before(i, n, j, m)
            &&& forall|i: int, n: int| #[trigger]
                may_name_terminal(words, i, n) && tried_before(i, n, j, m) ==> terminal_match(
                    reference,
                    words,
                    i,
                    n,
                ).score <= found.score
        },
        None => forall|i: int, n: int| #[trigger]
            may_name_terminal(words, i, n) ==> !tried_before(i, n, j, m),
    }
}

/// `found` is what a phrase matches, and every phrase that is tried before it matches
/// less.
pub open spec fn is_first_best(
    reference: ReferenceView,
    words: Seq<WordView>,
    found: TerminalMatchView,
    i: int,
    n: int,
) -> bool {
    &&& may_name_terminal(words, i, n)
    &&& terminal_match(reference, words, i, n) == found
    &&& forall|j: int, m: int| #[trigger]
        may_name_terminal(words, j, m) && tried_before(j, m, i, n) ==> terminal_match(
            reference,
            words,
            j,
            m,
        ).score < found.score
}

proof fn lemma_terminal_step(
    reference: ReferenceView,
    words: Seq<WordView>,
    before: Option<TerminalMatchView>,
    i: int,
    n: int,
)
    requires
        reference.terminals.len() > 0,
        0 <= i < words.len(),
        1 <= n <= 4,
        best_so_far(reference, words, before, i, n),
    ensures
        best_so_far(
            reference,
            words,
            if may_name_terminal(words, i, n) {
                better_terminal(before, Some(terminal_match(reference, words, i, n)))
            } else {
                before
            },
            i,
            n + 1,
        ),
{
    assert(forall|j: int, m: int|
        tried_before(j, m, i, n + 1) <==> tried_before(j, m, i, n) || (j == i && m == n));
    if may_name_terminal(words, i, n) {
        let found = terminal_match(reference, words, i, n);
        if before is None || found.score > before->0.score {
            assert(is_first_best(reference, words, found, i, n));
        } else {
            let (j, m) = choose|j: int, m: int| #[trigger]
                is_first_best(reference, words, before->0, j, m) && tried_before(j, m, i, n);
            assert(is_first_best(reference, words, before->0, j, m) && tried_before(
                j,
                m,
                i,
                n + 1,
            ));
        }
    } else if before is Some {
        let (j, m) = choose|j: int, m: int| #[trigger]
            is_first_best(reference, words, before->0, j, m) && tried_before(j, m, i, n);
        assert(is_first_best(reference, words, before->0, j, m) && tried_before(j, m, i, n + 1));
    }
}

proof fn lemma_terminal_among(reference: ReferenceView, words: Seq<WordView>, i: int, n: int)
    requires
        reference.terminals.len() > 0,
        0 <= i <= words.len(),
        0 <= n <= 4,
        i == words.len() ==> n == 0,
    ensures
        best_so_far(
            reference,
            words,
            better_terminal(
                terminal_among(reference, words, i),
                terminal_at(reference, words, i, n),
            ),
            i,
            n + 1,
        ),
    decreases i, n,
{
    let before = terminal_among(reference, words, i);
    if n > 0 {
        lemma_terminal_among(reference, words, i, n - 1);
        let here = terminal_at(reference, words, i, n - 1);
        lemma_terminal_step(reference, words, better_terminal(before, here), i, n);
        lemma_shown_text(words, i, n);
        assert(on_one_line(words, i, n) && query_of(phrase(words, i, n)) is Some
            <==> may_name_terminal(words, i, n));
    } else if i > 0 {
        lemma_terminal_among(reference, words, i - 1, 4);
        assert(terminal_at(reference, words, i, 0) is None);
        let found = before;
        assert(forall|j: int, m: int|
            may_name_terminal(words, j, m) ==> (#[trigger] tried_before(j, m, i - 1, 5)
                <==> tried_before(j, m, i, 1)));
        if found is Some {
            let (j, m) = choose|j: int, m: int| #[trigger]
                is_first_best(reference, words, found->0, j, m) && tried_before(j, m, i - 1, 5);
            assert(is_first_best(reference, words, found->0, j, m) && tried_before(j, m, i, 1));
            assert forall|j: int, m: int| #[trigger]
                may_name_terminal(words, j, m) && tried_before(j, m, i, 1) implies terminal_match(
                reference,
                words,
                j,
                m,
            ).score <= found->0.score by {
                assert(tried_before(j, m, i - 1, 5));
            }
        } else {
            assert forall|j: int, m: int| #[trigger]
                may_name_terminal(words, j, m) implies !tried_before(j, m, i, 1) by {
                assert(!tried_before(j, m, i - 1, 5));
            }
        }
    } else {
        assert forall|j: int, m: int| #[trigger] may_name_terminal(words, j, m) implies !tried_before(
            j,
            m,
            0,
            1,
        ) by {}
    }
}

proof fn lemma_no_terminals(reference: ReferenceView, words: Seq<WordView>, i: int, n: int)
    requires
        reference.terminals.len() == 0,
    ensures
        terminal_among(reference, words, i) is None,
        terminal_at(reference, words, i, n) is None,
    decreases i, n,
{
    if n > 0 {
        lemma_no_terminals(reference, words, i, n - 1);
    }
    if i > 0 {
        lemma_no_terminals(reference, words, i - 1, 4);
    }
}

/// The terminal of an extraction is the best match of all phrases that may name one, and
/// of the phrases that match as well the first one's. There is one exactly where some
/// phrase matches with 55 or more.
pub proof fn law_terminal_is_the_best_match(
    reference: ReferenceView,
    words: Seq<WordView>,
    screenshot: Seq<char>,
    captured_at: Option<i64>,
)
    ensures
        ({
            let e = extraction_of(reference, words, screenshot, captured_at);
            &&& e.id_terminal is Some ==> reference.terminals.len() > 0 && exists|i: int, n: int|
                #![trigger terminal_match(reference, words, i, n)]
                {
                    let found = terminal_match(reference, words, i, n);
                    &&& is_first_best(reference, words, found, i, n)
                    &&& e.id_terminal == Some(found.id)
                    &&& e.terminal_name == Some(found.name)
                    &&& e.terminal_confidence == found.score
                    &&& e.terminal_candidates == found.candidates
                }
            &&& forall|i: int, n: int| #[trigger]
                may_name_terminal(words, i, n) && reference.terminals.len() > 0 && terminal_match(
                    reference,
                    words,
                    i,
                    n,
                ).score >= 55 ==> e.id_terminal is Some && terminal_match(
                    reference,
                    words,
                    i,
                    n,
                ).score <= e.terminal_confidence
            &&& e.id_terminal is Some ==> e.terminal_confidence >= 55
            &&& terminal_of(reference, words) is Some <==> e.id_terminal is Some
        }),
{
    let all = words.len() as int;
    let e = extraction_of(reference, words, screenshot, captured_at);
    if reference.terminals.len() == 0 {
        lemma_no_terminals(reference, words, all, 0);
    } else {
        lemma_terminal_among(reference, words, all, 0);
        let found = terminal_among(reference, words, all);
        assert(terminal_at(reference, words, all, 0) is None);
        assert(better_terminal(found, None) == found);
        assert forall|i: int, n: int| #[trigger]
            may_name_terminal(words, i, n) && reference.terminals.len() > 0 implies found is Some
            && terminal_match(reference, words, i, n).score <= found->0.score by {
            assert(tried_before(i, n, all, 1));
        }
        if e.id_terminal is Some {
            let (i, n) = choose|i: int, n: int| #[trigger]
                is_first_best(reference, words, found->0, i, n) && tried_before(i, n, all, 1);
            assert(terminal_match(reference, words, i, n) == found->0);
            assert(is_first_best(
                reference,
                words,
                terminal_match(reference, words, i, n),
                i,
                n,
            ));
        }
    }
}

/// Words stand on at most two lines where there is at most one break among them.
proof fn lemma_two_lines(words: Seq<WordView>, i: int, n: int)
    requires
        0 <= i,
        1 <= n,
        i + n <= words.len(),
    ensures
        line_breaks(words, i, n) <= 1 <==> exists|m: int| #[trigger] splits_at(words, i, n, m),
        line_breaks(words, i, n) == 0 <==> splits_at(words, i, n, n),
    decreases n,
{
    if n == 1 {
        assert(splits_at(words, i, 1, 1));
    } else {
        lemma_two_lines(words, i, n - 1);
        let last = words[i + n - 1].line;
        let before = words[i + n - 2].line;
        if line_breaks(words, i, n) == 0 {
            assert(splits_at(words, i, n - 1, n - 1));
            assert(words[i + n - 2].line == words[i].line);
            assert(splits_at(words, i, n, n));
        } else if line_breaks(words, i, n) <= 1 {
            if last != before {
                assert(splits_at(words, i, n - 1, n - 1));
                assert(splits_at(words, i, n, n - 1));
            } else {
                let m = choose|m: int| #[trigger] splits_at(words, i, n - 1, m);
                assert(splits_at(words, i, n, m));
            }
        }
        if exists|m: int| #[trigger] splits_at(words, i, n, m) {
            let m = choose|m: int| #[trigger] splits_at(words, i, n, m);
            if m == n {
                assert(words[i + n - 1].line == words[i].line);
                assert(words[i + n - 2].line == words[i].line);
                assert(splits_at(words, i, n - 1, n - 1));
            } else if m == n - 1 {
                assert(splits_at(words, i, n - 1, n - 1));
            } else {
                assert(words[i + n - 2].line == words[i + n - 1].line);
                assert(splits_at(words, i, n - 1, m));
            }
        }
        if splits_at(words, i, n, n) {
            assert(words[i + n - 1].line == words[i].line);
            assert(words[i + n - 2].line == words[i].line);
            assert(splits_at(words, i, n - 1, n - 1));
        }
    }
}

/// What the words from `i` on, `n` of them, match among the commodities.
pub open spec fn commodity_match(
    reference: ReferenceView,
    words: Seq<WordView>,
    i: int,
    n: int,
) -> CommodityMatchView {
    reference.best_commodity(shown_text(words, i, n))->0
}

proof fn lemma_name(reference: ReferenceView, words: Seq<WordView>, i: int, n: int)
    requires
        reference.commodities.len() > 0,
        0 <= i < words.len(),
        0 <= n <= 5,
    ensures
        match name_at(reference, words, i, n) {
            Some(name) => {
                &&& name.length <= n
                &&& may_name_commodity(words, i, name.length)
                &&& name.found == commodity_match(reference, words, i, name.length)
                &&& forall|m: int|
                    m <= n && #[trigger] may_name_commodity(words, i, m) ==> {
                        let score = commodity_match(reference, words, i, m).score;
                        score <= name.found.score && (m < name.length ==> score < name.found.score)
                    }
            },
            None => forall|m: int| m <= n ==> !#[trigger] may_name_commodity(words, i, m),
        },
    decreases n,
{
    if n > 0 {
        lemma_name(reference, words, i, n - 1);
        lemma_shown_text(words, i, n);
        if i + n <= words.len() {
            lemma_two_lines(words, i, n);
        }
        assert(on_two_lines(words, i, n) && query_of(phrase(words, i, n)) is Some
            <==> may_name_commodity(words, i, n));
    }
}

proof fn lemma_no_commodities(reference: ReferenceView, words: Seq<WordView>, i: int, n: int)
    requires
        reference.commodities.len() == 0,
    ensures
        name_at(reference, words, i, n) is None,
    decreases n,
{
    if n > 0 {
        lemma_no_commodities(reference, words, i, n - 1);
    }
}

/// An anchor is the best match, with 80 or more, of the phrases that start at its first
/// word, and the shortest of those that match as well. It sits where its words do: it
/// starts at the leftmost of them, and has the centre and the height of the first, which
/// counts as 8 at the least.
pub open spec fn is_best_name(
    reference: ReferenceView,
    words: Seq<WordView>,
    a: AnchorView,
) -> bool {
    &&& may_name_commodity(words, a.from, a.to - a.from)
    &&& a.found == commodity_match(reference, words, a.from, a.to - a.from)
    &&& a.found.score >= 80
    &&& forall|n: int| #[trigger]
        may_name_commodity(words, a.from, n) ==> {
            let score = commodity_match(reference, words, a.from, n).score;
            score <= a.found.score && (n < a.to - a.from ==> score < a.found.score)
        }
    &&& forall|j: int| a.from <= j < a.to ==> a.x <= (#[trigger] words[j]).left
    &&& exists|j: int| a.from <= j < a.to && a.x == (#[trigger] words[j]).left
    &&& a.y == words[a.from].center()
    &&& a.h >= 8 && a.h >= words[a.from].height
    &&& a.h == 8 || a.h == words[a.from].height
}

proof fn lemma_left_edge(words: Seq<WordView>, from: int, to: int)
    requires
        0 <= from < to <= words.len(),
    ensures
        forall|j: int|
            from <= j < to ==> left_edge(words, from, to) <= (
            #[trigger] words[j]).left,
        exists|j: int|
            from <= j < to && left_edge(words, from, to) == (
            #[trigger] words[j]).left,
    decreases to - from,
{
    if to > from + 1 {
        lemma_left_edge(words, from, to - 1);
        let before = left_edge(words, from, to - 1);
        let j = choose|j: int| from <= j < to - 1 && before == (#[trigger] words[j]).left;
        let here = if words[to - 1].left < before {
            to - 1
        } else {
            j
        };
        assert(left_edge(words, from, to) == words[here].left);
    } else {
        assert(left_edge(words, from, to) == words[from].left);
    }
}

/// A word is part of some name.
pub open spec fn is_in_name(anchors: Seq<AnchorView>, i: int) -> bool {
    exists|k: int|
        0 <= k < anchors.len() && (#[trigger] anchors[k]).from <= i && i < anchors[k].to
}

#[verifier::rlimit(40)]
#[verifier::spinoff_prover]
proof fn lemma_anchor(reference: ReferenceView, words: Seq<WordView>, i: int)
    requires
        0 <= i < words.len(),
    ensures
        match anchor_at(reference, words, i) {
            Some(anchor) => {
                &&& is_best_name(reference, words, anchor)
                &&& anchor.from == i
                &&& i < anchor.to <= words.len()
            },
            None => forall|n: int| #[trigger]
                may_name_commodity(words, i, n) && reference.commodities.len() > 0
                    ==> commodity_match(reference, words, i, n).score < 80,
        },
{
    lemma_name_length(reference, words, i, 5);
    if reference.commodities.len() > 0 {
        lemma_name(reference, words, i, 5);
    } else {
        lemma_no_commodities(reference, words, i, 5);
    }
    if let Some(anchor) = anchor_at(reference, words, i) {
        lemma_left_edge(words, i, anchor.to);
        let j = choose|j: int| i <= j < anchor.to && anchor.x == (#[trigger] words[j]).left;
        assert(anchor.x == words[j].left);
        assert forall|n: int| #[trigger] may_name_commodity(words, anchor.from, n) implies {
            let score = commodity_match(reference, words, anchor.from, n).score;
            score <= anchor.found.score && (n < anchor.to - anchor.from ==> score
                < anchor.found.score)
        } by {
            assert(may_name_commodity(words, i, n));
        }
    }
}

#[verifier::rlimit(60)]
#[verifier::spinoff_prover]
proof fn lemma_names_from(reference: ReferenceView, words: Seq<WordView>, from: int)
    requires
        0 <= from,
    ensures
        ({
            let anchors = anchors_from(reference, words, from);
            &&& forall|k: int|
                0 <= k < anchors.len() ==> is_best_name(reference, words, #[trigger] anchors[k])
            &&& forall|i: int, n: int| #[trigger]
                may_name_commodity(words, i, n) && from <= i && reference.commodities.len() > 0
                    && commodity_match(reference, words, i, n).score >= 80 ==> is_in_name(
                    anchors,
                    i,
                )
        }),
    decreases words.len() - from,
{
    let anchors = anchors_from(reference, words, from);
    if from < words.len() {
        lemma_anchor(reference, words, from);
        match anchor_at(reference, words, from) {
            Some(anchor) => {
                lemma_names_from(reference, words, anchor.to);
                let rest = anchors_from(reference, words, anchor.to);
                assert(anchors[0] == anchor);
                assert forall|k: int| 0 <= k < anchors.len() implies is_best_name(
                    reference,
                    words,
                    #[trigger] anchors[k],
                ) by {
                    if k > 0 {
                        assert(anchors[k] == rest[k - 1]);
                    }
                }
                assert forall|i: int, n: int| #[trigger]
                    may_name_commodity(words, i, n) && from <= i && reference.commodities.len() > 0
                        && commodity_match(reference, words, i, n).score >= 80 implies is_in_name(
                    anchors,
                    i,
                ) by {
                    if i < anchor.to {
                        assert(anchors[0].from <= i && i < anchors[0].to);
                    } else {
                        assert(is_in_name(rest, i));
                        let k = choose|k: int|
                            0 <= k < rest.len() && (#[trigger] rest[k]).from <= i && i < rest[k].to;
                        assert(anchors[k + 1] == rest[k]);
                    }
                }
            },
            None => {
                lemma_names_from(reference, words, from + 1);
                assert(anchors == anchors_from(reference, words, from + 1));
            },
        }
    }
}

/// The commodity names are the best matches of the phrases that may name one; and where a
/// phrase matches with 80 or more, its first word is part of a name.
pub proof fn law_names_are_the_best_matches(reference: ReferenceView, words: Seq<WordView>)
    ensures
        ({
            let anchors = anchors_from(reference, words, 0);
            &&& forall|k: int|
                0 <= k < anchors.len() ==> is_best_name(reference, words, #[trigger] anchors[k])
            &&& forall|i: int, n: int| #[trigger]
                may_name_commodity(words, i, n) && reference.commodities.len() > 0
                    && commodity_match(reference, words, i, n).score >= 80 ==> is_in_name(
                    anchors,
                    i,
                )
        }),
{
    lemma_names_from(reference, words, 0);
}

/// A word is printed on the card of anchor `k`: it is not part of the name, it is centred
/// at most the height of the name above the name and six heights below it, above the next
/// name, and it starts at most three heights to the left of the name.
pub open spec fn is_printed_on(
    words: Seq<WordView>,
    anchors: Seq<AnchorView>,
    k: int,
    i: int,
) -> bool {
    let a = anchors[k];
    &&& 0 <= i < words.len()
    &&& i < a.from || a.to <= i
    &&& a.y - words[i].center() <= a.h
    &&& words[i].center() - a.y <= 6 * a.h
    &&& k + 1 < anchors.len() ==> words[i].center() < anchors[k + 1].y
    &&& a.x - words[i].left <= 3 * a.h
}

/// `positions` lists the words that are printed on the card of anchor `k`, each once, row
/// by row and in each row from left to right.
pub open spec fn lists_card(
    words: Seq<WordView>,
    anchors: Seq<AnchorView>,
    k: int,
    positions: Seq<int>,
) -> bool {
    &&& forall|i: int| #[trigger] positions.contains(i) <==> is_printed_on(words, anchors, k, i)
    &&& forall|m: int, l: int|
        0 <= m < l < positions.len() ==> reads_before(
            words,
            anchors[k].h,
            #[trigger] positions[m],
            #[trigger] positions[l],
        )
}

/// Word `i` is read before word `j`: it stands in a higher row, or in the same row further
/// left, or at the same place and was recognised first.
pub open spec fn reads_before(words: Seq<WordView>, h: int, i: int, j: int) -> bool {
    let p = row_of(words[i].center(), h) as i64;
    let q = row_of(words[j].center(), h) as i64;
    p < q || (p == q && (words[i].left < words[j].left || (words[i].left == words[j].left && i
        < j)))
}

/// The words at the given positions.
pub open spec fn at_positions(words: Seq<WordView>, positions: Seq<int>) -> Seq<WordView> {
    Seq::new(positions.len(), |m: int| words[positions[m]])
}

proof fn lemma_card_positions(
    words: Seq<WordView>,
    anchors: Seq<AnchorView>,
    k: int,
    n: int,
)
    requires
        0 <= n <= words.len(),
    ensures
        ({
            let found = card_positions(words, anchors[k], card_bottom(anchors, k), n);
            &&& forall|i: int| #[trigger]
                found.contains(i) <==> i < n && is_printed_on(words, anchors, k, i)
            &&& forall|m: int, l: int|
                0 <= m < l < found.len() ==> #[trigger] found[m] < #[trigger] found[l]
        }),
    decreases n,
{
    let bottom = card_bottom(anchors, k);
    let found = card_positions(words, anchors[k], bottom, n);
    if n > 0 {
        lemma_card_positions(words, anchors, k, n - 1);
        let before = card_positions(words, anchors[k], bottom, n - 1);
        assert(on_card(words, n - 1, anchors[k], bottom) <==> is_printed_on(
            words,
            anchors,
            k,
            n - 1,
        ));
        if on_card(words, n - 1, anchors[k], bottom) {
            assert(found[before.len() as int] == n - 1);
            assert forall|i: int| #[trigger] found.contains(i) <==> before.contains(i) || i == n
                - 1 by {
                if before.contains(i) {
                    let m = choose|m: int| 0 <= m < before.len() && before[m] == i;
                    assert(found[m] == i);
                }
            }
            assert forall|m: int| 0 <= m < before.len() implies #[trigger] before[m] < n - 1 by {
                assert(before.contains(before[m]));
            }
        }
    }
}

proof fn lemma_card(words: Seq<WordView>, anchors: Seq<AnchorView>, k: int) -> (positions: Seq<int>)
    ensures
        lists_card(words, anchors, k, positions),
        card_words(words, anchors[k], card_bottom(anchors, k)) == at_positions(words, positions),
{
    let a = anchors[k];
    let found = card_positions(words, a, card_bottom(anchors, k), words.len() as int);
    lemma_card_positions(words, anchors, k, words.len() as int);
    let keys = card_keys(words, found, a.h);
    lemma_stable_order_exists(keys);
    let order = stable_order(keys);
    let positions = Seq::new(found.len(), |m: int| found[order[m]]);
    assert forall|i: int| #[trigger] positions.contains(i) <==> is_printed_on(
        words,
        anchors,
        k,
        i,
    ) by {
        if positions.contains(i) {
            let m = choose|m: int| 0 <= m < positions.len() && positions[m] == i;
            assert(found[order[m]] == i);
            assert(found.contains(i));
        }
        if is_printed_on(words, anchors, k, i) {
            assert(found.contains(i));
            let m = choose|m: int| 0 <= m < found.len() && found[m] == i;
            assert(order.contains(m));
            let l = choose|l: int| 0 <= l < order.len() && order[l] == m;
            assert(positions[l] == i);
        }
    }
    assert forall|m: int, l: int| 0 <= m < l < positions.len() implies reads_before(
        words,
        a.h,
        #[trigger] positions[m],
        #[trigger] positions[l],
    ) by {
        assert(precedes(keys, order[m], order[l]));
    }
    assert(card_words(words, a, card_bottom(anchors, k)) =~= at_positions(words, positions));
    positions
}

/// What one more card does to the rows: where nothing was read off it, nothing. Otherwise
/// it gives the last row, which is a new one unless the row above it is of the same
/// commodity; that one keeps what it has, and gets what it lacks.
pub open spec fn takes_card(
    before: RowsView,
    found: CommodityMatchView,
    reading: ReadingView,
    after: RowsView,
) -> bool {
    let resolved = resolved_ammo(found.id, found.name, reading.size_groups, before.last_size);
    let again = before.rows.len() > 0 && before.rows.last().id_commodity == Some(resolved.id);
    let old_row = before.rows.last();
    let row = after.rows.last();
    if reading.status is None && reading.quantity is None && reading.price is None {
        after == before
    } else {
        &&& after.last_size == resolved.last
        &&& after.rows.len() == if again {
            before.rows.len()
        } else {
            before.rows.len() + 1
        }
        &&& forall|m: int|
            0 <= m < after.rows.len() - 1 ==> #[trigger] after.rows[m] == before.rows[m]
        &&& row.id_commodity == Some(resolved.id)
        &&& if again {
            row.name == old_row.name && row.name_confidence == old_row.name_confidence
                && row.included == old_row.included
        } else {
            row.name == resolved.name && row.name_confidence == found.score && row.included
        }
        &&& if again && old_row.quantity_scu is Some {
            row.quantity_scu == old_row.quantity_scu && row.quantity_confidence
                == old_row.quantity_confidence
        } else {
            row.quantity_scu == reading.quantity && (reading.quantity is Some
                ==> row.quantity_confidence >= 1 && row.quantity_confidence >= reading.confidence
                && (row.quantity_confidence == 1 || row.quantity_confidence == reading.confidence))
        }
        &&& if again && old_row.price is Some {
            row.price == old_row.price && row.price_confidence == old_row.price_confidence
        } else {
            row.price == reading.price && (reading.price is Some ==> row.price_confidence >= 1
                && row.price_confidence >= reading.confidence && (row.price_confidence == 1
                || row.price_confidence == reading.confidence))
        }
        &&& if again && old_row.status is Some {
            row.status == old_row.status && row.stock_label == old_row.stock_label
        } else {
            row.status == reading.status && match reading.status {
                Some(status) => row.stock_label == Some(level_label(status)),
                None => row.stock_label is None,
            }
        }
    }
}

/// Each row is read off the words that are printed on its card, and off no others. So
/// what is printed below the next name never counts for a commodity.
pub proof fn law_rows_are_read_off_their_cards(
    words: Seq<WordView>,
    anchors: Seq<AnchorView>,
    k: int,
)
    requires
        0 <= k < anchors.len(),
    ensures
        exists|positions: Seq<int>|
            {
                &&& #[trigger] lists_card(words, anchors, k, positions)
                &&& takes_card(
                    rows_from(words, anchors, k),
                    anchors[k].found,
                    reading_of(at_positions(words, positions)),
                    rows_from(words, anchors, k + 1),
                )
            },
{
    let positions = lemma_card(words, anchors, k);
    let before = rows_from(words, anchors, k);
    let after = rows_from(words, anchors, k + 1);
    let reading = reading_of(at_positions(words, positions));
    assert(after == rows_with(before, anchors[k].found, reading));
    assert(takes_card(before, anchors[k].found, reading, after));
    assert(lists_card(words, anchors, k, positions));
}

/// The two lists of words differ only in words that are printed on no card of the first
/// `n` anchors.
pub open spec fn same_cards(
    words: Seq<WordView>,
    other: Seq<WordView>,
    anchors: Seq<AnchorView>,
    n: int,
) -> bool {
    &&& words.len() == other.len()
    &&& forall|i: int, k: int|
        0 <= i < words.len() && 0 <= k < n && #[trigger] words[i] != #[trigger] other[i]
            ==> !#[trigger] is_printed_on(words, anchors, k, i) && !is_printed_on(
            other,
            anchors,
            k,
            i,
        )
}

proof fn lemma_same_positions(
    words: Seq<WordView>,
    other: Seq<WordView>,
    anchors: Seq<AnchorView>,
    k: int,
    n: int,
)
    requires
        same_cards(words, other, anchors, k + 1),
        0 <= k,
        0 <= n <= words.len(),
    ensures
        ({
            let bottom = card_bottom(anchors, k);
            let found = card_positions(words, anchors[k], bottom, n);
            &&& found == card_positions(other, anchors[k], bottom, n)
            &&& forall|m: int|
                0 <= m < found.len() ==> 0 <= #[trigger] found[m] < words.len() && words[found[m]]
                    == other[found[m]]
        }),
    decreases n,
{
    if n > 0 {
        lemma_same_positions(words, other, anchors, k, n - 1);
        let bottom = card_bottom(anchors, k);
        assert(on_card(words, n - 1, anchors[k], bottom) <==> is_printed_on(
            words,
            anchors,
            k,
            n - 1,
        ));
        assert(on_card(other, n - 1, anchors[k], bottom) <==> is_printed_on(
            other,
            anchors,
            k,
            n - 1,
        ));
        if words[n - 1] != other[n - 1] {
            assert(!is_printed_on(words, anchors, k, n - 1));
        }
    }
}

/// Words that are printed on no card change nothing, whatever they say.
pub proof fn law_other_words_do_not_count(
    words: Seq<WordView>,
    other: Seq<WordView>,
    anchors: Seq<AnchorView>,
    n: int,
)
    requires
        0 <= n <= anchors.len(),
        same_cards(words, other, anchors, n),
    ensures
        rows_from(words, anchors, n) == rows_from(other, anchors, n),
    decreases n,
{
    if n > 0 {
        let k = n - 1;
        law_other_words_do_not_count(words, other, anchors, k);
        lemma_same_positions(words, other, anchors, k, words.len() as int);
        let bottom = card_bottom(anchors, k);
        let found = card_positions(words, anchors[k], bottom, words.len() as int);
        assert(card_keys(words, found, anchors[k].h) =~= card_keys(other, found, anchors[k].h));
        lemma_stable_order_exists(card_keys(words, found, anchors[k].h));
        assert(card_words(words, anchors[k], bottom) =~= card_words(other, anchors[k], bottom));
    }
}

/// What is printed from a name on downwards does not change the rows of the commodities
/// above it.
pub proof fn law_lower_cards_do_not_count(
    words: Seq<WordView>,
    other: Seq<WordView>,
    anchors: Seq<AnchorView>,
    n: int,
)
    requires
        0 <= n < anchors.len(),
        forall|k: int, l: int|
            0 <= k < l < anchors.len() ==> (#[trigger] anchors[k]).y <= (#[trigger] anchors[l]).y,
        words.len() == other.len(),
        forall|i: int|
            0 <= i < words.len() ==> #[trigger] words[i] == #[trigger] other[i] || (
            words[i].center() >= anchors[n].y && other[i].center() >= anchors[n].y),
    ensures
        rows_from(words, anchors, n) == rows_from(other, anchors, n),
{
    assert forall|i: int, k: int|
        0 <= i < words.len() && 0 <= k < n && #[trigger] words[i] != #[trigger] other[i] implies
        !#[trigger] is_printed_on(words, anchors, k, i) && !is_printed_on(
        other,
        anchors,
        k,
        i,
    ) by {
        assert(anchors[k + 1].y <= anchors[n].y) by {
            if k + 1 < n {
                assert(anchors[k + 1].y <= anchors[n].y);
            }
        }
    }
    law_other_words_do_not_count(words, other, anchors, n);
}

/// Where a name can sit.
proof fn lemma_name_places(reference: ReferenceView, words: Seq<WordView>)
    ensures
        forall|k: int|
            0 <= k < anchors_from(reference, words, 0).len() ==> {
                &&& i64::MIN <= (#[trigger] anchors_from(reference, words, 0)[k]).y <= i64::MAX
                &&& i64::MIN <= anchors_from(reference, words, 0)[k].x <= i64::MAX
            },
{
    law_names_are_the_best_matches(reference, words);
    let names = anchors_from(reference, words, 0);
    assert forall|k: int| 0 <= k < names.len() implies {
        &&& i64::MIN <= (#[trigger] names[k]).y <= i64::MAX
        &&& i64::MIN <= names[k].x <= i64::MAX
    } by {
        let a = names[k];
        assert(is_best_name(reference, words, a));
        let j = choose|j: int| a.from <= j < a.to && a.x == (#[trigger] words[j]).left;
        assert(a.x == words[j].left);
    }
}

proof fn lemma_from_top(names: Seq<AnchorView>)
    requires
        forall|k: int|
            0 <= k < names.len() ==> {
                &&& i64::MIN <= (#[trigger] names[k]).y <= i64::MAX
                &&& i64::MIN <= names[k].x <= i64::MAX
            },
    ensures
        ({
            let anchors = from_top(names);
            &&& anchors.len() == names.len()
            &&& forall|a: AnchorView| #[trigger] anchors.contains(a) <==> names.contains(a)
            &&& forall|k: int, l: int|
                0 <= k < l < anchors.len() ==> {
                    ||| (#[trigger] anchors[k]).y < (#[trigger] anchors[l]).y
                    ||| anchors[k].y == anchors[l].y && anchors[k].x <= anchors[l].x
                }
        }),
{
    let anchors = from_top(names);
    let keys = anchor_keys(names);
    lemma_stable_order_exists(keys);
    let order = stable_order(keys);
    assert forall|a: AnchorView| #[trigger] anchors.contains(a) <==> names.contains(a) by {
        if anchors.contains(a) {
            let m = choose|m: int| 0 <= m < anchors.len() && anchors[m] == a;
            assert(names[order[m]] == a);
        }
        if names.contains(a) {
            let k = choose|k: int| 0 <= k < names.len() && names[k] == a;
            assert(order.contains(k));
            let m = choose|m: int| 0 <= m < order.len() && order[m] == k;
            assert(anchors[m] == a);
        }
    }
    assert forall|k: int, l: int| 0 <= k < l < anchors.len() implies {
        ||| (#[trigger] anchors[k]).y < (#[trigger] anchors[l]).y
        ||| anchors[k].y == anchors[l].y && anchors[k].x <= anchors[l].x
    } by {
        assert(precedes(keys, order[k], order[l]));
        assert(anchors[k] == names[order[k]] && anchors[l] == names[order[l]]);
    }
}

/// The anchors of an extraction are the names, from top to bottom, and at one height from
/// left to right; and the rows are those of all their cards.
pub proof fn law_every_name_gets_its_card(reference: ReferenceView, words: Seq<WordView>)
    ensures
        ({
            let names = anchors_from(reference, words, 0);
            let anchors = from_top(names);
            &&& commodities_of(reference, words) == rows_from(
                words,
                anchors,
                names.len() as int,
            ).rows
            &&& anchors.len() == names.len()
            &&& forall|a: AnchorView| #[trigger] anchors.contains(a) <==> names.contains(a)
            &&& forall|k: int, l: int|
                0 <= k < l < anchors.len() ==> {
                    ||| (#[trigger] anchors[k]).y < (#[trigger] anchors[l]).y
                    ||| anchors[k].y == anchors[l].y && anchors[k].x <= anchors[l].x
                }
        }),
{
    lemma_name_places(reference, words);
    lemma_from_top(anchors_from(reference, words, 0));
}

/// The confidence of what is read is that of the first word that holds a digit, and 50
/// where none does.
pub proof fn law_confidence_is_the_first_numbers(card: Seq<WordView>)
    ensures
        forall|i: int|
            0 <= i < card.len() && holds_digit((#[trigger] card[i]).text) && (forall|j: int|
                0 <= j < i ==> !holds_digit((#[trigger] card[j]).text))
                ==> reading_of(card).confidence == card[i].conf,
        (forall|j: int| 0 <= j < card.len() ==> !holds_digit((#[trigger] card[j]).text))
            ==> reading_of(card).confidence == 50,
    decreases card.len(),
{
    if card.len() > 0 {
        let rest = card.drop_first();
        law_confidence_is_the_first_numbers(rest);
        assert(forall|j: int| 0 <= j < rest.len() ==> #[trigger] rest[j] == card[j + 1]);
        if !holds_digit(card[0].text) {
            assert forall|i: int|
                0 <= i < card.len() && holds_digit((#[trigger] card[i]).text) && (forall|j: int|
                    0 <= j < i ==> !holds_digit((#[trigger] card[j]).text)) implies reading_of(
                card,
            ).confidence == card[i].conf by {
                assert(rest[i - 1] == card[i]);
            }
            if forall|j: int| 0 <= j < card.len() ==> !holds_digit((#[trigger] card[j]).text) {
                assert forall|j: int| 0 <= j < rest.len() implies !holds_digit(
                    (#[trigger] rest[j]).text,
                ) by {
                    assert(rest[j] == card[j + 1]);
                }
            }
        }
    }
}

/// The container sizes that are listed below the quantity do not count: cards that say the
/// same up to there have the same stock level, quantity and price.
pub proof fn law_cargo_sizes_do_not_count(card: Seq<WordView>, other: Seq<WordView>)
    requires
        before_cargo_sizes(text_of_words(card)) == before_cargo_sizes(text_of_words(other)),
    ensures
        reading_of(card).status == reading_of(other).status,
        reading_of(card).quantity == reading_of(other).quantity,
        reading_of(card).price == reading_of(other).price,
{
}

/// A "SHOP QUANTITY" label starts at word `i`: the two are one word, but for what is no
/// letter or digit, or a word with "SHOP" is followed by one with "QUANTITY".
pub open spec fn is_label_at(words: Seq<WordView>, i: int) -> bool {
    &&& 0 <= i < words.len()
    &&& {
        ||| compact_upper(upper(words[i].text)) == "SHOPQUANTITY"@
        ||| i + 1 < words.len() && occurs(upper(words[i].text), "SHOP"@) && occurs(
            upper(words[i + 1].text),
            "QUANTITY"@,
        )
    }
}

/// Word `i` is part of a label: one starts there, or its second word stands there.
pub open spec fn is_label_word(words: Seq<WordView>, i: int) -> bool {
    ||| is_label_at(words, i)
    ||| 0 < i < words.len() && occurs(upper(words[i - 1].text), "SHOP"@) && occurs(
        upper(words[i].text),
        "QUANTITY"@,
    )
}

/// `positions` lists the words that are part of no label, in their order.
pub open spec fn lists_unlabelled(words: Seq<WordView>, n: int, positions: Seq<int>) -> bool {
    &&& forall|i: int| #[trigger]
        positions.contains(i) <==> 0 <= i < n && !is_label_word(words, i)
    &&& forall|m: int, l: int|
        0 <= m < l < positions.len() ==> #[trigger] positions[m] < #[trigger] positions[l]
}

proof fn lemma_unlabelled(words: Seq<WordView>, n: int) -> (positions: Seq<int>)
    requires
        0 <= n <= words.len(),
    ensures
        lists_unlabelled(words, n, positions),
        unlabelled(words, n) == at_positions(words, positions),
    decreases n,
{
    if n == 0 {
        assert(unlabelled(words, 0) =~= at_positions(words, Seq::empty()));
        Seq::empty()
    } else {
        let before = lemma_unlabelled(words, n - 1);
        let up = uppers(words);
        assert(up[n - 1] == upper(words[n - 1].text));
        if n < words.len() {
            assert(up[n] == upper(words[n].text));
        }
        if n > 1 {
            assert(up[n - 2] == upper(words[n - 2].text));
        }
        assert(in_label(up, n - 1) <==> is_label_word(words, n - 1));
        if in_label(up, n - 1) {
            before
        } else {
            let positions = before.push(n - 1);
            assert(positions[before.len() as int] == n - 1);
            assert forall|i: int| #[trigger] positions.contains(i) <==> before.contains(i) || i == n
                - 1 by {
                if before.contains(i) {
                    let m = choose|m: int| 0 <= m < before.len() && before[m] == i;
                    assert(positions[m] == i);
                }
            }
            assert forall|m: int| 0 <= m < before.len() implies #[trigger] before[m] < n - 1 by {
                assert(before.contains(before[m]));
            }
            assert(unlabelled(words, n) =~= at_positions(words, positions));
            positions
        }
    }
}

/// An extraction buys exactly where a label starts at some word, and sells otherwise; its
/// commodities are read off all words but those of labels.
pub proof fn law_labels_tell_the_type_and_nothing_else(
    reference: ReferenceView,
    words: Seq<WordView>,
    screenshot: Seq<char>,
    captured_at: Option<i64>,
)
    ensures
        ({
            let e = extraction_of(reference, words, screenshot, captured_at);
            &&& e.screenshot == screenshot
            &&& e.captured_at == captured_at
            &&& e.terminal_type == Some(
                if exists|i: int| #[trigger] is_label_at(words, i) {
                    TerminalType::Buy
                } else {
                    TerminalType::Sell
                },
            )
            &&& exists|positions: Seq<int>|
                {
                    &&& #[trigger] lists_unlabelled(words, words.len() as int, positions)
                    &&& e.commodities == commodities_of(reference, at_positions(words, positions))
                }
        }),
{
    let positions = lemma_unlabelled(words, words.len() as int);
    assert(lists_unlabelled(words, words.len() as int, positions));
    law_buy_means_shop_quantity(words);
    let up = uppers(words);
    assert forall|i: int| 0 <= i < words.len() implies (#[trigger] label_starts(up, i)
        <==> is_label_at(words, i)) by {
        assert(up[i] == upper(words[i].text));
        if i + 1 < words.len() {
            assert(up[i + 1] == upper(words[i + 1].text));
        }
    }
    if exists|i: int| #[trigger] is_label_at(words, i) {
        let i = choose|i: int| #[trigger] is_label_at(words, i);
        assert(label_starts(up, i));
    }
    if exists|i: int| 0 <= i < words.len() && #[trigger] label_starts(up, i) {
        let i = choose|i: int| 0 <= i < words.len() && #[trigger] label_starts(up, i);
        assert(is_label_at(words, i));
    }
}

/// Of a label only its letters and digits count, in upper or lower case.
pub proof fn law_only_letters_and_digits_count_in_labels(s: Seq<char>, c: char)
    ensures
        compact_upper(s.push(c)) == if ('0' <= c && c <= '9') || ('A' <= c && c <= 'Z') {
            compact_upper(s).push(c)
        } else if 'a' <= c && c <= 'z' {
            compact_upper(s).push(((c as int - 'a' as int) + 'A' as int) as char)
        } else {
            compact_upper(s)
        },
        compact_upper(Seq::empty()).len() == 0,
{
    assert(s.push(c).drop_last() =~= s);
}

} // verus!
