//! The lists of known commodities and terminals, with fuzzy lookup by name.

use vstd::prelude::*;

use crate::matching::{
    best, best_position, comes_first, first_best, larger, lemma_best_exists, lemma_best_position,
    lemma_leq_antisymmetric, lemma_leq_connected, lemma_leq_transitive, lemma_score_range, names_of,
    score, score_of, scores_of, text_leq,
};
use crate::model::{copy_text, lemma_views_push, text_of, views, TerminalRef, TerminalView};
use crate::order::{
    as_ints, is_stable_order, lemma_stable_order_exists, precedes, sorted_positions, stable_order,
    Key,
};
use crate::text::{
    chars_of, find_chars, first_occurs_at, lemma_position_of, occurs, position_of, same, same_chars,
    slice_chars, string_of, texts, trim, trimmed,
};

verus! {

/// A commodity as the commodity list gives it.
#[derive(Debug)]
pub struct RawCommodity {
    pub id: u32,
    pub name: String,
    pub is_available: i32,
    pub is_visible: i32,
}

/// A terminal as the terminal list gives it.
#[derive(Debug)]
pub struct RawTerminal {
    pub id: u32,
    pub name: String,
    pub nickname: String,
    pub displayname: String,
    /// What is traded there, such as "commodity".
    pub kind: String,
    pub is_available: i32,
    pub star_system_name: String,
}

/// A commodity in the reference list.
#[derive(Debug, PartialEq, Eq)]
pub struct CommodityRef {
    pub id: u32,
    pub name: String,
}

/// What a [`CommodityRef`] stands for.
pub struct CommodityEntry {
    pub id: u32,
    pub name: Seq<char>,
}

impl View for CommodityRef {
    type V = CommodityEntry;

    open spec fn view(&self) -> CommodityEntry {
        CommodityEntry { id: self.id, name: self.name@ }
    }
}

impl Clone for CommodityRef {
    fn clone(&self) -> (r: Self)
        ensures
            r@ == self@,
    {
        CommodityRef { id: self.id, name: self.name.clone() }
    }
}

/// A terminal in the reference list.
#[derive(Debug, PartialEq, Eq)]
pub struct TerminalEntry {
    pub id: u32,
    /// Name shown in game.
    pub name: String,
    pub nickname: String,
    /// Star system the terminal is in.
    pub system: String,
    /// Operator or shop prefix of the full name, which tells apart shops at one
    /// place with the same display name.
    pub operator: Option<String>,
}

impl View for TerminalEntry {
    type V = TerminalView;

    open spec fn view(&self) -> TerminalView {
        TerminalView {
            id: self.id,
            name: self.name@,
            nickname: self.nickname@,
            system: self.system@,
            operator: text_of(self.operator),
        }
    }
}

impl Clone for TerminalEntry {
    fn clone(&self) -> (r: Self)
        ensures
            r@ == self@,
    {
        TerminalEntry {
            id: self.id,
            name: self.name.clone(),
            nickname: self.nickname.clone(),
            system: self.system.clone(),
            operator: copy_text(&self.operator),
        }
    }
}

/// The same terminal as an item of a candidate list.
pub fn terminal_ref(t: &TerminalEntry) -> (r: TerminalRef)
    ensures
        r@ == t@,
{
    TerminalRef {
        id: t.id,
        name: t.name.clone(),
        nickname: t.nickname.clone(),
        system: t.system.clone(),
        operator: copy_text(&t.operator),
    }
}

/// Result of a commodity lookup.
#[derive(Debug, PartialEq, Eq)]
pub struct CommodityMatch {
    pub id: u32,
    pub name: String,
    pub score: u8,
}

/// What a [`CommodityMatch`] stands for.
pub struct CommodityMatchView {
    pub id: u32,
    pub name: Seq<char>,
    pub score: u8,
}

impl View for CommodityMatch {
    type V = CommodityMatchView;

    open spec fn view(&self) -> CommodityMatchView {
        CommodityMatchView { id: self.id, name: self.name@, score: self.score }
    }
}

/// Result of a terminal lookup, with the terminals that read alike.
#[derive(Debug, PartialEq, Eq)]
pub struct TerminalMatch {
    pub id: u32,
    pub name: String,
    pub score: u8,
    pub candidates: Vec<TerminalRef>,
}

/// What a [`TerminalMatch`] stands for.
pub struct TerminalMatchView {
    pub id: u32,
    pub name: Seq<char>,
    pub score: u8,
    pub candidates: Seq<TerminalView>,
}

impl View for TerminalMatch {
    type V = TerminalMatchView;

    open spec fn view(&self) -> TerminalMatchView {
        TerminalMatchView {
            id: self.id,
            name: self.name@,
            score: self.score,
            candidates: views(self.candidates@),
        }
    }
}

/// What an optional match stands for.
pub open spec fn match_view<T: View>(m: Option<T>) -> Option<T::V> {
    match m {
        Some(m) => Some(m.view()),
        None => None,
    }
}

/// The commodities that are available and visible, in order.
pub open spec fn listed_commodities(rows: Seq<RawCommodity>) -> Seq<CommodityEntry>
    decreases rows.len(),
{
    if rows.len() == 0 {
        Seq::empty()
    } else {
        let before = listed_commodities(rows.drop_last());
        let row = rows.last();
        if row.is_available != 0 && row.is_visible != 0 {
            before.push(CommodityEntry { id: row.id, name: row.name@ })
        } else {
            before
        }
    }
}

/// Keeps the commodities that are available and visible.
pub fn parse_commodities(rows: Vec<RawCommodity>) -> (r: Vec<CommodityRef>)
    ensures
        views(r@) == listed_commodities(rows@),
{
    let mut r: Vec<CommodityRef> = Vec::new();
    let mut i: usize = 0;
    assert(views(r@) =~= Seq::empty());
    while i < rows.len()
        invariant
            i <= rows.len(),
            views(r@) == listed_commodities(rows@.take(i as int)),
        decreases rows.len() - i,
    {
        let row = &rows[i];
        assert(rows@.take(i + 1).drop_last() == rows@.take(i as int));
        if row.is_available != 0 && row.is_visible != 0 {
            let item = CommodityRef { id: row.id, name: row.name.clone() };
            proof {
                lemma_views_push(r@, item);
            }
            r.push(item);
        }
        i += 1;
    }
    assert(rows@.take(rows@.len() as int) == rows@);
    r
}

/// What stands before the first " - " of a full name.
pub open spec fn operator_of(name: Seq<char>) -> Option<Seq<char>> {
    match position_of(name, " - "@) {
        Some(at) => {
            let operator = trim(name.take(at));
            if operator.len() == 0 {
                None
            } else {
                Some(operator)
            }
        },
        None => None,
    }
}

/// The entry for a terminal of the list: the display name counts, unless it is
/// blank.
pub open spec fn terminal_entry(row: RawTerminal) -> TerminalView {
    TerminalView {
        id: row.id,
        name: if trim(row.displayname@).len() == 0 {
            row.name@
        } else {
            row.displayname@
        },
        nickname: row.nickname@,
        system: row.star_system_name@,
        operator: operator_of(row.name@),
    }
}

/// The commodity terminals that are available, in order.
pub open spec fn listed_terminals(rows: Seq<RawTerminal>) -> Seq<TerminalView>
    decreases rows.len(),
{
    if rows.len() == 0 {
        Seq::empty()
    } else {
        let before = listed_terminals(rows.drop_last());
        let row = rows.last();
        if row.kind@ == "commodity"@ && row.is_available != 0 {
            before.push(terminal_entry(row))
        } else {
            before
        }
    }
}

/// The operator prefix of a full terminal name: "Admin - Nyx Gateway (Pyro)"
/// has the operator "Admin".
fn operator_prefix(name: &str) -> (r: Option<String>)
    ensures
        text_of(r) == operator_of(name@),
{
    let v = chars_of(name);
    match find_chars(&v, &chars_of(" - ")) {
        Some(at) => {
            let operator = trimmed(&slice_chars(&v, 0, at));
            assert(v@.subrange(0, at as int) == name@.take(at as int));
            if operator.len() == 0 {
                None
            } else {
                Some(string_of(&operator))
            }
        },
        None => None,
    }
}

/// Keeps the commodity terminals that are available.
pub fn parse_terminals(rows: Vec<RawTerminal>) -> (r: Vec<TerminalEntry>)
    ensures
        views(r@) == listed_terminals(rows@),
{
    let mut r: Vec<TerminalEntry> = Vec::new();
    let mut i: usize = 0;
    assert(views(r@) =~= Seq::empty());
    while i < rows.len()
        invariant
            i <= rows.len(),
            views(r@) == listed_terminals(rows@.take(i as int)),
        decreases rows.len() - i,
    {
        let row = &rows[i];
        assert(rows@.take(i + 1).drop_last() == rows@.take(i as int));
        if same(row.kind.as_str(), "commodity") && row.is_available != 0 {
            let name = if trimmed(&chars_of(row.displayname.as_str())).len() == 0 {
                row.name.clone()
            } else {
                row.displayname.clone()
            };
            let item = TerminalEntry {
                id: row.id,
                name,
                nickname: row.nickname.clone(),
                system: row.star_system_name.clone(),
                operator: operator_prefix(row.name.as_str()),
            };
            proof {
                lemma_views_push(r@, item);
            }
            r.push(item);
        }
        i += 1;
    }
    assert(rows@.take(rows@.len() as int) == rows@);
    r
}

/// The known commodities and terminals.
pub struct Reference {
    commodities: Vec<CommodityRef>,
    terminals: Vec<TerminalEntry>,
}

/// What a [`Reference`] stands for.
pub struct ReferenceView {
    pub commodities: Seq<CommodityEntry>,
    pub terminals: Seq<TerminalView>,
}

impl View for Reference {
    type V = ReferenceView;

    closed spec fn view(&self) -> ReferenceView {
        ReferenceView {
            commodities: views(self.commodities@),
            terminals: views(self.terminals@),
        }
    }
}

impl ReferenceView {
    /// The names of the commodities.
    pub open spec fn commodity_names(self) -> Seq<Seq<char>> {
        Seq::new(self.commodities.len(), |i: int| self.commodities[i].name)
    }

    /// The commodity whose name is most like `query`, the first of several.
    pub open spec fn best_commodity(self, query: Seq<char>) -> Option<CommodityMatchView> {
        if self.commodities.len() == 0 {
            None
        } else {
            let scores = scores_of(query, self.commodity_names());
            let i = best_position(scores);
            Some(
                CommodityMatchView {
                    id: self.commodities[i].id,
                    name: self.commodities[i].name,
                    score: scores[i] as u8,
                },
            )
        }
    }

    /// The score of each terminal: the better of its two names counts.
    pub open spec fn terminal_scores(self, query: Seq<char>) -> Seq<int> {
        Seq::new(
            self.terminals.len(),
            |i: int|
                larger(
                    score_of(query, self.terminals[i].name),
                    score_of(query, self.terminals[i].nickname),
                ),
        )
    }

    /// The terminals in the order of their scores, best first; those that score
    /// alike stay in the order of the list.
    pub open spec fn terminal_ranking(self, query: Seq<char>) -> Seq<int> {
        stable_order(ranking_keys(self.terminal_scores(query)))
    }

    /// The terminals of the first `n` ranks that score 50 or more and at most 8
    /// below the best.
    pub open spec fn candidates(self, query: Seq<char>, n: int) -> Seq<TerminalView>
        decreases n,
    {
        if n <= 0 {
            Seq::empty()
        } else {
            let before = self.candidates(query, n - 1);
            let ranking = self.terminal_ranking(query);
            let scores = self.terminal_scores(query);
            if scores[ranking[0]] - scores[ranking[n - 1]] <= 8 && scores[ranking[n - 1]] >= 50 {
                before.push(self.terminals[ranking[n - 1]])
            } else {
                before
            }
        }
    }

    /// The best-ranked terminal, with the candidates that read alike.
    pub open spec fn best_terminal(self, query: Seq<char>) -> Option<TerminalMatchView> {
        if self.terminals.len() == 0 {
            None
        } else {
            let i = self.terminal_ranking(query)[0];
            Some(
                TerminalMatchView {
                    id: self.terminals[i].id,
                    name: self.terminals[i].name,
                    score: self.terminal_scores(query)[i] as u8,
                    candidates: self.candidates(query, self.terminals.len() as int),
                },
            )
        }
    }
}

/// Sorting keys that put the largest score first.
pub open spec fn ranking_keys(scores: Seq<int>) -> Seq<Key> {
    Seq::new(scores.len(), |i: int| ((100 - scores[i]) as i64, 0i64))
}

/// The best-ranked position is the first one with the largest score.
proof fn lemma_first_rank(scores: Seq<int>, order: Seq<int>)
    requires
        scores.len() > 0,
        forall|i: int| 0 <= i < scores.len() ==> 0 <= #[trigger] scores[i] <= 100,
        is_stable_order(order, ranking_keys(scores)),
    ensures
        order.len() > 0,
        first_best(scores, order[0]),
{
    let keys = ranking_keys(scores);
    assert(order.contains(0));
    let top = order[0];
    assert forall|j: int| 0 <= j < scores.len() implies scores[j] <= scores[top] && (j < top
        ==> scores[j] < scores[top]) by {
        assert(order.contains(j));
        let m = choose|m: int| 0 <= m < order.len() && order[m] == j;
        if m > 0 {
            assert(precedes(keys, order[0], order[m]));
        }
    }
}

impl Reference {
    /// Builds the reference from what parsing the two lists gave.
    pub fn from_json(
        commodities: Result<Vec<RawCommodity>, String>,
        terminals: Result<Vec<RawTerminal>, String>,
    ) -> (r: Result<Reference, String>)
        ensures
            match (commodities, terminals) {
                (Ok(c), Ok(t)) => r is Ok && r->Ok_0@.commodities == listed_commodities(c@)
                    && r->Ok_0@.terminals == listed_terminals(t@),
                (Err(e), _) => r is Err && r->Err_0@ == e@,
                (Ok(_), Err(e)) => r is Err && r->Err_0@ == e@,
            },
    {
        match commodities {
            Ok(c) => match terminals {
                Ok(t) => Ok(
                    Reference {
                        commodities: parse_commodities(c),
                        terminals: parse_terminals(t),
                    },
                ),
                Err(e) => Err(e),
            },
            Err(e) => Err(e),
        }
    }

    /// The commodities.
    pub fn commodities(&self) -> (r: &Vec<CommodityRef>)
        ensures
            views(r@) == self@.commodities,
    {
        &self.commodities
    }

    /// The terminals.
    pub fn terminals(&self) -> (r: &Vec<TerminalEntry>)
        ensures
            views(r@) == self@.terminals,
    {
        &self.terminals
    }

    /// Best commodity match for a (possibly noisy) name; there is none only in
    /// an empty list.
    pub fn best_commodity(&self, query: &str) -> (r: Option<CommodityMatch>)
        ensures
            match_view(r) == self@.best_commodity(query@),
            r is Some ==> r->0.score <= 100,
    {
        let mut names: Vec<&str> = Vec::new();
        let mut i: usize = 0;
        while i < self.commodities.len()
            invariant
                i <= self.commodities.len(),
                names_of(names@) == self@.commodity_names().take(i as int),
            decreases self.commodities.len() - i,
        {
            let name = self.commodities[i].name.as_str();
            let ghost before = names@;
            names.push(name);
            proof {
                assert(self@.commodity_names()[i as int] == name@);
                assert(names_of(names@) =~= names_of(before).push(name@));
                assert(self@.commodity_names().take(i + 1) =~= self@.commodity_names().take(
                    i as int,
                ).push(name@));
            }
            i += 1;
        }
        assert(self@.commodity_names().take(i as int) =~= self@.commodity_names());
        match best(query, &names) {
            Some((at, score)) => {
                let c = &self.commodities[at];
                assert(self@.commodities[at as int] == c@);
                Some(CommodityMatch { id: c.id, name: c.name.clone(), score })
            },
            None => None,
        }
    }

    /// Best terminal match for a location name, with the other terminals whose
    /// name reads alike; there is none only in an empty list.
    #[verifier::rlimit(40)]
    pub fn best_terminal(&self, query: &str) -> (r: Option<TerminalMatch>)
        ensures
            match_view(r) == self@.best_terminal(query@),
            r is Some ==> r->0.score <= 100,
    {
        let ghost scores = self@.terminal_scores(query@);
        if self.terminals.len() == 0 {
            return None;
        }
        let mut found: Vec<u8> = Vec::new();
        let mut keys: Vec<Key> = Vec::new();
        let mut i: usize = 0;
        while i < self.terminals.len()
            invariant
                i <= self.terminals.len(),
                scores == self@.terminal_scores(query@),
                found@.len() == i,
                forall|j: int| 0 <= j < i ==> #[trigger] found@[j] == scores[j],
                forall|j: int| 0 <= j < i ==> #[trigger] found@[j] <= 100,
                keys@ == ranking_keys(scores).take(i as int),
            decreases self.terminals.len() - i,
        {
            let t = &self.terminals[i];
            assert(self@.terminals[i as int] == t@);
            let by_name = score(query, t.name.as_str());
            let by_nickname = score(query, t.nickname.as_str());
            let s = if by_name >= by_nickname {
                by_name
            } else {
                by_nickname
            };
            assert(s == scores[i as int] && s <= 100);
            found.push(s);
            keys.push((100 - s as i64, 0));
            assert(ranking_keys(scores).take(i + 1) =~= ranking_keys(scores).take(i as int).push(
                ranking_keys(scores)[i as int],
            ));
            i += 1;
        }
        assert(ranking_keys(scores).take(i as int) =~= ranking_keys(scores));
        let order = sorted_positions(&keys);
        let ghost ranking = self@.terminal_ranking(query@);
        proof {
            assert(ranking == as_ints(order@));
            assert forall|j: int| 0 <= j < scores.len() implies 0 <= #[trigger] scores[j]
                <= 100 by {
                assert(found@[j] == scores[j]);
            }
            lemma_first_rank(scores, ranking);
        }
        assert(order@[0] == ranking[0]);
        let top = order[0];
        let best_score = found[top];
        let mut candidates: Vec<TerminalRef> = Vec::new();
        let mut k: usize = 0;
        assert(views(candidates@) =~= Seq::empty());
        while k < order.len()
            invariant
                k <= order.len() == self.terminals.len() == found.len(),
                scores == self@.terminal_scores(query@),
                ranking == self@.terminal_ranking(query@),
                ranking == as_ints(order@),
                is_stable_order(ranking, ranking_keys(scores)),
                scores.len() == found.len(),
                forall|j: int| 0 <= j < found.len() ==> #[trigger] found@[j] == scores[j],
                first_best(scores, ranking[0]),
                best_score == scores[ranking[0]],
                views(candidates@) == self@.candidates(query@, k as int),
            decreases order.len() - k,
        {
            assert(ranking[k as int] == order@[k as int]);
            let at = order[k];
            let s = found[at];
            if best_score - s <= 8 && s >= 50 {
                let item = terminal_ref(&self.terminals[at]);
                proof {
                    lemma_views_push(candidates@, item);
                    assert(self@.terminals[at as int] == item@);
                }
                candidates.push(item);
            }
            k += 1;
        }
        let t = &self.terminals[top];
        assert(self@.terminals[top as int] == t@);
        Some(TerminalMatch { id: t.id, name: t.name.clone(), score: best_score, candidates })
    }

    /// The first terminal with the given id.
    pub fn terminal_by_id(&self, id: u32) -> (r: Option<&TerminalEntry>)
        ensures
            match r {
                Some(t) => exists|i: int|
                    0 <= i < self@.terminals.len() && #[trigger] self@.terminals[i] == t@ && t.id
                        == id && forall|j: int|
                        0 <= j < i ==> (#[trigger] self@.terminals[j]).id != id,
                None => forall|j: int|
                    0 <= j < self@.terminals.len() ==> (#[trigger] self@.terminals[j]).id != id,
            },
    {
        let mut i: usize = 0;
        while i < self.terminals.len()
            invariant
                i <= self.terminals.len(),
                forall|j: int| 0 <= j < i ==> (#[trigger] self@.terminals[j]).id != id,
            decreases self.terminals.len() - i,
        {
            assert(self@.terminals[i as int] == self.terminals@[i as int]@);
            if self.terminals[i].id == id {
                return Some(&self.terminals[i]);
            }
            i += 1;
        }
        None
    }

    /// Replaces the lists by freshly fetched ones. The commodities are replaced
    /// as soon as they are good, also where the terminals then are not.
    pub fn refresh_from_json(
        &mut self,
        commodities: Result<Vec<RawCommodity>, String>,
        terminals: Result<Vec<RawTerminal>, String>,
    ) -> (r: Result<(), String>)
        ensures
            match (commodities, terminals) {
                (Ok(c), Ok(t)) => r is Ok && final(self)@.commodities == listed_commodities(c@)
                    && final(self)@.terminals == listed_terminals(t@),
                (Ok(c), Err(e)) => r is Err && r->Err_0@ == e@ && final(self)@.commodities
                    == listed_commodities(c@) && final(self)@.terminals == old(self)@.terminals,
                (Err(e), _) => r is Err && r->Err_0@ == e@ && final(self)@ == old(self)@,
            },
    {
        match commodities {
            Ok(c) => {
                self.commodities = parse_commodities(c);
            },
            Err(e) => {
                return Err(e);
            },
        }
        match terminals {
            Ok(t) => {
                self.terminals = parse_terminals(t);
                Ok(())
            },
            Err(e) => Err(e),
        }
    }
}

/// A refresh with good lists gives the same reference as building it anew.
pub proof fn law_refresh_equals_rebuild(
    rebuilt: ReferenceView,
    refreshed: ReferenceView,
    commodities: Seq<RawCommodity>,
    terminals: Seq<RawTerminal>,
)
    requires
        rebuilt.commodities == listed_commodities(commodities),
        rebuilt.terminals == listed_terminals(terminals),
        refreshed.commodities == listed_commodities(commodities),
        refreshed.terminals == listed_terminals(terminals),
    ensures
        rebuilt == refreshed,
{
}

/// `positions` lists every terminal that scores 50 or more and at most 8 below the best,
/// the larger score first, and where two score alike the one that is listed first.
pub open spec fn lists_candidates(positions: Seq<int>, scores: Seq<int>) -> bool {
    &&& forall|i: int| #[trigger]
        positions.contains(i) <==> 0 <= i < scores.len() && scores[i] >= 50
            && scores[best_position(scores)] - scores[i] <= 8
    &&& forall|k: int, l: int|
        0 <= k < l < positions.len() ==> {
            ||| scores[#[trigger] positions[k]] > scores[#[trigger] positions[l]]
            ||| scores[positions[k]] == scores[positions[l]] && positions[k] < positions[l]
        }
}

/// Where the candidates among the first `n` ranks stand in the list.
proof fn lemma_candidates(reference: ReferenceView, query: Seq<char>, n: int) -> (positions: Seq<
    int,
>)
    requires
        reference.terminals.len() > 0,
        is_stable_order(
            reference.terminal_ranking(query),
            ranking_keys(reference.terminal_scores(query)),
        ),
        forall|i: int|
            0 <= i < reference.terminals.len() ==> 0 <= #[trigger] reference.terminal_scores(
                query,
            )[i] <= 100,
        0 <= n <= reference.terminal_ranking(query).len(),
    ensures
        ({
            let scores = reference.terminal_scores(query);
            let ranking = reference.terminal_ranking(query);
            let found = reference.candidates(query, n);
            &&& found.len() == positions.len()
            &&& forall|k: int|
                0 <= k < positions.len() ==> 0 <= #[trigger] positions[k] < scores.len() && found[k]
                    == reference.terminals[positions[k]]
            &&& forall|i: int| #[trigger]
                positions.contains(i) <==> ranking.take(n).contains(i) && scores[i] >= 50
                    && scores[ranking[0]] - scores[i] <= 8
            &&& forall|k: int, l: int|
                0 <= k < l < positions.len() ==> {
                    ||| scores[#[trigger] positions[k]] > scores[#[trigger] positions[l]]
                    ||| scores[positions[k]] == scores[positions[l]] && positions[k] < positions[l]
                }
        }),
    decreases n,
{
    let scores = reference.terminal_scores(query);
    let ranking = reference.terminal_ranking(query);
    let keys = ranking_keys(scores);
    if n == 0 {
        Seq::empty()
    } else {
        let before = lemma_candidates(reference, query, n - 1);
        let x = ranking[n - 1];
        let shorter = ranking.take(n - 1);
        let longer = ranking.take(n);
        assert(longer =~= shorter.push(x));
        assert(longer[n - 1] == x);
        assert forall|i: int| #[trigger] longer.contains(i) <==> shorter.contains(i) || i == x by {
            if shorter.contains(i) {
                let k = choose|k: int| 0 <= k < shorter.len() && shorter[k] == i;
                assert(longer[k] == i);
            }
            if longer.contains(i) && i != x {
                let k = choose|k: int| 0 <= k < longer.len() && longer[k] == i;
                assert(shorter[k] == i);
            }
        }
        if scores[ranking[0]] - scores[x] <= 8 && scores[x] >= 50 {
            let positions = before.push(x);
            assert(positions[before.len() as int] == x);
            assert forall|i: int| #[trigger] positions.contains(i) <==> before.contains(i) || i
                == x by {
                if before.contains(i) {
                    let k = choose|k: int| 0 <= k < before.len() && before[k] == i;
                    assert(positions[k] == i);
                }
            }
            assert forall|k: int| 0 <= k < before.len() implies scores[#[trigger] before[k]]
                > scores[x] || (scores[before[k]] == scores[x] && before[k] < x) by {
                assert(before.contains(before[k]));
                let m = choose|m: int| 0 <= m < shorter.len() && shorter[m] == before[k];
                assert(ranking[m] == before[k]);
                assert(precedes(keys, ranking[m], ranking[n - 1]));
            }
            positions
        } else {
            before
        }
    }
}

/// The best terminal is the first one with the largest score, and its candidates are the
/// terminals that read alike, best first.
pub proof fn law_best_terminal_has_the_largest_score(reference: ReferenceView, query: Seq<char>)
    requires
        reference.terminals.len() > 0,
    ensures
        ({
            let scores = reference.terminal_scores(query);
            let i = best_position(scores);
            let found = reference.best_terminal(query)->0;
            &&& first_best(scores, i)
            &&& reference.best_terminal(query) is Some
            &&& found.id == reference.terminals[i].id
            &&& found.name == reference.terminals[i].name
            &&& found.score == scores[i]
            &&& exists|positions: Seq<int>|
                {
                    &&& #[trigger] lists_candidates(positions, scores)
                    &&& found.candidates =~= Seq::new(
                        positions.len(),
                        |k: int| reference.terminals[positions[k]],
                    )
                }
        }),
{
    let scores = reference.terminal_scores(query);
    let ranking = reference.terminal_ranking(query);
    assert forall|i: int| 0 <= i < scores.len() implies 0 <= #[trigger] scores[i] <= 100 by {
        lemma_score_range(query, reference.terminals[i].name);
        lemma_score_range(query, reference.terminals[i].nickname);
    }
    lemma_stable_order_exists(ranking_keys(scores));
    lemma_first_rank(scores, ranking);
    lemma_best_position(scores, ranking[0]);
    let positions = lemma_candidates(reference, query, reference.terminals.len() as int);
    assert(ranking.take(ranking.len() as int) =~= ranking);
    assert forall|i: int| ranking.contains(i) implies 0 <= i < scores.len() by {
        let k = choose|k: int| 0 <= k < ranking.len() && ranking[k] == i;
        assert(0 <= ranking[k] < scores.len());
    }
    assert(lists_candidates(positions, scores));
}

/// How many of the names come before the given one.
pub open spec fn rank_of(names: Seq<Seq<char>>, name: Seq<char>) -> nat
    decreases names.len(),
{
    if names.len() == 0 {
        0
    } else {
        rank_of(names.drop_last(), name) + if names.last() != name && text_leq(
            names.last(),
            name,
        ) {
            1nat
        } else {
            0nat
        }
    }
}

/// Sorting keys by name.
pub open spec fn name_keys(names: Seq<Seq<char>>) -> Seq<Key> {
    Seq::new(names.len(), |i: int| (rank_of(names, names[i]) as i64, 0i64))
}

/// The positions of the names in dictionary order; equal names stay in order.
pub open spec fn name_order(names: Seq<Seq<char>>) -> Seq<int> {
    stable_order(name_keys(names))
}

proof fn lemma_rank_bounded(names: Seq<Seq<char>>, name: Seq<char>)
    ensures
        rank_of(names, name) <= names.len(),
    decreases names.len(),
{
    if names.len() > 0 {
        lemma_rank_bounded(names.drop_last(), name);
    }
}

/// What comes before a name comes before every later one.
proof fn lemma_rank_grows(names: Seq<Seq<char>>, a: Seq<char>, b: Seq<char>)
    requires
        a != b,
        text_leq(a, b),
    ensures
        rank_of(names, a) <= rank_of(names, b),
        names.contains(a) ==> rank_of(names, a) < rank_of(names, b),
    decreases names.len(),
{
    if names.len() > 0 {
        let shorter = names.drop_last();
        let x = names.last();
        lemma_rank_grows(shorter, a, b);
        if x != a && text_leq(x, a) {
            lemma_leq_transitive(x, a, b);
            if x == b {
                lemma_leq_antisymmetric(a, b);
            }
        }
        if names.contains(a) && x != a {
            let k = choose|k: int| 0 <= k < names.len() && names[k] == a;
            assert(shorter[k] == a);
        }
    }
}

/// Listed by name, no item comes behind one whose name is later in the dictionary.
pub proof fn law_listing_is_in_dictionary_order(names: Seq<Seq<char>>, k: int, l: int)
    requires
        names.len() <= i64::MAX,
        0 <= k < l < names.len(),
    ensures
        text_leq(names[name_order(names)[k]], names[name_order(names)[l]]),
{
    let keys = name_keys(names);
    lemma_stable_order_exists(keys);
    let order = name_order(names);
    assert(precedes(keys, order[k], order[l]));
    let a = names[order[k]];
    let b = names[order[l]];
    lemma_rank_bounded(names, a);
    lemma_rank_bounded(names, b);
    lemma_leq_connected(a, b);
    if !text_leq(a, b) {
        assert(names[order[l]] == b);
        lemma_rank_grows(names, b, a);
    }
}

/// The positions of names in dictionary order.
fn order_names(names: &Vec<Vec<char>>) -> (order: Vec<usize>)
    ensures
        as_ints(order@) == name_order(texts(names@)),
        order@.len() == names@.len(),
        forall|k: int| 0 <= k < order@.len() ==> #[trigger] order@[k] < names@.len(),
{
    let ghost all = texts(names@);
    let mut keys: Vec<Key> = Vec::new();
    let mut i: usize = 0;
    while i < names.len()
        invariant
            i <= names.len(),
            all == texts(names@),
            keys@ == name_keys(all).take(i as int),
        decreases names.len() - i,
    {
        let name = &names[i];
        let mut rank: usize = 0;
        let mut j: usize = 0;
        while j < names.len()
            invariant
                j <= names.len(),
                i < names.len(),
                name == names@[i as int],
                all == texts(names@),
                rank == rank_of(all.take(j as int), name@),
                rank <= j,
            decreases names.len() - j,
        {
            proof {
                assert(all.take(j + 1).drop_last() =~= all.take(j as int));
                assert(all.take(j + 1).last() == names@[j as int]@);
            }
            if !same_chars(&names[j], name) && comes_first(&names[j], name) {
                rank += 1;
            }
            j += 1;
        }
        proof {
            assert(all.take(j as int) =~= all);
            assert(all[i as int] == name@);
        }
        keys.push((rank as i64, 0));
        assert(name_keys(all).take(i + 1) =~= name_keys(all).take(i as int).push(
            name_keys(all)[i as int],
        ));
        i += 1;
    }
    assert(name_keys(all).take(i as int) =~= name_keys(all));
    let order = sorted_positions(&keys);
    assert forall|k: int| 0 <= k < order@.len() implies #[trigger] order@[k] < names@.len() by {
        assert(as_ints(order@)[k] == order@[k]);
    }
    order
}

/// The names of terminals.
pub open spec fn terminal_names(terminals: Seq<TerminalView>) -> Seq<Seq<char>> {
    Seq::new(terminals.len(), |i: int| terminals[i].name)
}

impl Reference {
    /// The commodities in dictionary order of their names.
    pub fn commodities_by_name(&self) -> (r: Vec<CommodityRef>)
        ensures
            views(r@) == Seq::new(
                self@.commodities.len(),
                |k: int| self@.commodities[name_order(self@.commodity_names())[k]],
            ),
    {
        let ghost all = self@.commodities;
        let ghost order_of = name_order(self@.commodity_names());
        let mut names: Vec<Vec<char>> = Vec::new();
        let mut i: usize = 0;
        while i < self.commodities.len()
            invariant
                i <= self.commodities.len(),
                texts(names@) == self@.commodity_names().take(i as int),
            decreases self.commodities.len() - i,
        {
            let name = chars_of(self.commodities[i].name.as_str());
            let ghost before = texts(names@);
            names.push(name);
            proof {
                assert(self@.commodity_names()[i as int] == name@);
                assert(texts(names@) =~= before.push(name@));
                assert(self@.commodity_names().take(i + 1) =~= self@.commodity_names().take(
                    i as int,
                ).push(name@));
            }
            i += 1;
        }
        assert(self@.commodity_names().take(i as int) =~= self@.commodity_names());
        assert(texts(names@).len() == names@.len());
        let order = order_names(&names);
        let mut r: Vec<CommodityRef> = Vec::new();
        let mut k: usize = 0;
        while k < order.len()
            invariant
                k <= order.len() == self.commodities.len(),
                all == views(self.commodities@),
                order_of == as_ints(order@),
                forall|k: int|
                    0 <= k < order@.len() ==> #[trigger] order@[k] < self.commodities@.len(),
                views(r@) == Seq::new(k as nat, |k: int| all[order_of[k]]),
            decreases order.len() - k,
        {
            let item = self.commodities[order[k]].clone();
            proof {
                lemma_views_push(r@, item);
                assert(all[order_of[k as int]] == item@);
                assert(Seq::new((k + 1) as nat, |k: int| all[order_of[k]]) =~= Seq::new(
                    k as nat,
                    |k: int| all[order_of[k]],
                ).push(item@));
            }
            r.push(item);
            k += 1;
        }
        r
    }

    /// The terminals in dictionary order of their names.
    pub fn terminals_by_name(&self) -> (r: Vec<TerminalEntry>)
        ensures
            views(r@) == Seq::new(
                self@.terminals.len(),
                |k: int| self@.terminals[name_order(terminal_names(self@.terminals))[k]],
            ),
    {
        let ghost all = self@.terminals;
        let ghost all_names = terminal_names(all);
        let ghost order_of = name_order(all_names);
        let mut names: Vec<Vec<char>> = Vec::new();
        let mut i: usize = 0;
        while i < self.terminals.len()
            invariant
                i <= self.terminals.len(),
                all == views(self.terminals@),
                all_names == terminal_names(all),
                texts(names@) == all_names.take(i as int),
            decreases self.terminals.len() - i,
        {
            let name = chars_of(self.terminals[i].name.as_str());
            let ghost before = texts(names@);
            names.push(name);
            proof {
                assert(all_names[i as int] == name@);
                assert(texts(names@) =~= before.push(name@));
                assert(all_names.take(i + 1) =~= all_names.take(i as int).push(name@));
            }
            i += 1;
        }
        assert(all_names.take(i as int) =~= all_names);
        assert(texts(names@).len() == names@.len());
        let order = order_names(&names);
        let mut r: Vec<TerminalEntry> = Vec::new();
        let mut k: usize = 0;
        while k < order.len()
            invariant
                k <= order.len() == self.terminals.len(),
                all == views(self.terminals@),
                order_of == as_ints(order@),
                forall|k: int|
                    0 <= k < order@.len() ==> #[trigger] order@[k] < self.terminals@.len(),
                views(r@) == Seq::new(k as nat, |k: int| all[order_of[k]]),
            decreases order.len() - k,
        {
            let item = self.terminals[order[k]].clone();
            proof {
                lemma_views_push(r@, item);
                assert(all[order_of[k as int]] == item@);
                assert(Seq::new((k + 1) as nat, |k: int| all[order_of[k]]) =~= Seq::new(
                    k as nat,
                    |k: int| all[order_of[k]],
                ).push(item@));
            }
            r.push(item);
            k += 1;
        }
        r
    }
}

/// The best commodity is the first one with the largest score, and there is one as soon
/// as some commodity is listed.
pub proof fn law_best_commodity_has_the_largest_score(reference: ReferenceView, query: Seq<char>)
    ensures
        match reference.best_commodity(query) {
            Some(found) => exists|i: int|
                {
                    &&& 0 <= i < reference.commodities.len()
                    &&& found.id == (#[trigger] reference.commodities[i]).id
                    &&& found.name == reference.commodities[i].name
                    &&& found.score == score_of(query, found.name)
                    &&& forall|j: int|
                        0 <= j < reference.commodities.len() ==> score_of(
                            query,
                            (#[trigger] reference.commodities[j]).name,
                        ) <= found.score && (j < i ==> score_of(
                            query,
                            reference.commodities[j].name,
                        ) < found.score)
                },
            None => reference.commodities.len() == 0,
        },
{
    if reference.commodities.len() > 0 {
        let names = reference.commodity_names();
        let scores = scores_of(query, names);
        lemma_best_exists(scores);
        let i = best_position(scores);
        lemma_score_range(query, names[i]);
        let found = reference.best_commodity(query)->0;
        assert(found.id == reference.commodities[i].id);
        assert forall|j: int| 0 <= j < reference.commodities.len() implies score_of(
            query,
            (#[trigger] reference.commodities[j]).name,
        ) <= found.score && (j < i ==> score_of(query, reference.commodities[j].name)
            < found.score) by {
            assert(scores[j] == score_of(query, reference.commodities[j].name));
        }
    }
}

/// A terminal scores as well as the better of its name and its nickname.
pub proof fn law_either_name_of_a_terminal_counts(
    reference: ReferenceView,
    query: Seq<char>,
    i: int,
)
    requires
        0 <= i < reference.terminals.len(),
    ensures
        ({
            let s = reference.terminal_scores(query)[i];
            let t = reference.terminals[i];
            &&& s >= score_of(query, t.name) && s >= score_of(query, t.nickname)
            &&& s == score_of(query, t.name) || s == score_of(query, t.nickname)
        }),
{
}

/// The commodities are those that are available and visible, in the order of the list.
pub proof fn law_listed_commodities_are_on_sale(rows: Seq<RawCommodity>)
    ensures
        listed_commodities(rows) == rows.filter(
            |row: RawCommodity| row.is_available != 0 && row.is_visible != 0,
        ).map_values(|row: RawCommodity| CommodityEntry { id: row.id, name: row.name@ }),
    decreases rows.len(),
{
    reveal(Seq::filter);
    let kept = |row: RawCommodity| row.is_available != 0 && row.is_visible != 0;
    let entry = |row: RawCommodity| CommodityEntry { id: row.id, name: row.name@ };
    if rows.len() > 0 {
        law_listed_commodities_are_on_sale(rows.drop_last());
    }
    assert(listed_commodities(rows) =~= rows.filter(kept).map_values(entry));
}

/// The terminals are those of commodities that are available, in the order of the list.
pub proof fn law_listed_terminals_trade_commodities(rows: Seq<RawTerminal>)
    ensures
        listed_terminals(rows) == rows.filter(
            |row: RawTerminal| row.is_available != 0 && row.kind@ == "commodity"@,
        ).map_values(|row: RawTerminal| terminal_entry(row)),
    decreases rows.len(),
{
    reveal(Seq::filter);
    let kept = |row: RawTerminal| row.is_available != 0 && row.kind@ == "commodity"@;
    let entry = |row: RawTerminal| terminal_entry(row);
    if rows.len() > 0 {
        law_listed_terminals_trade_commodities(rows.drop_last());
    }
    assert(listed_terminals(rows) =~= rows.filter(kept).map_values(entry));
}

/// A terminal keeps its id, nickname and star system. It is called by its display name,
/// unless that is blank; and its operator is what stands before the first " - " of its
/// full name, where that is not blank.
pub proof fn law_terminal_entry(row: RawTerminal, at: int)
    requires
        first_occurs_at(row.name@, " - "@, at) || !occurs(row.name@, " - "@),
    ensures
        ({
            let t = terminal_entry(row);
            &&& t.id == row.id
            &&& t.nickname == row.nickname@
            &&& t.system == row.star_system_name@
            &&& trim(row.displayname@).len() > 0 ==> t.name == row.displayname@
            &&& trim(row.displayname@).len() == 0 ==> t.name == row.name@
            &&& match t.operator {
                Some(operator) => {
                    &&& operator.len() > 0
                    &&& first_occurs_at(row.name@, " - "@, at)
                    &&& operator == trim(row.name@.take(at))
                },
                None => !occurs(row.name@, " - "@) || trim(row.name@.take(at)).len() == 0,
            }
        }),
{
    if first_occurs_at(row.name@, " - "@, at) {
        lemma_position_of(row.name@, " - "@, at);
    }
}

} // verus!
