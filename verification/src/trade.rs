//! The personal trade log: what was bought or sold where, for how much, and
//! whether the journal of the service has it.

use vstd::prelude::*;

use crate::clock::{local_id, now_millis, write_id};
use crate::model::{lemma_views_push, views};
use crate::order::{
    as_ints, is_stable_order, lemma_stable_order_exists, precedes, sorted_positions, stable_order,
    Key,
};
use crate::text::same;

verus! {

/// Buy or sell.
#[derive(Clone, Copy, Debug, PartialEq, Eq, Structural)]
pub enum TradeOp {
    Buy,
    Sell,
}

impl TradeOp {
    /// The name in submissions.
    pub open spec fn name(self) -> Seq<char> {
        match self {
            TradeOp::Buy => "buy"@,
            TradeOp::Sell => "sell"@,
        }
    }

    /// The name in submissions.
    pub fn as_str(&self) -> (r: &'static str)
        ensures
            r@ == self.name(),
    {
        match self {
            TradeOp::Buy => "buy",
            TradeOp::Sell => "sell",
        }
    }
}

/// How far an entry has come on its way to the journal.
#[derive(Clone, Copy, Debug, PartialEq, Eq, Structural)]
pub enum TradeSync {
    /// Only stored here.
    Local,
    /// On its way.
    Pending,
    /// Prepared in dry-run mode, not sent.
    DryRun,
    /// Accepted.
    Synced,
    /// Rejected.
    Failed,
}

impl TradeSync {
    /// The label on screen.
    pub fn label(&self) -> (r: &'static str)
        ensures
            r@ == match self {
                TradeSync::Local => "Local only"@,
                TradeSync::Pending => "Sending…"@,
                TradeSync::DryRun => "Dry run"@,
                TradeSync::Synced => "Synced to UEX"@,
                TradeSync::Failed => "Sync failed"@,
            },
    {
        match self {
            TradeSync::Local => "Local only",
            TradeSync::Pending => "Sending…",
            TradeSync::DryRun => "Dry run",
            TradeSync::Synced => "Synced to UEX",
            TradeSync::Failed => "Sync failed",
        }
    }
}

/// One purchase or sale.
#[derive(Debug, PartialEq)]
pub struct TradeEntry {
    pub id: String,
    pub operation: TradeOp,
    pub id_commodity: u32,
    pub commodity_name: String,
    pub id_terminal: u32,
    pub terminal_name: String,
    pub terminal_system: String,
    /// Quantity in SCU.
    pub scu: u32,
    /// Price per SCU in aUEC, as the bits of a double-precision number.
    pub price_bits: u64,
    /// Unix time of the trade.
    pub created_at: i64,
    pub sync: TradeSync,
    /// Id in the journal, once it was accepted.
    pub uex_id: Option<i64>,
    pub status_text: String,
}

/// What a [`TradeEntry`] stands for.
pub struct TradeView {
    pub id: Seq<char>,
    pub operation: TradeOp,
    pub id_commodity: u32,
    pub commodity_name: Seq<char>,
    pub id_terminal: u32,
    pub terminal_name: Seq<char>,
    pub terminal_system: Seq<char>,
    pub scu: u32,
    pub price_bits: u64,
    pub created_at: i64,
    pub sync: TradeSync,
    pub uex_id: Option<i64>,
    pub status_text: Seq<char>,
}

impl View for TradeEntry {
    type V = TradeView;

    open spec fn view(&self) -> TradeView {
        TradeView {
            id: self.id@,
            operation: self.operation,
            id_commodity: self.id_commodity,
            commodity_name: self.commodity_name@,
            id_terminal: self.id_terminal,
            terminal_name: self.terminal_name@,
            terminal_system: self.terminal_system@,
            scu: self.scu,
            price_bits: self.price_bits,
            created_at: self.created_at,
            sync: self.sync,
            uex_id: self.uex_id,
            status_text: self.status_text@,
        }
    }
}

impl Clone for TradeEntry {
    fn clone(&self) -> (r: Self)
        ensures
            r@ == self@,
    {
        TradeEntry {
            id: self.id.clone(),
            operation: self.operation,
            id_commodity: self.id_commodity,
            commodity_name: self.commodity_name.clone(),
            id_terminal: self.id_terminal,
            terminal_name: self.terminal_name.clone(),
            terminal_system: self.terminal_system.clone(),
            scu: self.scu,
            price_bits: self.price_bits,
            created_at: self.created_at,
            sync: self.sync,
            uex_id: self.uex_id,
            status_text: self.status_text.clone(),
        }
    }
}

/// A new entry, which nothing but this log knows of.
pub open spec fn entry_of(
    id: Seq<char>,
    operation: TradeOp,
    id_commodity: u32,
    commodity_name: Seq<char>,
    id_terminal: u32,
    terminal_name: Seq<char>,
    terminal_system: Seq<char>,
    scu: u32,
    price_bits: u64,
    created_at: i64,
) -> TradeView {
    TradeView {
        id,
        operation,
        id_commodity,
        commodity_name,
        id_terminal,
        terminal_name,
        terminal_system,
        scu,
        price_bits,
        created_at,
        sync: TradeSync::Local,
        uex_id: None,
        status_text: Seq::empty(),
    }
}

/// Makes an entry with a given id.
pub fn entry_with_id(
    id: String,
    operation: TradeOp,
    id_commodity: u32,
    commodity_name: &str,
    id_terminal: u32,
    terminal_name: &str,
    terminal_system: &str,
    scu: u32,
    price_bits: u64,
    created_at: i64,
) -> (r: TradeEntry)
    ensures
        r@ == entry_of(
            id@,
            operation,
            id_commodity,
            commodity_name@,
            id_terminal,
            terminal_name@,
            terminal_system@,
            scu,
            price_bits,
            created_at,
        ),
{
    TradeEntry {
        id,
        operation,
        id_commodity,
        commodity_name: commodity_name.to_owned(),
        id_terminal,
        terminal_name: terminal_name.to_owned(),
        terminal_system: terminal_system.to_owned(),
        scu,
        price_bits,
        created_at,
        sync: TradeSync::Local,
        uex_id: None,
        status_text: String::new(),
    }
}

/// Makes a new entry. Its id is made of the time of day and of the running number
/// `n`.
pub fn new_entry(
    operation: TradeOp,
    id_commodity: u32,
    commodity_name: &str,
    id_terminal: u32,
    terminal_name: &str,
    terminal_system: &str,
    scu: u32,
    price_bits: u64,
    created_at: i64,
    n: u64,
) -> (r: TradeEntry)
    ensures
        exists|millis: i64|
            r@ == entry_of(
                #[trigger] local_id('t', millis as int, n as nat),
                operation,
                id_commodity,
                commodity_name@,
                id_terminal,
                terminal_name@,
                terminal_system@,
                scu,
                price_bits,
                created_at,
            ),
{
    let millis = now_millis();
    let id = write_id('t', millis, n);
    entry_with_id(
        id,
        operation,
        id_commodity,
        commodity_name,
        id_terminal,
        terminal_name,
        terminal_system,
        scu,
        price_bits,
        created_at,
    )
}

/// The trade log, in the order in which entries were added.
#[derive(Debug)]
pub struct TradeLog {
    entries: Vec<TradeEntry>,
}

impl View for TradeLog {
    type V = Seq<TradeView>;

    closed spec fn view(&self) -> Seq<TradeView> {
        views(self.entries@)
    }
}

/// The sorting keys that put the newest entry first.
pub open spec fn trade_keys(entries: Seq<TradeView>) -> Seq<Key> {
    Seq::new(entries.len(), |i: int| ((-1 - entries[i].created_at) as i64, 0i64))
}

/// The entries from the newest to the oldest; those of one time stay in order.
pub open spec fn newest_of(entries: Seq<TradeView>) -> Seq<TradeView> {
    let order = stable_order(trade_keys(entries));
    Seq::new(entries.len(), |k: int| entries[order[k]])
}

/// The entries without those that have the id.
pub open spec fn without_entry(entries: Seq<TradeView>, id: Seq<char>) -> Seq<TradeView>
    decreases entries.len(),
{
    if entries.len() == 0 {
        entries
    } else if entries.last().id == id {
        without_entry(entries.drop_last(), id)
    } else {
        without_entry(entries.drop_last(), id).push(entries.last())
    }
}

/// An entry that is no longer on its way.
pub open spec fn settled(entry: TradeView) -> TradeView {
    if entry.sync == TradeSync::Pending {
        TradeView { sync: TradeSync::Local, ..entry }
    } else {
        entry
    }
}

/// Entry `k` is the first with the id.
pub open spec fn first_entry(entries: Seq<TradeView>, id: Seq<char>, k: int) -> bool {
    &&& 0 <= k < entries.len()
    &&& entries[k].id == id
    &&& forall|j: int| 0 <= j < k ==> (#[trigger] entries[j]).id != id
}

/// Some entry has the id.
pub open spec fn has_entry(entries: Seq<TradeView>, id: Seq<char>) -> bool {
    exists|k: int| 0 <= k < entries.len() && (#[trigger] entries[k]).id == id
}

/// The position of the first entry with the id.
pub open spec fn entry_position(entries: Seq<TradeView>, id: Seq<char>) -> int {
    choose|k: int| #[trigger] first_entry(entries, id, k)
}

/// There is only one first entry with an id.
pub proof fn lemma_entry_position(entries: Seq<TradeView>, id: Seq<char>, k: int)
    requires
        first_entry(entries, id, k),
    ensures
        entry_position(entries, id) == k,
{
    let p = entry_position(entries, id);
    assert(first_entry(entries, id, p));
    if p < k {
        assert(entries[p].id != id);
    }
    if k < p {
        assert(entries[k].id != id);
    }
}

impl TradeLog {
    /// An empty log.
    pub fn in_memory() -> (r: TradeLog)
        ensures
            r@ == Seq::<TradeView>::empty(),
    {
        let r = TradeLog { entries: Vec::new() };
        assert(r@ =~= Seq::empty());
        r
    }

    /// A log of entries that were stored before.
    pub fn from_entries(entries: Vec<TradeEntry>) -> (r: TradeLog)
        ensures
            r@ == views(entries@),
    {
        TradeLog { entries }
    }

    /// The entries in the order in which they were added.
    pub fn entries(&self) -> (r: &[TradeEntry])
        ensures
            views(r@) == self@,
    {
        self.entries.as_slice()
    }

    /// The entries from the newest to the oldest.
    pub fn newest_first(&self) -> (r: Vec<&TradeEntry>)
        ensures
            views(r@) == newest_of(self@),
    {
        let ghost all = self@;
        let mut keys: Vec<Key> = Vec::new();
        let mut i: usize = 0;
        while i < self.entries.len()
            invariant
                i <= self.entries.len(),
                all == views(self.entries@),
                keys@ == trade_keys(all).take(i as int),
            decreases self.entries.len() - i,
        {
            assert(all[i as int] == self.entries@[i as int]@);
            keys.push((-1 - self.entries[i].created_at, 0));
            assert(trade_keys(all).take(i + 1) =~= trade_keys(all).take(i as int).push(
                trade_keys(all)[i as int],
            ));
            i += 1;
        }
        assert(trade_keys(all).take(i as int) =~= trade_keys(all));
        let order = sorted_positions(&keys);
        let mut r: Vec<&TradeEntry> = Vec::new();
        let mut k: usize = 0;
        assert(views(r@) =~= Seq::empty());
        while k < order.len()
            invariant
                k <= order.len() == self.entries.len(),
                all == views(self.entries@),
                keys@ == trade_keys(all),
                is_stable_order(as_ints(order@), keys@),
                as_ints(order@) == stable_order(keys@),
                views(r@) == newest_of(all).take(k as int),
            decreases order.len() - k,
        {
            assert(as_ints(order@)[k as int] == order@[k as int]);
            let entry = &self.entries[order[k]];
            proof {
                lemma_views_push(r@, entry);
                assert(newest_of(all)[k as int] == entry@);
                assert(newest_of(all).take(k + 1) =~= newest_of(all).take(k as int).push(entry@));
            }
            r.push(entry);
            k += 1;
        }
        assert(newest_of(all).take(k as int) =~= newest_of(all));
        r
    }

    /// Adds an entry and returns its id.
    pub fn add(&mut self, entry: TradeEntry) -> (id: String)
        ensures
            final(self)@ == old(self)@.push(entry@),
            id@ == entry.id@,
    {
        let id = entry.id.clone();
        proof {
            lemma_views_push(self.entries@, entry);
        }
        self.entries.push(entry);
        id
    }

    /// Removes the entries with an id.
    pub fn remove(&mut self, id: &str)
        ensures
            final(self)@ == without_entry(old(self)@, id@),
    {
        let ghost all = self@;
        let mut kept: Vec<TradeEntry> = Vec::new();
        let mut i: usize = 0;
        assert(views(kept@) =~= Seq::empty());
        while i < self.entries.len()
            invariant
                i <= self.entries.len(),
                all == views(self.entries@),
                views(kept@) == without_entry(all.take(i as int), id@),
            decreases self.entries.len() - i,
        {
            proof {
                assert(all.take(i + 1).drop_last() =~= all.take(i as int));
                assert(all.take(i + 1).last() == self.entries@[i as int]@);
            }
            if !same(self.entries[i].id.as_str(), id) {
                let entry = self.entries[i].clone();
                proof {
                    lemma_views_push(kept@, entry);
                }
                kept.push(entry);
            }
            i += 1;
        }
        assert(all.take(i as int) =~= all);
        self.entries = kept;
    }

    /// The first entry with an id, to be changed.
    pub fn get_mut(&mut self, id: &str) -> (r: Option<&mut TradeEntry>)
        ensures
            match r {
                Some(entry) => exists|k: int| #[trigger]
                    first_entry(old(self)@, id@, k) && entry@ == old(self)@[k] && final(self)@
                        == old(self)@.update(k, final(entry)@),
                None => !has_entry(old(self)@, id@) && final(self)@ == old(self)@,
            },
    {
        let ghost all = self@;
        let at = self.position(id);
        match at {
            Some(i) => {
                let ghost before = self.entries@;
                let entry = &mut self.entries[i];
                proof {
                    assert(views(before.update(i as int, *final(entry))) =~= all.update(
                        i as int,
                        final(entry)@,
                    ));
                }
                Some(entry)
            },
            None => None,
        }
    }

    /// The position of the first entry with an id.
    fn position(&self, id: &str) -> (r: Option<usize>)
        ensures
            match r {
                Some(k) => first_entry(self@, id@, k as int) && k < self.entries@.len(),
                None => !has_entry(self@, id@),
            },
    {
        let mut i: usize = 0;
        while i < self.entries.len()
            invariant
                i <= self.entries.len(),
                forall|j: int| 0 <= j < i ==> (#[trigger] self@[j]).id != id@,
            decreases self.entries.len() - i,
        {
            assert(self@[i as int] == self.entries@[i as int]@);
            if same(self.entries[i].id.as_str(), id) {
                return Some(i);
            }
            i += 1;
        }
        None
    }

    /// Puts the entries that were left on their way, as when the program ended
    /// meanwhile, back to local. Returns whether there were any.
    pub fn reset_pending(&mut self) -> (changed: bool)
        ensures
            final(self)@ == Seq::new(old(self)@.len(), |i: int| settled(old(self)@[i])),
            changed == exists|i: int|
                0 <= i < old(self)@.len() && (#[trigger] old(self)@[i]).sync == TradeSync::Pending,
    {
        let ghost all = self@;
        let mut changed = false;
        let mut i: usize = 0;
        while i < self.entries.len()
            invariant
                i <= self.entries@.len() == all.len(),
                changed == exists|j: int|
                    0 <= j < i && (#[trigger] all[j]).sync == TradeSync::Pending,
                forall|j: int| 0 <= j < i ==> #[trigger] self.entries@[j]@ == settled(all[j]),
                forall|j: int| i <= j < all.len() ==> #[trigger] self.entries@[j]@ == all[j],
            decreases self.entries@.len() - i,
        {
            let ghost before = self.entries@;
            assert(before[i as int]@ == all[i as int]);
            if self.entries[i].sync == TradeSync::Pending {
                let mut entry = self.entries[i].clone();
                entry.sync = TradeSync::Local;
                self.entries.set(i, entry);
                changed = true;
                assert(all[i as int].sync == TradeSync::Pending);
            }
            i += 1;
        }
        assert(views(self.entries@) =~= Seq::new(all.len(), |i: int| settled(all[i])));
        changed
    }
}

/// In the newest-first order, no entry is newer than one before it.
pub proof fn law_newest_come_first(entries: Seq<TradeView>, k: int, l: int)
    requires
        0 <= k < l < entries.len(),
    ensures
        newest_of(entries)[k].created_at >= newest_of(entries)[l].created_at,
{
    let keys = trade_keys(entries);
    lemma_stable_order_exists(keys);
    let order = stable_order(keys);
    assert(precedes(keys, order[k], order[l]));
}

/// The newest-first order has every entry.
pub proof fn law_newest_has_every_entry(entries: Seq<TradeView>, i: int)
    requires
        0 <= i < entries.len(),
    ensures
        newest_of(entries).contains(entries[i]),
{
    let keys = trade_keys(entries);
    lemma_stable_order_exists(keys);
    let order = stable_order(keys);
    assert(order.contains(i));
    let k = choose|k: int| 0 <= k < order.len() && order[k] == i;
    assert(newest_of(entries)[k] == entries[i]);
}

/// A removed entry is gone, and every other one is still there.
pub proof fn law_removed_entry_is_gone(entries: Seq<TradeView>, id: Seq<char>)
    ensures
        !has_entry(without_entry(entries, id), id),
        forall|i: int|
            0 <= i < entries.len() && (#[trigger] entries[i]).id != id ==> without_entry(
                entries,
                id,
            ).contains(entries[i]),
    decreases entries.len(),
{
    if entries.len() > 0 {
        let shorter = entries.drop_last();
        law_removed_entry_is_gone(shorter, id);
        let before = without_entry(shorter, id);
        let after = without_entry(entries, id);
        assert(!has_entry(after, id)) by {
            if has_entry(after, id) {
                let k = choose|k: int| 0 <= k < after.len() && (#[trigger] after[k]).id == id;
                if k < before.len() {
                    assert(before[k].id == id);
                }
            }
        }
        assert forall|i: int| 0 <= i < entries.len() && (
        #[trigger] entries[i]).id != id implies after.contains(entries[i]) by {
            if i < shorter.len() {
                assert(shorter[i] == entries[i]);
                assert(before.contains(entries[i]));
                let k = choose|k: int| 0 <= k < before.len() && before[k] == entries[i];
                assert(after[k] == entries[i]);
            } else {
                assert(after[after.len() - 1] == entries[i]);
            }
        }
    }
}

/// Removing keeps exactly the entries with another id, in their order.
pub proof fn law_removing_keeps_the_others(entries: Seq<TradeView>, id: Seq<char>)
    ensures
        without_entry(entries, id) == entries.filter(|entry: TradeView| entry.id != id),
    decreases entries.len(),
{
    reveal(Seq::filter);
    if entries.len() > 0 {
        law_removing_keeps_the_others(entries.drop_last(), id);
    }
}

/// Entries of one time stand in the order in which they were added.
pub proof fn law_trades_of_one_time_keep_their_order(entries: Seq<TradeView>)
    ensures
        exists|positions: Seq<int>|
            #![trigger positions.len()]
            {
                &&& positions.len() == newest_of(entries).len() == entries.len()
                &&& forall|k: int|
                    0 <= k < positions.len() ==> 0 <= #[trigger] positions[k] < entries.len()
                        && newest_of(entries)[k] == entries[positions[k]]
                &&& forall|k: int, l: int|
                    0 <= k < l < positions.len() ==> {
                        let newer = entries[#[trigger] positions[k]].created_at;
                        let older = entries[#[trigger] positions[l]].created_at;
                        newer > older || (newer == older && positions[k] < positions[l])
                    }
            },
{
    let keys = trade_keys(entries);
    lemma_stable_order_exists(keys);
    let order = stable_order(keys);
    assert forall|k: int, l: int| 0 <= k < l < order.len() implies {
        let newer = entries[#[trigger] order[k]].created_at;
        let older = entries[#[trigger] order[l]].created_at;
        newer > older || (newer == older && order[k] < order[l])
    } by {
        assert(precedes(keys, order[k], order[l]));
    }
    assert(order.len() == newest_of(entries).len());
}

/// A new entry holds what it was made of and nothing of the service; and putting entries
/// back to local changes those on their way, and of them nothing else.
pub proof fn law_new_entries_are_local(
    id: Seq<char>,
    operation: TradeOp,
    id_commodity: u32,
    id_terminal: u32,
    scu: u32,
    price_bits: u64,
    created_at: i64,
    entry: TradeView,
)
    ensures
        ({
            let name = Seq::<char>::empty();
            let e = entry_of(
                id,
                operation,
                id_commodity,
                name,
                id_terminal,
                name,
                name,
                scu,
                price_bits,
                created_at,
            );
            &&& e.id == id && e.operation == operation && e.id_commodity == id_commodity
            &&& e.id_terminal == id_terminal && e.scu == scu && e.price_bits == price_bits
            &&& e.created_at == created_at
            &&& e.sync == TradeSync::Local && e.uex_id is None && e.status_text.len() == 0
        }),
        settled(entry).sync != TradeSync::Pending,
        entry.sync != TradeSync::Pending ==> settled(entry) == entry,
        entry.sync == TradeSync::Pending ==> settled(entry) == (TradeView {
            sync: TradeSync::Local,
            ..entry
        }),
{
}

} // verus!
