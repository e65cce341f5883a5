//! Data shared by extraction, review and submission.

use vstd::prelude::*;

verus! {

/// Whether a terminal screen shows the player buying from the shop or selling
/// to it. This decides which price, quantity and status fields a submission
/// fills.
#[derive(Clone, Copy, Debug, PartialEq, Eq, Structural)]
pub enum TerminalType {
    Buy,
    Sell,
}

impl TerminalType {
    /// The name in submissions.
    pub fn as_str(&self) -> (r: &'static str)
        ensures
            r@ == match self {
                TerminalType::Buy => "buy"@,
                TerminalType::Sell => "sell"@,
            },
    {
        match self {
            TerminalType::Buy => "buy",
            TerminalType::Sell => "sell",
        }
    }
}

/// The characters of an optional text.
pub open spec fn text_of(t: Option<String>) -> Option<Seq<char>> {
    match t {
        Some(s) => Some(s@),
        None => None,
    }
}

/// What each element of `s` stands for.
pub open spec fn views<T: View>(s: Seq<T>) -> Seq<T::V> {
    Seq::new(s.len(), |i: int| s[i].view())
}

/// One more element stands for one more thing.
pub proof fn lemma_views_push<T: View>(s: Seq<T>, x: T)
    ensures
        views(s.push(x)) == views(s).push(x.view()),
{
    assert(views(s.push(x)) =~= views(s).push(x.view()));
}

/// A copy of an optional text.
pub fn copy_text(t: &Option<String>) -> (r: Option<String>)
    ensures
        text_of(r) == text_of(*t),
{
    match t {
        Some(s) => Some(s.clone()),
        None => None,
    }
}

/// A copy of a list of texts.
pub fn copy_texts(v: &Vec<String>) -> (r: Vec<String>)
    ensures
        views(r@) == views(v@),
{
    let mut r: Vec<String> = Vec::new();
    let mut i: usize = 0;
    while i < v.len()
        invariant
            i <= v.len(),
            views(r@) == views(v@).take(i as int),
        decreases v.len() - i,
    {
        let item = v[i].clone();
        proof {
            lemma_views_push(r@, item);
            assert(views(v@).take(i + 1) =~= views(v@).take(i as int).push(views(v@)[i as int]));
        }
        r.push(item);
        i += 1;
    }
    assert(views(v@).take(v@.len() as int) =~= views(v@));
    r
}

/// A commodity row of a terminal screenshot. Every field that was read off the
/// screen carries a confidence from 0 to 100, so that doubtful values can be
/// flagged for correction.
#[derive(Debug, PartialEq)]
pub struct Commodity {
    /// Canonical name of the best match.
    pub name: String,
    /// Commodity id, if the name matched a known commodity.
    pub id_commodity: Option<u32>,
    pub name_confidence: u8,
    /// Shop quantity in SCU.
    pub quantity_scu: Option<u32>,
    pub quantity_confidence: u8,
    /// Stock label as shown in game, such as "max inventory".
    pub stock_label: Option<String>,
    /// Inventory status from 1 to 7.
    pub status: Option<u8>,
    /// Price in aUEC per SCU.
    pub price: Option<u32>,
    pub price_confidence: u8,
    /// Whether the row is sent.
    pub included: bool,
}

/// What a [`Commodity`] stands for.
pub struct CommodityView {
    pub name: Seq<char>,
    pub id_commodity: Option<u32>,
    pub name_confidence: u8,
    pub quantity_scu: Option<u32>,
    pub quantity_confidence: u8,
    pub stock_label: Option<Seq<char>>,
    pub status: Option<u8>,
    pub price: Option<u32>,
    pub price_confidence: u8,
    pub included: bool,
}

impl View for Commodity {
    type V = CommodityView;

    open spec fn view(&self) -> CommodityView {
        CommodityView {
            name: self.name@,
            id_commodity: self.id_commodity,
            name_confidence: self.name_confidence,
            quantity_scu: self.quantity_scu,
            quantity_confidence: self.quantity_confidence,
            stock_label: text_of(self.stock_label),
            status: self.status,
            price: self.price,
            price_confidence: self.price_confidence,
            included: self.included,
        }
    }
}

impl Clone for Commodity {
    fn clone(&self) -> (r: Self)
        ensures
            r@ == self@,
    {
        Commodity {
            name: self.name.clone(),
            id_commodity: self.id_commodity,
            name_confidence: self.name_confidence,
            quantity_scu: self.quantity_scu,
            quantity_confidence: self.quantity_confidence,
            stock_label: copy_text(&self.stock_label),
            status: self.status,
            price: self.price,
            price_confidence: self.price_confidence,
            included: self.included,
        }
    }
}

impl CommodityView {
    /// A row of which only the name is known.
    pub open spec fn named(name: Seq<char>) -> CommodityView {
        CommodityView {
            name,
            id_commodity: None,
            name_confidence: 0,
            quantity_scu: None,
            quantity_confidence: 0,
            stock_label: None,
            status: None,
            price: None,
            price_confidence: 0,
            included: true,
        }
    }

    /// Its commodity and its price are known.
    pub open spec fn is_priced(self) -> bool {
        self.id_commodity is Some && self.price is Some
    }

    /// The smallest confidence among the fields that were measured; 0 where none
    /// was. The quantity and the price count only where they are present.
    pub open spec fn least_confidence(self) -> u8 {
        let quantity = if self.quantity_scu is Some {
            self.quantity_confidence
        } else {
            0
        };
        let price = if self.price is Some {
            self.price_confidence
        } else {
            0
        };
        lesser_confidence(lesser_confidence(self.name_confidence, quantity), price)
    }
}

/// The smaller of two confidences, of which one of 0 means that nothing was
/// measured and does not count.
pub open spec fn lesser_confidence(a: u8, b: u8) -> u8 {
    if a == 0 || 0 < b < a {
        b
    } else {
        a
    }
}

fn lesser(a: u8, b: u8) -> (r: u8)
    ensures
        r == lesser_confidence(a, b),
{
    if a == 0 || (0 < b && b < a) {
        b
    } else {
        a
    }
}

impl Commodity {
    /// A row of which only the name is known.
    pub fn new(name: &str) -> (r: Self)
        ensures
            r@ == CommodityView::named(name@),
    {
        Commodity {
            name: name.to_owned(),
            id_commodity: None,
            name_confidence: 0,
            quantity_scu: None,
            quantity_confidence: 0,
            stock_label: None,
            status: None,
            price: None,
            price_confidence: 0,
            included: true,
        }
    }

    /// The lowest confidence among the measured fields, by which a row is flagged
    /// for review. A confidence of 0 means "not measured" or "entered by hand" and
    /// never drags the row down.
    pub fn min_confidence(&self) -> (c: u8)
        ensures
            c == self@.least_confidence(),
    {
        let quantity: u8 = if self.quantity_scu.is_some() {
            self.quantity_confidence
        } else {
            0
        };
        let price: u8 = if self.price.is_some() {
            self.price_confidence
        } else {
            0
        };
        lesser(lesser(self.name_confidence, quantity), price)
    }
}

/// A copy of a list of rows.
pub fn copy_rows(v: &Vec<Commodity>) -> (r: Vec<Commodity>)
    ensures
        views(r@) == views(v@),
{
    let mut r: Vec<Commodity> = Vec::new();
    let mut i: usize = 0;
    while i < v.len()
        invariant
            i <= v.len(),
            views(r@) == views(v@).take(i as int),
        decreases v.len() - i,
    {
        let item = v[i].clone();
        proof {
            lemma_views_push(r@, item);
            assert(views(v@).take(i + 1) =~= views(v@).take(i as int).push(views(v@)[i as int]));
        }
        r.push(item);
        i += 1;
    }
    r
}

/// A terminal as offered in candidate lists.
#[derive(Debug, PartialEq, Eq)]
pub struct TerminalRef {
    pub id: u32,
    pub name: String,
    pub nickname: String,
    /// Star system the terminal is in.
    pub system: String,
    /// Operator or shop prefix, if any.
    pub operator: Option<String>,
}

/// What a terminal stands for.
pub struct TerminalView {
    pub id: u32,
    pub name: Seq<char>,
    pub nickname: Seq<char>,
    pub system: Seq<char>,
    pub operator: Option<Seq<char>>,
}

impl View for TerminalRef {
    type V = TerminalView;

    open spec fn view(&self) -> TerminalView {
        TerminalView {
            id: self.id,
            name: self.name@,
            nickname: self.nickname@,
            system: self.system@,
            operator: text_of(self.operator),
        }
    }
}

impl Clone for TerminalRef {
    fn clone(&self) -> (r: Self)
        ensures
            r@ == self@,
    {
        TerminalRef {
            id: self.id,
            name: self.name.clone(),
            nickname: self.nickname.clone(),
            system: self.system.clone(),
            operator: copy_text(&self.operator),
        }
    }
}

/// A copy of a list of terminals.
pub fn copy_terminals(v: &Vec<TerminalRef>) -> (r: Vec<TerminalRef>)
    ensures
        views(r@) == views(v@),
{
    let mut r: Vec<TerminalRef> = Vec::new();
    let mut i: usize = 0;
    while i < v.len()
        invariant
            i <= v.len(),
            views(r@) == views(v@).take(i as int),
        decreases v.len() - i,
    {
        let item = v[i].clone();
        proof {
            lemma_views_push(r@, item);
            assert(views(v@).take(i + 1) =~= views(v@).take(i as int).push(views(v@)[i as int]));
        }
        r.push(item);
        i += 1;
    }
    r
}

/// The result of processing one screenshot: which terminal it shows, buy or
/// sell, and the commodity rows.
#[derive(Debug, PartialEq)]
pub struct Extraction {
    /// Path of the screenshot.
    pub screenshot: String,
    /// Display name of the matched terminal.
    pub terminal_name: Option<String>,
    /// Id of the matched terminal.
    pub id_terminal: Option<u32>,
    pub terminal_confidence: u8,
    /// Terminals that read alike, for the user to choose from.
    pub terminal_candidates: Vec<TerminalRef>,
    pub terminal_type: Option<TerminalType>,
    pub commodities: Vec<Commodity>,
    /// Unix time of the capture, if the file name tells.
    pub captured_at: Option<i64>,
}

/// What an [`Extraction`] stands for.
pub struct ExtractionView {
    pub screenshot: Seq<char>,
    pub terminal_name: Option<Seq<char>>,
    pub id_terminal: Option<u32>,
    pub terminal_confidence: u8,
    pub terminal_candidates: Seq<TerminalView>,
    pub terminal_type: Option<TerminalType>,
    pub commodities: Seq<CommodityView>,
    pub captured_at: Option<i64>,
}

impl View for Extraction {
    type V = ExtractionView;

    open spec fn view(&self) -> ExtractionView {
        ExtractionView {
            screenshot: self.screenshot@,
            terminal_name: text_of(self.terminal_name),
            id_terminal: self.id_terminal,
            terminal_confidence: self.terminal_confidence,
            terminal_candidates: views(self.terminal_candidates@),
            terminal_type: self.terminal_type,
            commodities: views(self.commodities@),
            captured_at: self.captured_at,
        }
    }
}

impl Clone for Extraction {
    fn clone(&self) -> (r: Self)
        ensures
            r@ == self@,
    {
        Extraction {
            screenshot: self.screenshot.clone(),
            terminal_name: copy_text(&self.terminal_name),
            id_terminal: self.id_terminal,
            terminal_confidence: self.terminal_confidence,
            terminal_candidates: copy_terminals(&self.terminal_candidates),
            terminal_type: self.terminal_type,
            commodities: copy_rows(&self.commodities),
            captured_at: self.captured_at,
        }
    }
}

impl ExtractionView {
    /// An extraction that holds nothing but the path of its screenshot.
    pub open spec fn empty(screenshot: Seq<char>) -> ExtractionView {
        ExtractionView {
            screenshot,
            terminal_name: None,
            id_terminal: None,
            terminal_confidence: 0,
            terminal_candidates: Seq::empty(),
            terminal_type: None,
            commodities: Seq::empty(),
            captured_at: None,
        }
    }

    /// The terminal and its type are known, and some row has a known commodity and
    /// a price.
    pub open spec fn submittable(self) -> bool {
        &&& self.id_terminal is Some
        &&& self.terminal_type is Some
        &&& exists|i: int|
            0 <= i < self.commodities.len() && (#[trigger] self.commodities[i]).is_priced()
    }
}

impl Extraction {
    /// An extraction that holds nothing but the path of its screenshot.
    pub fn new(screenshot: &str) -> (r: Self)
        ensures
            r@ == ExtractionView::empty(screenshot@),
    {
        let r = Extraction {
            screenshot: screenshot.to_owned(),
            terminal_name: None,
            id_terminal: None,
            terminal_confidence: 0,
            terminal_candidates: Vec::new(),
            terminal_type: None,
            commodities: Vec::new(),
            captured_at: None,
        };
        assert(r@.terminal_candidates =~= Seq::empty());
        assert(r@.commodities =~= Seq::empty());
        r
    }

    /// Ready to submit: the terminal and its type are known, and at least one
    /// row has a known commodity and a price.
    pub fn is_submittable(&self) -> (r: bool)
        ensures
            r == self@.submittable(),
    {
        if self.id_terminal.is_none() || self.terminal_type.is_none() {
            return false;
        }
        let mut i: usize = 0;
        while i < self.commodities.len()
            invariant
                i <= self.commodities.len(),
                self.id_terminal is Some,
                self.terminal_type is Some,
                forall|j: int|
                    0 <= j < i ==> !(#[trigger] self@.commodities[j]).is_priced(),
            decreases self.commodities.len() - i,
        {
            if self.commodities[i].id_commodity.is_some() && self.commodities[i].price.is_some() {
                assert(self@.commodities[i as int].is_priced());
                return true;
            }
            i += 1;
        }
        false
    }
}

/// A field of a row was measured: it is there, and its confidence is not 0.
pub open spec fn was_measured(row: CommodityView, confidence: u8) -> bool {
    &&& confidence > 0
    &&& {
        ||| confidence == row.name_confidence
        ||| row.quantity_scu is Some && confidence == row.quantity_confidence
        ||| row.price is Some && confidence == row.price_confidence
    }
}

/// The confidence of a row is the smallest one of what was measured, and 0 where nothing
/// was.
pub proof fn law_least_confidence_is_of_what_was_measured(row: CommodityView)
    ensures
        forall|c: u8| #[trigger] was_measured(row, c) ==> row.least_confidence() <= c,
        row.least_confidence() > 0 ==> was_measured(row, row.least_confidence()),
        row.least_confidence() == 0 ==> forall|c: u8| !#[trigger] was_measured(row, c),
{
}

} // verus!
