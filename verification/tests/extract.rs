use datarunner_core::card::{
    resolve_ship_ammo, resolve_stock, ship_ammo_from, truncate_before_cargo_sizes,
};
use datarunner_core::extract::{
    add_card, detect_terminal, detect_type, extract, merge, CardReading,
};
use datarunner_core::model::{Commodity, Extraction, TerminalType};
use datarunner_core::ocr::Word;
use datarunner_core::pricing;
use datarunner_core::reference::{CommodityMatch, RawCommodity, RawTerminal, Reference};

/// Known entries, and others whose ids do not matter: those are numbered on from 1000.
const COMMODITIES: [(u32, &str); 17] = [
    (13, "Bexalite"),
    (25, "Diamond"),
    (39, "Hephaestanite"),
    (44, "Iron"),
    (67, "Scrap"),
    (75, "Titanium"),
    (109, "Steel"),
    (110, "Cobalt"),
    (122, "Stileron"),
    (128, "Ship Ammunition"),
    (201, "Ship Ammunition - Size 1"),
    (202, "Ship Ammunition - Size 2"),
    (203, "Ship Ammunition - Size 3"),
    (204, "Ship Ammunition - Size 4"),
    (205, "Ship Ammunition - Size 5"),
    (206, "Ship Ammunition - Size 6"),
    (207, "Ship Ammunition - Size 7"),
];

const OTHER_COMMODITIES: [&str; 108] = [
    "Acryliplex Composite",
    "Agricium",
    "Agricium (Ore)",
    "Agricultural Supplies",
    "Altruciatoxin",
    "Aluminum",
    "Aluminum (Ore)",
    "Amioshi Plague",
    "Ammonia",
    "Aphorite",
    "Argon",
    "Astatine",
    "Atlasium",
    "Audio Visual Equipment",
    "Beradom",
    "Beryl",
    "Beryl (Raw)",
    "Bioplastic",
    "Bluemoon Fungus",
    "Boron",
    "Borase",
    "Borase (Ore)",
    "Carbon",
    "Carbon-Silk",
    "Chlorine",
    "Compboard",
    "Construction Materials",
    "Copper",
    "Copper (Ore)",
    "Corundum",
    "Corundum (Raw)",
    "Degnous Root",
    "Diamond (Raw)",
    "Diamond Laminate",
    "Distilled Spirits",
    "Dolivine",
    "Dymantium",
    "E'tam",
    "Feynmaline",
    "Fireworks",
    "Fluorine",
    "Fresh Food",
    "Gasping Weevil Eggs",
    "Glacosite",
    "Gold",
    "Gold (Ore)",
    "Golden Medmon",
    "Hadanite",
    "Heart of the Woods",
    "Helium",
    "Hephaestanite (Raw)",
    "Hydrogen",
    "Hydrogen Fuel",
    "Inert Materials",
    "Inert Materials (Raw)",
    "Iodine",
    "Iron (Ore)",
    "Janalite",
    "Laranite",
    "Laranite (Ore)",
    "Lunes",
    "Marok Gem",
    "Maze",
    "Medical Supplies",
    "Medivet",
    "Mercury",
    "Methane",
    "Neon",
    "Neon Signage",
    "Nitrogen",
    "Omnapoxy",
    "Organics",
    "Osoian Hides",
    "Phosphorus",
    "Pitambu",
    "Pressurized Ice",
    "Processed Food",
    "Prota",
    "Quantanium",
    "Quantum Fuel",
    "Quantanium (Raw)",
    "Quartz",
    "Quartz (Raw)",
    "Ranta Dung",
    "Recycled Material Composite",
    "Red Festival Envelope",
    "Revenant Pod",
    "Revenant Tree Pollen",
    "Riccite",
    "RMC",
    "Savrilium",
    "Silicon",
    "SLAM",
    "Souvenirs",
    "Stims",
    "Stone Bug Shell",
    "Sunset Berries",
    "Taranite",
    "Taranite (Raw)",
    "Thermalfoam",
    "Tin",
    "Tungsten",
    "Tungsten (Ore)",
    "Waste",
    "WiDoW",
    "Xa'Pyen",
    "Year Of The Rooster Envelope",
    "Zeta-Prolanide",
];

const TERMINALS: [(u32, &str, &str); 3] = [
    (551, "Bueno Ravine", "Pyro"),
    (486, "Rod's Fuel 'N Supplies", "Pyro"),
    (25, "Everus Harbor", "Stanton"),
];

const OTHER_TERMINALS: [(&str, &str); 88] = [
    ("Area 18", "Stanton"),
    ("ArcCorp Mining Area 045", "Stanton"),
    ("ArcCorp Mining Area 048", "Stanton"),
    ("ArcCorp Mining Area 056", "Stanton"),
    ("ArcCorp Mining Area 061", "Stanton"),
    ("ArcCorp Mining Area 141", "Stanton"),
    ("ArcCorp Mining Area 157", "Stanton"),
    ("Ashland", "Pyro"),
    ("Baijini Point", "Stanton"),
    ("Benson Mining Outpost", "Stanton"),
    ("Brio's Breaker Yard", "Stanton"),
    ("Bountiful Harvest Hydroponics", "Stanton"),
    ("Canard View", "Pyro"),
    ("Checkmate", "Pyro"),
    ("Chawla's Beach", "Pyro"),
    ("Deakins Research Outpost", "Stanton"),
    ("Devlin Scrap & Salvage", "Stanton"),
    ("Dudley & Daughters", "Pyro"),
    ("Endgame", "Pyro"),
    ("Fallow Field", "Pyro"),
    ("Feo Canyon Depot", "Stanton"),
    ("Gaslight", "Pyro"),
    ("Gallete Family Farms", "Stanton"),
    ("Goner's Deal", "Pyro"),
    ("GrimHEX", "Stanton"),
    ("HDMS-Anderson", "Stanton"),
    ("HDMS-Bezdek", "Stanton"),
    ("HDMS-Edmond", "Stanton"),
    ("HDMS-Hadley", "Stanton"),
    ("HDMS-Hahn", "Stanton"),
    ("HDMS-Lathan", "Stanton"),
    ("HDMS-Norgaard", "Stanton"),
    ("HDMS-Oparei", "Stanton"),
    ("HDMS-Perlman", "Stanton"),
    ("HDMS-Pinewood", "Stanton"),
    ("HDMS-Ryder", "Stanton"),
    ("HDMS-Stanhope", "Stanton"),
    ("HDMS-Thedus", "Stanton"),
    ("HDMS-Woodruff", "Stanton"),
    ("Hickes Research Outpost", "Stanton"),
    ("Humboldt Mines", "Stanton"),
    ("Jackson's Swap", "Pyro"),
    ("Jumptown", "Stanton"),
    ("Kudre Ore", "Stanton"),
    ("Last Landings", "Pyro"),
    ("Levski", "Nyx"),
    ("Lorville", "Stanton"),
    ("Loveridge Mineral Reserve", "Stanton"),
    ("Megumi Refueling", "Pyro"),
    ("Mount Esperanza", "Stanton"),
    ("New Babbage", "Stanton"),
    ("Nuen Waste Management", "Stanton"),
    ("Orbituary", "Pyro"),
    ("Orison", "Stanton"),
    ("Ostler's Claim", "Pyro"),
    ("Patch City", "Pyro"),
    ("Port Tressler", "Stanton"),
    ("Prospect Depot", "Pyro"),
    ("Pyro Gateway", "Stanton"),
    ("Rat's Nest", "Pyro"),
    ("Rayari Anvik Research Outpost", "Stanton"),
    ("Rayari Cantwell Research Outpost", "Stanton"),
    ("Rayari Deltana Research Outpost", "Stanton"),
    ("Rayari Kaltag Research Outpost", "Stanton"),
    ("Rayari McGrath Research Outpost", "Stanton"),
    ("Reclamation & Disposal Orinth", "Stanton"),
    ("Ruin Station", "Pyro"),
    ("Sacren's Plot", "Pyro"),
    ("Samson & Son's Salvage Center", "Stanton"),
    ("Seer's Canyon", "Pyro"),
    ("Seraphim Station", "Stanton"),
    ("Shady Glen Farms", "Pyro"),
    ("Shepherd's Rest", "Pyro"),
    ("Shubin Mining Facility SAL-2", "Stanton"),
    ("Shubin Mining Facility SAL-5", "Stanton"),
    ("Shubin Mining Facility SMCa-6", "Stanton"),
    ("Shubin Mining Facility SMO-10", "Stanton"),
    ("Stag's Rut", "Pyro"),
    ("Stanton Gateway", "Pyro"),
    ("Starlight Service Station", "Pyro"),
    ("Sunset Mesa", "Pyro"),
    ("Terra Gateway", "Stanton"),
    ("Terra Mills HydroFarm", "Stanton"),
    ("The Golden Riviera", "Pyro"),
    ("The Orphanage", "Stanton"),
    ("The Yard", "Pyro"),
    ("Tram & Myers Mining", "Stanton"),
    ("Windfall", "Pyro"),
];

fn full_lists() -> (Vec<RawCommodity>, Vec<RawTerminal>) {
    let commodity = |id: u32, name: &str| RawCommodity {
        id,
        name: name.to_string(),
        is_available: 1,
        is_visible: 1,
    };
    let terminal = |id: u32, name: &str, shown: &str, system: &str| RawTerminal {
        id,
        name: name.to_string(),
        nickname: shown.to_string(),
        displayname: shown.to_string(),
        kind: "commodity".to_string(),
        is_available: 1,
        star_system_name: system.to_string(),
    };
    let mut commodities = Vec::new();
    for (i, name) in OTHER_COMMODITIES.iter().enumerate() {
        commodities.push(commodity(1000 + i as u32, name));
    }
    for (id, name) in COMMODITIES {
        commodities.push(commodity(id, name));
    }
    let mut terminals = Vec::new();
    for (i, (name, system)) in OTHER_TERMINALS.iter().enumerate() {
        terminals.push(terminal(1000 + i as u32, name, name, system));
    }
    for (id, name, system) in TERMINALS {
        terminals.push(terminal(id, name, name, system));
    }
    for (id, system) in [(2001, "Pyro"), (2002, "Stanton")] {
        let name = format!("Admin - Nyx Gateway ({system})");
        terminals.push(terminal(id, &name, "Nyx Gateway", system));
    }
    (commodities, terminals)
}

fn reference() -> Reference {
    let (commodities, terminals) = full_lists();
    match Reference::from_json(Ok(commodities), Ok(terminals)) {
        Ok(r) => r,
        Err(e) => panic!("{e}"),
    }
}

fn w(text: &str, line: (i32, i32, i32), x: i32, y: i32, conf: u8) -> Word {
    Word {
        text: text.to_string(),
        conf,
        left: x,
        top: y,
        width: text.len() as i32 * 8,
        height: 14,
        line,
        word_num: 0,
    }
}

fn synthetic_buy() -> Vec<Word> {
    vec![
        w("BUENO", (1, 1, 1), 100, 10, 92),
        w("RAVINE", (1, 1, 1), 180, 10, 91),
        w("Buy", (1, 1, 2), 100, 40, 93),
        w("Local", (1, 1, 2), 140, 40, 92),
        w("Market", (1, 1, 2), 200, 40, 92),
        // Diamond card (y ~100-150)
        w("Diamond", (1, 1, 3), 100, 100, 88),
        w("SHOP", (1, 1, 4), 300, 100, 70),
        w("QUANTITY", (1, 1, 4), 340, 100, 70),
        w("Max", (1, 1, 5), 100, 120, 90),
        w("Inventory", (1, 1, 5), 140, 120, 90),
        w("525", (1, 1, 5), 250, 120, 94),
        w("SCU", (1, 1, 5), 290, 120, 94),
        w("¤6.561K/SCU", (1, 1, 6), 100, 140, 40),
        // Stileron card (y ~200-250)
        w("Stileron", (1, 1, 7), 100, 200, 100),
        w("SHOP", (1, 1, 8), 300, 200, 70),
        w("QUANTITY", (1, 1, 8), 340, 200, 70),
        w("High", (1, 1, 9), 100, 220, 90),
        w("Inventory", (1, 1, 9), 140, 220, 90),
        w("6", (1, 1, 9), 250, 220, 94),
        w("SCU", (1, 1, 9), 290, 220, 94),
        w("¤122.85K/SCU", (1, 1, 10), 100, 240, 75),
    ]
}

#[test]
fn extracts_buy_terminal_and_commodities() {
    let r = reference();
    let words = synthetic_buy();
    let ex = extract(&r, &words, "test.jpg", Some(1_700_000_000));

    assert_eq!(ex.terminal_name.as_deref(), Some("Bueno Ravine"));
    assert_eq!(ex.id_terminal, Some(551));
    assert_eq!(ex.terminal_type, Some(TerminalType::Buy));
    assert_eq!(ex.commodities.len(), 2);

    let diamond = &ex.commodities[0];
    assert_eq!(diamond.name, "Diamond");
    assert_eq!(diamond.id_commodity, Some(25));
    assert_eq!(diamond.status, Some(7)); // max inventory
    assert_eq!(diamond.quantity_scu, Some(525));
    assert_eq!(diamond.price, Some(6561));

    let stileron = &ex.commodities[1];
    assert_eq!(stileron.id_commodity, Some(122));
    assert_eq!(stileron.status, Some(5)); // high inventory
    assert_eq!(stileron.quantity_scu, Some(6));
    assert_eq!(stileron.price, Some(122850));

    assert_eq!(ex.screenshot, "test.jpg");
    assert_eq!(ex.captured_at, Some(1_700_000_000));
}

#[test]
fn merge_takes_terminal_from_confident_pass_and_best_fields() {
    // Pass A: identified the terminal, but weak commodity data.
    let mut a = Extraction::new("s.jpg");
    a.id_terminal = Some(551);
    a.terminal_name = Some("Bueno Ravine".into());
    a.terminal_confidence = 100;
    a.terminal_type = Some(TerminalType::Buy);
    let mut ca = Commodity::new("Diamond");
    ca.id_commodity = Some(25);
    ca.status = Some(7);
    a.commodities.push(ca);

    // Pass B: missed the terminal, but read price/qty well.
    let mut b = Extraction::new("s.jpg");
    b.terminal_type = Some(TerminalType::Buy);
    let mut cb = Commodity::new("Diamond");
    cb.id_commodity = Some(25);
    cb.price = Some(6561);
    cb.price_confidence = 93;
    cb.quantity_scu = Some(525);
    cb.quantity_confidence = 94;
    b.commodities.push(cb);
    // A commodity only pass B saw.
    let mut cb2 = Commodity::new("Stileron");
    cb2.id_commodity = Some(122);
    cb2.price = Some(122850);
    cb2.price_confidence = 90;
    b.commodities.push(cb2);

    let merged = merge(a, b);
    assert_eq!(merged.id_terminal, Some(551)); // kept from A
    assert_eq!(merged.terminal_confidence, 100);
    assert_eq!(merged.commodities.len(), 2);
    let diamond = &merged.commodities[0];
    assert_eq!(diamond.status, Some(7)); // from A
    assert_eq!(diamond.price, Some(6561)); // filled from B
    assert_eq!(diamond.quantity_scu, Some(525)); // filled from B
    assert_eq!(merged.commodities[1].id_commodity, Some(122)); // added from B
}

#[test]
fn resolve_stock_recovers_mangled_labels() {
    // "MAX" misread as "1AX".
    assert_eq!(
        resolve_stock("2,100 SCU 1ax Inventory ¤2,990/SCU"),
        Some(("max inventory".into(), 7))
    );
    // "OUT" misread as "0UT".
    assert_eq!(
        resolve_stock("0 SCU 0UT OF STOCK ¤211,000/SCU"),
        Some(("out of stock".into(), 1))
    );
    // Level word fully gone -> unrecoverable.
    assert_eq!(resolve_stock("52 SCU Inventory ¤28,928/SCU"), None);
}

#[test]
fn quantity_captured_despite_scu_word_row_ordering() {
    // The SCU unit word sits 1px higher than its number.
    let r = reference();
    let words = vec![
        w("BUENO", (1, 1, 1), 100, 10, 92),
        w("RAVINE", (1, 1, 1), 180, 10, 91),
        w("Sell", (1, 1, 2), 100, 40, 93),
        w("Local", (1, 1, 2), 140, 40, 92),
        w("Market", (1, 1, 2), 200, 40, 92),
        w("Iron", (1, 1, 3), 100, 100, 100),
        w("SCU", (1, 1, 3), 290, 99, 94),
        w("793", (1, 1, 3), 250, 100, 94),
    ];
    let ex = extract(&r, &words, "s.jpg", None);
    assert_eq!(ex.commodities[0].id_commodity, Some(44));
    assert_eq!(ex.commodities[0].quantity_scu, Some(793));
}

#[test]
fn cargo_size_boxes_are_not_read_as_quantity() {
    let blob = "Max Inventory 2,162 SCU ¤1,376/SCU AVAILABLE CARGO SIZE (SCU) 1 2 4 8 16";
    let cut = truncate_before_cargo_sizes(blob);
    assert_eq!(pricing::find_quantity(&cut), Some(2162));
    assert_eq!(pricing::find_price(&cut).map(|p| p.value), Some(1376));
}

#[test]
fn ship_ammo_sizes_resolve_distinctly() {
    let mut last = None;
    // Legible digit.
    let (id1, n1) = resolve_ship_ammo(128, "Ship Ammunition", "SIZE 1 12,000 SCU", &mut last);
    assert_eq!((id1, n1.as_str()), (201, "Ship Ammunition - Size 1"));
    // Digit lost ("ISIZE") -> sequential position.
    let (id2, _) = resolve_ship_ammo(128, "Ship Ammunition", "ISIZE 12,000 SCU", &mut last);
    assert_eq!(id2, 202);
    // Explicit "3" honored even after a gap.
    let (id3, _) = resolve_ship_ammo(128, "Ship Ammunition", "SIZE 3 12,000 SCU", &mut last);
    assert_eq!(id3, 203);
    // A non-ammo commodity resets the run.
    let (idx, nx) = resolve_ship_ammo(44, "Iron", "0 SCU", &mut last);
    assert_eq!((idx, nx.as_str()), (44, "Iron"));
    assert_eq!(last, None);
}

fn mk(id: u32, name: &str) -> Commodity {
    let mut c = Commodity::new(name);
    c.id_commodity = Some(id);
    c.status = Some(3);
    c
}

#[test]
fn merge_produces_screen_ordered_union() {
    let mut a = Extraction::new("s.jpg");
    a.commodities = vec![mk(44, "Iron"), mk(109, "Steel"), mk(75, "Titanium")];
    let mut b = Extraction::new("s.jpg");
    b.commodities = vec![mk(67, "Scrap"), mk(44, "Iron"), mk(109, "Steel"), mk(75, "Titanium")];

    let merged = merge(a, b);
    let ids: Vec<u32> = merged.commodities.iter().filter_map(|c| c.id_commodity).collect();
    assert_eq!(ids, vec![67, 44, 109, 75]); // Scrap first, then Iron, Steel, Titanium
}

#[test]
fn detects_sell_when_no_shop_quantity() {
    let r = reference();
    let words = vec![
        w("BUENO", (1, 1, 1), 100, 10, 92),
        w("RAVINE", (1, 1, 1), 180, 10, 91),
        w("Sell", (1, 1, 2), 100, 40, 93),
        w("Local", (1, 1, 2), 140, 40, 92),
        w("Market", (1, 1, 2), 200, 40, 92),
        w("Iron", (1, 1, 3), 100, 100, 100),
        w("Out", (1, 1, 4), 100, 120, 90),
        w("of", (1, 1, 4), 140, 120, 90),
        w("stock", (1, 1, 4), 170, 120, 90),
        w("0", (1, 1, 4), 250, 120, 94),
        w("SCU", (1, 1, 4), 290, 120, 94),
    ];
    let ex = extract(&r, &words, "s.jpg", None);
    assert_eq!(ex.terminal_type, Some(TerminalType::Sell));
    assert_eq!(ex.commodities.len(), 1);
    assert_eq!(ex.commodities[0].id_commodity, Some(44));
    assert_eq!(ex.commodities[0].status, Some(1)); // out of stock
}

#[test]
fn confidences_follow_the_first_number_of_a_card() {
    let ex = extract(&reference(), &synthetic_buy(), "t.jpg", None);
    let diamond = &ex.commodities[0];
    assert_eq!(diamond.name_confidence, 100);
    assert_eq!(diamond.quantity_confidence, 94);
    assert_eq!(diamond.price_confidence, 94);
    assert_eq!(diamond.stock_label.as_deref(), Some("max inventory"));
    assert!(diamond.included);
}

#[test]
fn labels_are_counted_and_dropped() {
    let words = synthetic_buy();
    assert_eq!(detect_type(&words), (TerminalType::Buy, 2));
    let mashed = vec![w("Shop-Quantity", (1, 1, 1), 0, 0, 90)];
    assert_eq!(detect_type(&mashed), (TerminalType::Buy, 1));
    let apart = vec![w("SHOP", (1, 1, 1), 0, 0, 90), w("now", (1, 1, 1), 50, 0, 90)];
    assert_eq!(detect_type(&apart), (TerminalType::Sell, 0));
}

#[test]
fn terminals_below_the_threshold_do_not_count() {
    let r = reference();
    assert!(detect_terminal(&r, &[w("qqqq", (1, 1, 1), 0, 0, 90)]).is_none());
    assert!(detect_terminal(&r, &[]).is_none());
    // A name does not span lines.
    let split = vec![w("BUENO", (1, 1, 1), 0, 0, 90), w("RAVINE", (1, 1, 2), 0, 20, 90)];
    assert!(detect_terminal(&r, &split).is_none());
    let joined = vec![w("BUENO", (1, 1, 1), 0, 0, 90), w("RAVINE", (1, 1, 1), 0, 20, 90)];
    assert_eq!(detect_terminal(&r, &joined).unwrap().score, 100);
}

#[test]
fn a_name_without_any_value_is_no_row() {
    let words = vec![w("Iron", (1, 1, 1), 100, 100, 100), w("gate", (1, 1, 2), 100, 120, 90)];
    assert!(extract(&reference(), &words, "s.jpg", None).commodities.is_empty());
}

#[test]
fn words_left_of_the_panel_or_below_the_card_do_not_count() {
    let r = reference();
    let words = vec![
        w("Iron", (1, 1, 1), 400, 100, 100),
        w("12", (1, 1, 2), 10, 120, 90),
        w("SCU", (1, 1, 2), 30, 120, 90),
        w("34", (1, 1, 3), 400, 400, 90),
        w("SCU", (1, 1, 3), 430, 400, 90),
        w("56", (1, 1, 4), 400, 130, 90),
        w("SCU", (1, 1, 4), 430, 130, 90),
    ];
    let ex = extract(&r, &words, "s.jpg", None);
    assert_eq!(ex.commodities.len(), 1);
    assert_eq!(ex.commodities[0].quantity_scu, Some(56));
}

#[test]
fn a_name_may_wrap_onto_a_second_line() {
    let r = reference();
    let words = vec![
        w("Ship", (1, 1, 1), 100, 100, 100),
        w("Ammunition", (1, 1, 1), 150, 100, 100),
        w("-", (1, 1, 1), 240, 100, 100),
        w("Size", (1, 1, 2), 100, 116, 100),
        w("2", (1, 1, 2), 150, 116, 100),
        w("77", (1, 1, 3), 100, 140, 90),
        w("SCU", (1, 1, 3), 140, 140, 90),
    ];
    let ex = extract(&r, &words, "s.jpg", None);
    assert_eq!(ex.commodities.len(), 1);
    assert_eq!(ex.commodities[0].id_commodity, Some(202));
    assert_eq!(ex.commodities[0].name, "Ship Ammunition - Size 2");
    assert_eq!(ex.commodities[0].quantity_scu, Some(77));
}

fn reading(status: Option<u8>, quantity: Option<u32>, price: Option<u32>) -> CardReading {
    CardReading { status, quantity, price, confidence: 0, size_groups: None }
}

#[test]
fn a_second_card_fills_the_row_above() {
    let iron = CommodityMatch { id: 44, name: "Iron".to_string(), score: 97 };
    let steel = CommodityMatch { id: 109, name: "Steel".to_string(), score: 90 };
    let mut rows = Vec::new();
    let mut last = Some(3);
    add_card(&mut rows, &mut last, &iron, &reading(None, None, None));
    assert!(rows.is_empty());
    assert_eq!(last, Some(3)); // a stray name ends no run of sizes
    add_card(&mut rows, &mut last, &iron, &reading(None, Some(5), None));
    assert_eq!(last, None);
    add_card(&mut rows, &mut last, &iron, &reading(Some(7), Some(6), Some(10)));
    assert_eq!(rows.len(), 1);
    let row = &rows[0];
    assert_eq!(row.quantity_scu, Some(5)); // what was there stays
    assert_eq!(row.price, Some(10));
    assert_eq!((row.quantity_confidence, row.price_confidence), (1, 1));
    assert_eq!((row.status, row.stock_label.as_deref()), (Some(7), Some("max inventory")));
    add_card(&mut rows, &mut last, &steel, &reading(Some(1), None, None));
    add_card(&mut rows, &mut last, &iron, &reading(Some(1), None, None));
    let ids: Vec<Option<u32>> = rows.iter().map(|r| r.id_commodity).collect();
    assert_eq!(ids, vec![Some(44), Some(109), Some(44)]);
}

#[test]
fn sizes_come_from_name_digit_or_position() {
    let groups = |n: &str| Some(vec![Some(format!("size {n}")), Some(n.to_string())]);
    let mut last = None;
    // The name wins over the digit.
    let r = ship_ammo_from(205, "Ship Ammunition - Size 5", &groups("2"), &mut last);
    assert_eq!(r, (205, "Ship Ammunition - Size 5".to_string()));
    assert_eq!(last, Some(5));
    let r = ship_ammo_from(128, "Ship Ammunition", &groups("2"), &mut last);
    assert_eq!(r.0, 202);
    last = Some(7);
    let r = ship_ammo_from(128, "Ship Ammunition", &None, &mut last);
    assert_eq!((r.0, last), (207, Some(7)));
    last = None;
    let r = ship_ammo_from(128, "Ship Ammunition", &None, &mut last);
    assert_eq!((r.0, last), (201, Some(1)));
    // A size in the name is kept within bounds.
    let r = ship_ammo_from(1, "Ship Ammunition Size 12", &None, &mut last);
    assert_eq!(r.0, 207);
}

#[test]
fn cuts_come_before_every_spelling_of_the_cargo_row() {
    assert_eq!(truncate_before_cargo_sizes("5 SCU   Cargo Size 1 2"), "5 SCU");
    assert_eq!(truncate_before_cargo_sizes("5 SCU cargo siz3 1 2"), "5 SCU");
    assert_eq!(truncate_before_cargo_sizes("5 SCU cargo si3e 1"), "5 SCU cargo si3e 1");
    assert_eq!(truncate_before_cargo_sizes("5 SCU"), "5 SCU");
}

#[test]
fn stock_levels_are_recovered_from_two_words() {
    assert_eq!(resolve_stock("vry hgh inventory"), Some(("very high inventory".into(), 6)));
    assert_eq!(resolve_stock("Inventory"), None);
    assert_eq!(resolve_stock("nothing here"), None);
}
