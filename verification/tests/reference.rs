use datarunner_core::reference::{RawCommodity, RawTerminal, Reference};
use std::collections::HashSet;

fn commodity(id: u32, name: &str) -> RawCommodity {
    RawCommodity { id, name: name.to_string(), is_available: 1, is_visible: 1 }
}

fn terminal(id: u32, name: &str, nickname: &str, display: &str, system: &str) -> RawTerminal {
    RawTerminal {
        id,
        name: name.to_string(),
        nickname: nickname.to_string(),
        displayname: display.to_string(),
        kind: "commodity".to_string(),
        is_available: 1,
        star_system_name: system.to_string(),
    }
}

fn commodities() -> Vec<RawCommodity> {
    vec![
        commodity(13, "Bexalite"),
        commodity(44, "Iron"),
        commodity(110, "Cobalt"),
        commodity(122, "Stileron"),
        commodity(39, "Hephaestanite"),
        commodity(25, "Diamond"),
        commodity(75, "Titanium"),
    ]
}

fn terminals() -> Vec<RawTerminal> {
    vec![
        terminal(551, "Bueno Ravine", "Bueno Ravine", "Bueno Ravine", "Pyro"),
        terminal(486, "Rod's Fuel 'N Supplies", "Rod's Fuel", "Rod's Fuel 'N Supplies", "Pyro"),
        terminal(701, "Admin - Nyx Gateway (Pyro)", "Nyx Gateway", "Nyx Gateway", "Pyro"),
        terminal(702, "Admin - Nyx Gateway (Stanton)", "Nyx Gateway", "Nyx Gateway", "Stanton"),
        terminal(25, "Everus Harbor", "Everus", "", "Stanton"),
    ]
}

fn reference() -> Reference {
    match Reference::from_json(Ok(commodities()), Ok(terminals())) {
        Ok(r) => r,
        Err(e) => panic!("{e}"),
    }
}

/// Known entries, and others whose ids do not matter: those are numbered on from 1000.
const COMMODITIES: [(u32, &str); 17] = [
    (13, "Bexalite"),
    (25, "Diamond"),
    (39, "Hephaestanite"),
    (44, "Iron"),
    (67, "Scrap"),
    (75, "Titanium"),
    (109, "Steel"),
    (110, "Cobalt"),
    (122, "Stileron"),
    (128, "Ship Ammunition"),
    (201, "Ship Ammunition - Size 1"),
    (202, "Ship Ammunition - Size 2"),
    (203, "Ship Ammunition - Size 3"),
    (204, "Ship Ammunition - Size 4"),
    (205, "Ship Ammunition - Size 5"),
    (206, "Ship Ammunition - Size 6"),
    (207, "Ship Ammunition - Size 7"),
];

const OTHER_COMMODITIES: [&str; 108] = [
    "Acryliplex Composite",
    "Agricium",
    "Agricium (Ore)",
    "Agricultural Supplies",
    "Altruciatoxin",
    "Aluminum",
    "Aluminum (Ore)",
    "Amioshi Plague",
    "Ammonia",
    "Aphorite",
    "Argon",
    "Astatine",
    "Atlasium",
    "Audio Visual Equipment",
    "Beradom",
    "Beryl",
    "Beryl (Raw)",
    "Bioplastic",
    "Bluemoon Fungus",
    "Boron",
    "Borase",
    "Borase (Ore)",
    "Carbon",
    "Carbon-Silk",
    "Chlorine",
    "Compboard",
    "Construction Materials",
    "Copper",
    "Copper (Ore)",
    "Corundum",
    "Corundum (Raw)",
    "Degnous Root",
    "Diamond (Raw)",
    "Diamond Laminate",
    "Distilled Spirits",
    "Dolivine",
    "Dymantium",
    "E'tam",
    "Feynmaline",
    "Fireworks",
    "Fluorine",
    "Fresh Food",
    "Gasping Weevil Eggs",
    "Glacosite",
    "Gold",
    "Gold (Ore)",
    "Golden Medmon",
    "Hadanite",
    "Heart of the Woods",
    "Helium",
    "Hephaestanite (Raw)",
    "Hydrogen",
    "Hydrogen Fuel",
    "Inert Materials",
    "Inert Materials (Raw)",
    "Iodine",
    "Iron (Ore)",
    "Janalite",
    "Laranite",
    "Laranite (Ore)",
    "Lunes",
    "Marok Gem",
    "Maze",
    "Medical Supplies",
    "Medivet",
    "Mercury",
    "Methane",
    "Neon",
    "Neon Signage",
    "Nitrogen",
    "Omnapoxy",
    "Organics",
    "Osoian Hides",
    "Phosphorus",
    "Pitambu",
    "Pressurized Ice",
    "Processed Food",
    "Prota",
    "Quantanium",
    "Quantum Fuel",
    "Quantanium (Raw)",
    "Quartz",
    "Quartz (Raw)",
    "Ranta Dung",
    "Recycled Material Composite",
    "Red Festival Envelope",
    "Revenant Pod",
    "Revenant Tree Pollen",
    "Riccite",
    "RMC",
    "Savrilium",
    "Silicon",
    "SLAM",
    "Souvenirs",
    "Stims",
    "Stone Bug Shell",
    "Sunset Berries",
    "Taranite",
    "Taranite (Raw)",
    "Thermalfoam",
    "Tin",
    "Tungsten",
    "Tungsten (Ore)",
    "Waste",
    "WiDoW",
    "Xa'Pyen",
    "Year Of The Rooster Envelope",
    "Zeta-Prolanide",
];

const TERMINALS: [(u32, &str, &str); 3] = [
    (551, "Bueno Ravine", "Pyro"),
    (486, "Rod's Fuel 'N Supplies", "Pyro"),
    (25, "Everus Harbor", "Stanton"),
];

const OTHER_TERMINALS: [(&str, &str); 88] = [
    ("Area 18", "Stanton"),
    ("ArcCorp Mining Area 045", "Stanton"),
    ("ArcCorp Mining Area 048", "Stanton"),
    ("ArcCorp Mining Area 056", "Stanton"),
    ("ArcCorp Mining Area 061", "Stanton"),
    ("ArcCorp Mining Area 141", "Stanton"),
    ("ArcCorp Mining Area 157", "Stanton"),
    ("Ashland", "Pyro"),
    ("Baijini Point", "Stanton"),
    ("Benson Mining Outpost", "Stanton"),
    ("Brio's Breaker Yard", "Stanton"),
    ("Bountiful Harvest Hydroponics", "Stanton"),
    ("Canard View", "Pyro"),
    ("Checkmate", "Pyro"),
    ("Chawla's Beach", "Pyro"),
    ("Deakins Research Outpost", "Stanton"),
    ("Devlin Scrap & Salvage", "Stanton"),
    ("Dudley & Daughters", "Pyro"),
    ("Endgame", "Pyro"),
    ("Fallow Field", "Pyro"),
    ("Feo Canyon Depot", "Stanton"),
    ("Gaslight", "Pyro"),
    ("Gallete Family Farms", "Stanton"),
    ("Goner's Deal", "Pyro"),
    ("GrimHEX", "Stanton"),
    ("HDMS-Anderson", "Stanton"),
    ("HDMS-Bezdek", "Stanton"),
    ("HDMS-Edmond", "Stanton"),
    ("HDMS-Hadley", "Stanton"),
    ("HDMS-Hahn", "Stanton"),
    ("HDMS-Lathan", "Stanton"),
    ("HDMS-Norgaard", "Stanton"),
    ("HDMS-Oparei", "Stanton"),
    ("HDMS-Perlman", "Stanton"),
    ("HDMS-Pinewood", "Stanton"),
    ("HDMS-Ryder", "Stanton"),
    ("HDMS-Stanhope", "Stanton"),
    ("HDMS-Thedus", "Stanton"),
    ("HDMS-Woodruff", "Stanton"),
    ("Hickes Research Outpost", "Stanton"),
    ("Humboldt Mines", "Stanton"),
    ("Jackson's Swap", "Pyro"),
    ("Jumptown", "Stanton"),
    ("Kudre Ore", "Stanton"),
    ("Last Landings", "Pyro"),
    ("Levski", "Nyx"),
    ("Lorville", "Stanton"),
    ("Loveridge Mineral Reserve", "Stanton"),
    ("Megumi Refueling", "Pyro"),
    ("Mount Esperanza", "Stanton"),
    ("New Babbage", "Stanton"),
    ("Nuen Waste Management", "Stanton"),
    ("Orbituary", "Pyro"),
    ("Orison", "Stanton"),
    ("Ostler's Claim", "Pyro"),
    ("Patch City", "Pyro"),
    ("Port Tressler", "Stanton"),
    ("Prospect Depot", "Pyro"),
    ("Pyro Gateway", "Stanton"),
    ("Rat's Nest", "Pyro"),
    ("Rayari Anvik Research Outpost", "Stanton"),
    ("Rayari Cantwell Research Outpost", "Stanton"),
    ("Rayari Deltana Research Outpost", "Stanton"),
    ("Rayari Kaltag Research Outpost", "Stanton"),
    ("Rayari McGrath Research Outpost", "Stanton"),
    ("Reclamation & Disposal Orinth", "Stanton"),
    ("Ruin Station", "Pyro"),
    ("Sacren's Plot", "Pyro"),
    ("Samson & Son's Salvage Center", "Stanton"),
    ("Seer's Canyon", "Pyro"),
    ("Seraphim Station", "Stanton"),
    ("Shady Glen Farms", "Pyro"),
    ("Shepherd's Rest", "Pyro"),
    ("Shubin Mining Facility SAL-2", "Stanton"),
    ("Shubin Mining Facility SAL-5", "Stanton"),
    ("Shubin Mining Facility SMCa-6", "Stanton"),
    ("Shubin Mining Facility SMO-10", "Stanton"),
    ("Stag's Rut", "Pyro"),
    ("Stanton Gateway", "Pyro"),
    ("Starlight Service Station", "Pyro"),
    ("Sunset Mesa", "Pyro"),
    ("Terra Gateway", "Stanton"),
    ("Terra Mills HydroFarm", "Stanton"),
    ("The Golden Riviera", "Pyro"),
    ("The Orphanage", "Stanton"),
    ("The Yard", "Pyro"),
    ("Tram & Myers Mining", "Stanton"),
    ("Windfall", "Pyro"),
];

fn full_lists() -> (Vec<RawCommodity>, Vec<RawTerminal>) {
    let commodity = |id: u32, name: &str| RawCommodity {
        id,
        name: name.to_string(),
        is_available: 1,
        is_visible: 1,
    };
    let terminal = |id: u32, name: &str, shown: &str, system: &str| RawTerminal {
        id,
        name: name.to_string(),
        nickname: shown.to_string(),
        displayname: shown.to_string(),
        kind: "commodity".to_string(),
        is_available: 1,
        star_system_name: system.to_string(),
    };
    let mut commodities = Vec::new();
    for (i, name) in OTHER_COMMODITIES.iter().enumerate() {
        commodities.push(commodity(1000 + i as u32, name));
    }
    for (id, name) in COMMODITIES {
        commodities.push(commodity(id, name));
    }
    let mut terminals = Vec::new();
    for (i, (name, system)) in OTHER_TERMINALS.iter().enumerate() {
        terminals.push(terminal(1000 + i as u32, name, name, system));
    }
    for (id, name, system) in TERMINALS {
        terminals.push(terminal(id, name, name, system));
    }
    for (id, system) in [(2001, "Pyro"), (2002, "Stanton")] {
        let name = format!("Admin - Nyx Gateway ({system})");
        terminals.push(terminal(id, &name, "Nyx Gateway", system));
    }
    (commodities, terminals)
}

fn full_reference() -> Reference {
    let (commodities, terminals) = full_lists();
    match Reference::from_json(Ok(commodities), Ok(terminals)) {
        Ok(r) => r,
        Err(e) => panic!("{e}"),
    }
}

#[test]
fn commodity_ids_match_uex() {
    let r = full_reference();
    assert_eq!(r.best_commodity("Bexalite").unwrap().id, 13);
    assert_eq!(r.best_commodity("Iron").unwrap().id, 44);
    assert_eq!(r.best_commodity("Cobalt").unwrap().id, 110);
    assert_eq!(r.best_commodity("Stileron").unwrap().id, 122);
}

#[test]
fn commodity_fuzzy_match_survives_ocr_noise() {
    let r = full_reference();
    let m = r.best_commodity("Hephaestanile").unwrap();
    assert_eq!(m.id, 39);
    assert!(m.score >= 85);
}

#[test]
fn terminals_carry_system_and_operator_for_disambiguation() {
    let r = full_reference();
    assert!(r.terminals().iter().all(|t| !t.system.is_empty()));
    let m = r.best_terminal("Nyx Gateway").expect("match");
    let systems: HashSet<&str> = m.candidates.iter().map(|c| c.system.as_str()).collect();
    assert!(systems.len() >= 2, "expected multiple systems, got {systems:?}");
    assert!(m.candidates.iter().any(|c| c.operator.is_some()));
}

#[test]
fn terminal_matches_by_display_name() {
    let r = full_reference();
    let m = r.best_terminal("Bueno Ravine").unwrap();
    assert_eq!(m.id, 551);
    assert_eq!(m.score, 100);

    let m2 = r.best_terminal("Rod's Fuel 'N Supplies").unwrap();
    assert_eq!(m2.id, 486);
    assert!(m2.score >= 95);
}

#[test]
fn lists_drop_what_is_unavailable_hidden_or_no_commodity_terminal() {
    let mut cs = commodities();
    cs[0].is_available = 0;
    cs[1].is_visible = 0;
    let mut ts = terminals();
    ts[0].kind = "item".to_string();
    ts[1].is_available = 0;
    let r = match Reference::from_json(Ok(cs), Ok(ts)) {
        Ok(r) => r,
        Err(e) => panic!("{e}"),
    };
    let ids: Vec<u32> = r.commodities().iter().map(|c| c.id).collect();
    assert_eq!(ids, vec![110, 122, 39, 25, 75]);
    let ids: Vec<u32> = r.terminals().iter().map(|t| t.id).collect();
    assert_eq!(ids, vec![701, 702, 25]);
}

#[test]
fn names_and_operators_come_from_the_list() {
    let r = reference();
    let t = r.terminal_by_id(701).unwrap();
    assert_eq!(t.name, "Nyx Gateway");
    assert_eq!(t.operator.as_deref(), Some("Admin"));
    // A blank display name gives way to the full name.
    let t = r.terminal_by_id(25).unwrap();
    assert_eq!(t.name, "Everus Harbor");
    assert_eq!(t.operator, None);
    assert!(r.terminal_by_id(9999).is_none());
}

#[test]
fn candidates_keep_list_order_and_stay_near_the_best() {
    let r = reference();
    let m = r.best_terminal("Nyx Gateway").unwrap();
    assert_eq!(m.id, 701);
    let ids: Vec<u32> = m.candidates.iter().map(|c| c.id).collect();
    assert_eq!(ids, vec![701, 702]);
    // Nothing scores fifty: there is a best one, but no candidate.
    let m = r.best_terminal("zzzzzzzzzzzz").unwrap();
    assert!(m.score < 50);
    assert!(m.candidates.is_empty());
}

#[test]
fn nicknames_count_too() {
    let r = reference();
    let m = r.best_terminal("Everus").unwrap();
    assert_eq!((m.id, m.score), (25, 100));
    assert_eq!(m.name, "Everus Harbor");
}

#[test]
fn empty_lists_match_nothing() {
    let r = match Reference::from_json(Ok(Vec::new()), Ok(Vec::new())) {
        Ok(r) => r,
        Err(e) => panic!("{e}"),
    };
    assert_eq!(r.best_commodity("Iron"), None);
    assert_eq!(r.best_terminal("Bueno Ravine"), None);
}

#[test]
fn a_list_that_did_not_parse_is_an_error() {
    let bad = Reference::from_json(Err("bad commodities".to_string()), Ok(terminals()));
    assert_eq!(bad.err().as_deref(), Some("bad commodities"));
    let bad = Reference::from_json(Ok(commodities()), Err("bad terminals".to_string()));
    assert_eq!(bad.err().as_deref(), Some("bad terminals"));
}

#[test]
fn refreshing_replaces_the_lists() {
    let mut r = reference();
    assert!(r.refresh_from_json(Ok(vec![commodity(1, "Gold")]), Ok(Vec::new())).is_ok());
    assert_eq!(r.best_commodity("Iron").unwrap().id, 1);
    assert!(r.terminals().is_empty());

    // Good commodities stay, though the terminals are bad.
    let mut r = reference();
    let e = r.refresh_from_json(Ok(vec![commodity(1, "Gold")]), Err("bad".to_string()));
    assert_eq!(e, Err("bad".to_string()));
    assert_eq!(r.commodities().len(), 1);
    assert_eq!(r.terminals().len(), 5);

    // With bad commodities nothing changes.
    let mut r = reference();
    let e = r.refresh_from_json(Err("worse".to_string()), Ok(Vec::new()));
    assert_eq!(e, Err("worse".to_string()));
    assert_eq!(r.commodities().len(), 7);
    assert_eq!(r.terminals().len(), 5);
}

#[test]
fn listings_are_in_dictionary_order() {
    let r = reference();
    let names: Vec<String> = r.commodities_by_name().into_iter().map(|c| c.name).collect();
    let expected =
        ["Bexalite", "Cobalt", "Diamond", "Hephaestanite", "Iron", "Stileron", "Titanium"];
    assert_eq!(names, expected);
    let ids: Vec<u32> = r.terminals_by_name().into_iter().map(|t| t.id).collect();
    assert_eq!(ids, vec![551, 25, 701, 702, 486]);
}
