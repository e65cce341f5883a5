use datarunner_core::matching::{best, score};

#[test]
fn exact_match_is_100() {
    assert_eq!(score("Iron", "Iron"), 100);
    assert_eq!(score("iron", "IRON"), 100);
}

#[test]
fn close_ocr_scores_high() {
    assert!(score("Bexalile", "Bexalite") >= 80);
    assert!(score("Hephaestanile", "Hephaestanite") >= 85);
    assert!(score("Ranta Dun", "Ranta Dung") >= 85);
}

#[test]
fn token_order_insensitive() {
    assert_eq!(score("Dung Ranta", "Ranta Dung"), 100);
}

#[test]
fn unrelated_scores_low() {
    assert!(score("Iron", "Quantanium") < 50);
}

#[test]
fn best_picks_winner() {
    let candidates = vec!["Iron", "Titanium", "Aluminum"];
    let (i, s) = best("Titaniom", &candidates).unwrap();
    assert_eq!(i, 1);
    assert!(s >= 80);
}

#[test]
fn score_counts_edits_exactly() {
    // One of eight letters differs: 87.5 percent, rounded up.
    assert_eq!(score("Bexalile", "Bexalite"), 88);
    // Eight edits against a length of ten.
    assert_eq!(score("", "abcdefghij"), 0);
    assert_eq!(score("abcd", "abzz"), 50);
    assert_eq!(score("", ""), 100);
}

#[test]
fn score_is_symmetric_on_samples() {
    let names = ["Iron", "Titanium", "Ranta Dung", "", "Ship Ammunition - Size 3"];
    for a in names {
        for b in names {
            assert_eq!(score(a, b), score(b, a));
        }
    }
}

#[test]
fn best_of_nothing_is_nothing_and_ties_go_to_the_first() {
    assert_eq!(best("Iron", &Vec::new()), None);
    assert_eq!(best("Iron", &vec!["iron", "IRON"]), Some((0, 100)));
}

#[test]
fn neither_case_nor_word_order_counts() {
    assert_eq!(score("dung Ranta", "Ranta Dung"), 100);
    assert_eq!(score("  RANTA   dung", "dUNG ranta"), 100);
    assert_eq!(score("b A c", "C a B"), 100);
}
