use reco_forge::{top_k, Recommendations, TopKError};

fn pair(name: &str, score: i64) -> (String, i64) {
    (name.to_string(), score)
}

#[test]
fn zero_capacity_is_refused() {
    assert!(matches!(Recommendations::new(0), Err(TopKError::InvalidCapacity)));
    assert_eq!(top_k(&vec![pair("a", 1)], 0), Err(TopKError::InvalidCapacity));
}

#[test]
fn keeps_best_sorted_and_bounded() {
    let mut sel = Recommendations::new(3).unwrap();
    let offers = vec![pair("a", 5), pair("b", 9), pair("c", 1), pair("d", 7), pair("e", 3), pair("f", 8)];
    for (n, s) in offers.iter() {
        sel.insert_or_skip(n.clone(), *s);
    }
    let got = sel.get_recommendations();
    assert_eq!(got, vec![pair("b", 9), pair("f", 8), pair("d", 7)]);
    assert!(got.len() <= 3);
    for w in got.windows(2) {
        assert!(w[0].1 >= w[1].1);
    }
}

#[test]
fn held_scores_beat_skipped_ones() {
    // "e" (3) arrives when the selector holds 9, 7, 5 and is turned away
    let offers = vec![pair("a", 5), pair("b", 9), pair("d", 7), pair("e", 3), pair("f", 4)];
    let got = top_k(&offers, 3).unwrap();
    assert_eq!(got, vec![pair("b", 9), pair("d", 7), pair("a", 5)]);
    for (_, s) in got.iter() {
        assert!(*s >= 3);
        assert!(*s >= 4);
    }
}

#[test]
fn same_pair_twice_is_kept_twice() {
    let mut sel = Recommendations::new(2).unwrap();
    sel.insert_or_skip("x".to_string(), 4);
    sel.insert_or_skip("x".to_string(), 4);
    assert_eq!(sel.get_recommendations(), vec![pair("x", 4), pair("x", 4)]);
}

#[test]
fn older_entry_wins_ties() {
    let got = top_k(&vec![pair("first", 5), pair("second", 5), pair("third", 5)], 2).unwrap();
    assert_eq!(got, vec![pair("first", 5), pair("second", 5)]);
    let got = top_k(&vec![pair("low", 1), pair("a", 5), pair("b", 5)], 3).unwrap();
    assert_eq!(got, vec![pair("a", 5), pair("b", 5), pair("low", 1)]);
}

#[test]
fn higher_offer_evicts_lowest() {
    let got = top_k(&vec![pair("a", 2), pair("b", 1), pair("c", 3)], 2).unwrap();
    assert_eq!(got, vec![pair("c", 3), pair("a", 2)]);
}

#[test]
fn fewer_offers_than_capacity() {
    assert_eq!(top_k(&vec![pair("a", -1)], 10).unwrap(), vec![pair("a", -1)]);
    assert_eq!(top_k(&vec![], 1).unwrap(), vec![]);
}
