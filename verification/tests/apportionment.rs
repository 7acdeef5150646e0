use dhondt_calc::dhondt::calculate;
use dhondt_calc::dhondt::DHondtError;
use dhondt_calc::table_columns::PartyResults;

fn rec(party: &str, name: &str, votes: u32) -> PartyResults {
    PartyResults { party: party.to_string(), name: name.to_string(), votes }
}

#[test]
fn zero_seats_is_rejected() {
    let votes = vec![rec("A", "A1", 10)];
    let r = calculate(0, &votes);
    assert!(matches!(r, Err(DHondtError::ZeroSeats)));
}

#[test]
fn empty_votes_are_rejected() {
    let votes: Vec<PartyResults> = Vec::new();
    let r = calculate(3, &votes);
    assert!(matches!(r, Err(DHondtError::NoParties)));
}

#[test]
fn all_zero_votes_are_rejected() {
    let votes = vec![rec("A", "A1", 0), rec("B", "B1", 0)];
    let r = calculate(3, &votes);
    assert!(matches!(r, Err(DHondtError::NoVotes)));
}

#[test]
fn single_candidate_without_votes_is_rejected() {
    let votes = vec![rec("A", "A1", 0)];
    let r = calculate(1, &votes);
    assert!(matches!(r, Err(DHondtError::NoVotes)));
}

#[test]
fn three_seats_two_parties() {
    let votes = vec![rec("A", "A1", 200), rec("A", "A2", 100), rec("B", "B1", 200)];
    let slates = calculate(3, &votes).unwrap();
    assert_eq!(slates.len(), 2);
    assert_eq!(slates[0].party, "A");
    assert_eq!(slates[0].seats, 2);
    assert_eq!(slates[0].elected, vec!["A1".to_string(), "A2".to_string()]);
    assert_eq!(slates[1].party, "B");
    assert_eq!(slates[1].seats, 1);
    assert_eq!(slates[1].elected, vec!["B1".to_string()]);
}

#[test]
fn seats_always_sum_to_request() {
    let votes = vec![
        rec("A", "A1", 340),
        rec("A", "A2", 10),
        rec("B", "B1", 280),
        rec("C", "C1", 160),
        rec("D", "D1", 60),
        rec("E", "E1", 15),
    ];
    for seats in 1..12u32 {
        let slates = calculate(seats, &votes).unwrap();
        let sum: u32 = slates.iter().map(|s| s.seats).sum();
        assert_eq!(sum, seats);
    }
}

#[test]
fn extending_the_allocation_never_takes_a_seat_away() {
    let votes = vec![
        rec("A", "A1", 340),
        rec("B", "B1", 280),
        rec("C", "C1", 160),
        rec("D", "D1", 60),
    ];
    for seats in 1..10u32 {
        let now = calculate(seats, &votes).unwrap();
        let next = calculate(seats + 1, &votes).unwrap();
        for (a, b) in now.iter().zip(next.iter()) {
            assert_eq!(a.party, b.party);
            assert!(a.seats <= b.seats);
        }
    }
}

#[test]
fn exact_ties_resolve_to_the_first_seen_party() {
    // Both parties tie at every quotient step; the earlier-seen party wins
    // each tie, so five seats split three to two.
    let votes = vec![rec("A", "A1", 100), rec("B", "B1", 100)];
    let slates = calculate(5, &votes).unwrap();
    assert_eq!(slates[0].party, "A");
    assert_eq!(slates[0].seats, 3);
    assert_eq!(slates[1].party, "B");
    assert_eq!(slates[1].seats, 2);
    let sum: u32 = slates.iter().map(|s| s.seats).sum();
    assert_eq!(sum, 5);
}

#[test]
fn elected_candidates_outpoll_unelected_ones() {
    let votes = vec![
        rec("A", "A1", 50),
        rec("A", "A2", 90),
        rec("A", "A3", 70),
        rec("B", "B1", 120),
    ];
    // Totals: A 210, B 120. Two seats: A takes the first (210 vs 120),
    // B the second (105 vs 120).
    let slates = calculate(2, &votes).unwrap();
    assert_eq!(slates[0].party, "A");
    assert_eq!(slates[0].seats, 1);
    assert_eq!(slates[0].elected, vec!["A2".to_string()]);
    assert_eq!(slates[1].party, "B");
    assert_eq!(slates[1].seats, 1);
    assert_eq!(slates[1].elected, vec!["B1".to_string()]);
    // Three seats: the third again goes to A (105 vs 60).
    let slates = calculate(3, &votes).unwrap();
    assert_eq!(slates[0].seats, 2);
    assert_eq!(slates[0].elected, vec!["A2".to_string(), "A3".to_string()]);
}

#[test]
fn candidate_ties_keep_input_order() {
    let votes = vec![rec("A", "A1", 100), rec("A", "A2", 100), rec("A", "A3", 100)];
    let slates = calculate(2, &votes).unwrap();
    assert_eq!(slates[0].seats, 2);
    assert_eq!(slates[0].elected, vec!["A1".to_string(), "A2".to_string()]);
}

#[test]
fn the_full_32_bit_vote_range_is_supported() {
    let votes = vec![rec("A", "A1", u32::MAX)];
    let slates = calculate(2, &votes).unwrap();
    assert_eq!(slates[0].seats, 2);
    assert_eq!(slates[0].elected, vec!["A1".to_string()]);
    let report = dhondt_calc::report::generate_report(2, &votes, &slates);
    assert!(report.contains("4 294 967 295"));
    assert!(report.contains("100.00%"));
}

#[test]
fn a_party_cannot_seat_more_candidates_than_it_has() {
    let votes = vec![rec("A", "A1", 100)];
    let slates = calculate(3, &votes).unwrap();
    assert_eq!(slates[0].seats, 3);
    assert_eq!(slates[0].elected, vec!["A1".to_string()]);
}
