use dhondt_calc::dhondt::calculate;
use dhondt_calc::numeric::dec_string;
use dhondt_calc::numeric::format_num;
use dhondt_calc::numeric::percent_string;
use dhondt_calc::numeric::percentage;
use dhondt_calc::report::generate_report;
use dhondt_calc::table_columns::PartyResults;
use dhondt_calc::table_columns::PartyResultsColumn;

fn rec(party: &str, name: &str, votes: u32) -> PartyResults {
    PartyResults { party: party.to_string(), name: name.to_string(), votes }
}

#[test]
fn format_num_groups_thousands_with_spaces() {
    assert_eq!(format_num(0), "0");
    assert_eq!(format_num(7), "7");
    assert_eq!(format_num(999), "999");
    assert_eq!(format_num(1000), "1 000");
    assert_eq!(format_num(10500), "10 500");
    assert_eq!(format_num(1234567), "1 234 567");
    assert_eq!(format_num(1000000007), "1 000 000 007");
    assert_eq!(format_num(u32::MAX), "4 294 967 295");
}

#[test]
fn dec_string_is_plain_decimal() {
    assert_eq!(dec_string(0), "0");
    assert_eq!(dec_string(42), "42");
    assert_eq!(dec_string(1000), "1000");
}

#[test]
fn percentages_round_to_the_nearest_hundredth() {
    assert_eq!(percentage(1, 3), 3333);
    assert_eq!(percentage(2, 3), 6667);
    assert_eq!(percentage(1, 2), 5000);
    assert_eq!(percentage(0, 7), 0);
    assert_eq!(percentage(7, 7), 10000);
    // 1/8 is 12.5 percent exactly; the half rounds up.
    assert_eq!(percentage(1, 8), 1250);
    assert_eq!(percentage(1, 800), 13);
}

#[test]
fn percent_string_always_shows_two_decimals() {
    assert_eq!(percent_string(0), "0.00%");
    assert_eq!(percent_string(5), "0.05%");
    assert_eq!(percent_string(50), "0.50%");
    assert_eq!(percent_string(1250), "12.50%");
    assert_eq!(percent_string(10000), "100.00%");
}

#[test]
fn candidate_percentages_sum_close_to_the_party_percentage() {
    // One party holding 300 of 500 votes through candidates of 200 and 100.
    let total = 500;
    let sum = percentage(200, total) as i64 + percentage(100, total) as i64;
    let party = percentage(300, total) as i64;
    assert!((sum - party).abs() <= 1, "off by {}", sum - party);
    // A rough total that forces rounding on every candidate.
    let total = 3;
    let sum = percentage(1, total) as i64 + percentage(2, total) as i64;
    let party = percentage(3, total) as i64;
    assert!((sum - party).abs() <= 1, "off by {}", sum - party);
}

#[test]
fn to_column_renders_each_field() {
    let r = rec("Greens", "Ada", 1234);
    assert_eq!(r.to_column(PartyResultsColumn::Party), "Greens");
    assert_eq!(r.to_column(PartyResultsColumn::Name), "Ada");
    assert_eq!(r.to_column(PartyResultsColumn::Votes), "1 234");
}

#[test]
fn report_lists_parties_by_total_and_marks_elected() {
    let votes = vec![rec("A", "A1", 200), rec("A", "A2", 100), rec("B", "B1", 200)];
    let slates = calculate(3, &votes).unwrap();
    let report = generate_report(3, &votes, &slates);

    let mut expected = String::from("Seats to assign: 3\n\n");
    expected.push_str(&format!("{:<15}    {:>3}    {:>6}    {:>1}\n", "Total of votes:", "500", "", ""));
    expected.push_str(&format!("{:<15}    {:>3}    {:>6}    {:>1}\n", "", "", "", ""));
    expected.push_str(&format!("{:<15}    {:>3}    {:>6}    {:>1}\n", "A:", "300", "60.00%", "2"));
    expected.push_str(&format!("{:<15}    {:>3}    {:>6}    {:>1}\n", "  - A1", "200", "40.00%", "✓"));
    expected.push_str(&format!("{:<15}    {:>3}    {:>6}    {:>1}\n", "  - A2", "100", "20.00%", "✓"));
    expected.push_str(&format!("{:<15}    {:>3}    {:>6}    {:>1}\n", "", "", "", ""));
    expected.push_str(&format!("{:<15}    {:>3}    {:>6}    {:>1}\n", "B:", "200", "40.00%", "1"));
    expected.push_str(&format!("{:<15}    {:>3}    {:>6}    {:>1}\n", "  - B1", "200", "40.00%", "✓"));
    expected.push_str(&format!("{:<15}    {:>3}    {:>6}    {:>1}\n", "", "", "", ""));

    assert_eq!(report, expected);
}

#[test]
fn report_flags_an_arbitrary_cutoff_inside_a_tie() {
    // Two candidates tied at 100; one seat. The first-seen candidate is
    // elected, the other is flagged as an ambiguous cutoff.
    let votes = vec![rec("A", "A1", 100), rec("A", "A2", 100), rec("A", "A3", 40)];
    let slates = calculate(1, &votes).unwrap();
    assert_eq!(slates[0].elected, vec!["A1".to_string()]);
    let report = generate_report(1, &votes, &slates);
    let a1 = report.lines().find(|l| l.contains("- A1")).unwrap();
    let a2 = report.lines().find(|l| l.contains("- A2")).unwrap();
    let a3 = report.lines().find(|l| l.contains("- A3")).unwrap();
    assert!(a1.ends_with("✓"));
    assert!(a2.ends_with("?"));
    assert!(a3.ends_with(" "));
}

#[test]
fn report_shows_zero_seats_for_an_absent_party() {
    // A slate list that does not mention party B at all: B renders with
    // zero seats and no elected marks.
    let votes = vec![rec("A", "A1", 300), rec("B", "B1", 100)];
    let slates = calculate(1, &votes).unwrap();
    assert_eq!(slates[1].party, "B");
    assert_eq!(slates[1].seats, 0);
    let report = generate_report(1, &votes, &slates);
    let b_line = report.lines().find(|l| l.starts_with("B:")).unwrap();
    assert!(b_line.ends_with("0"));
}
