use firmware_sim::report::{bytes, pairs, pass, strategy, table};
use firmware_sim::text::safe;
use firmware_sim::update::UpdateStrategy;

#[test]
fn table_aligns_columns_and_includes_results() {
    let output = table(
        &["Check", "Result"],
        vec![vec!["Firmware boot".into(), "PASS".into()]],
    );
    assert!(output.contains("| Check         | Result |"));
    assert!(output.contains("| Firmware boot | PASS   |"));
    assert!(output
        .lines()
        .all(|line| line.len() == output.lines().next().unwrap().len()));
}

#[test]
fn a_table_has_a_frame() {
    let output = table(&["A", "Long"], vec![vec!["value".into(), "x".into()]]);
    assert_eq!(
        output,
        "+-------+------+\n| A     | Long |\n+-------+------+\n| value | x    |\n+-------+------+"
    );
}

#[test]
fn columns_are_as_wide_as_the_bytes_of_their_longest_text() {
    let output = table(&["A"], vec![vec!["\u{e9}\u{e9}".into()]]);
    assert_eq!(output, "+------+\n| A    |\n+------+\n| \u{e9}\u{e9}   |\n+------+");
    let count = output.lines().next().unwrap().chars().count();
    assert!(output.lines().all(|line| line.chars().count() == count));
}

#[test]
fn sizes_are_shown_in_bytes_and_kib() {
    assert_eq!(bytes(0), "0 B");
    assert_eq!(bytes(1023), "1023 B");
    assert_eq!(bytes(1024), "1024 B (1.00 KiB)");
    assert_eq!(bytes(1536), "1536 B (1.50 KiB)");
    for value in [
        1_029_u64, 1_100, 2_047, 4_101, 114_688, 524_288, 999_999, 1_284, 1_408, 1_664, 128_128,
        9_007_199_254_740_993, 9_007_199_254_740_995, 18_014_398_509_481_987, u64::MAX,
        u64::MAX - 1023, u64::MAX - 1024, u64::MAX - 1025,
    ] {
        assert_eq!(
            bytes(value),
            format!("{value} B ({:.2} KiB)", value as f64 / 1024.0)
        );
    }
    for value in 1024..20_000_u64 {
        assert_eq!(
            bytes(value),
            format!("{value} B ({:.2} KiB)", value as f64 / 1024.0)
        );
    }
}

#[test]
fn registers_are_shown_two_by_two() {
    assert_eq!(pairs(&[]), "No register snapshot returned.");
    let shown = pairs(&["PC".into(), "0x1".into(), "SP".into()]);
    assert!(shown.contains("| Register | Value |"));
    assert!(shown.contains("| PC       | 0x1   |"));
    assert!(shown.contains("| SP       |       |"));
}

#[test]
fn results_and_strategies_have_words() {
    assert_eq!(pass(true), "PASS");
    assert_eq!(pass(false), "FAIL");
    assert_eq!(strategy(UpdateStrategy::DualSlot), "dual slot");
    assert_eq!(strategy(UpdateStrategy::DeltaOnly), "delta only");
    assert_eq!(strategy(UpdateStrategy::RecoveryTransport), "recovery transport");
}

#[test]
fn names_are_made_safe_once() {
    assert_eq!(safe("radio link/2"), "radio_link_2");
    assert_eq!(safe(&safe("a.b-c_d")), "a_b-c_d");
    assert_eq!(safe("\u{e9}"), "_");
}
