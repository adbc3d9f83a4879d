use station_summary::error::InputError;
use station_summary::error::ParseError;
use station_summary::summarize;

fn report_of(input: &str) -> String {
    let bytes = summarize(input.as_bytes()).unwrap();
    String::from_utf8(bytes).unwrap()
}

fn refusal_of(input: &str) -> InputError {
    summarize(input.as_bytes()).unwrap_err()
}

#[test]
fn single_record() {
    assert_eq!(report_of("A;5.0"), "{A=5.0/5.0/5.0}\n");
}

#[test]
fn two_records_same_station() {
    assert_eq!(report_of("A;1.0\nA;2.0"), "{A=1.0/1.5/2.0}\n");
}

#[test]
fn mean_is_rounded_up_past_the_greatest_value_shown() {
    assert_eq!(report_of("B;1.0\nB;1.01"), "{B=1.0/1.1/1.0}\n");
}

#[test]
fn several_stations_are_sorted() {
    assert_eq!(report_of("A;1.0\nB;2.0\nA;3.0"), "{A=1.0/2.0/3.0, B=2.0/2.0/2.0}\n");
}

#[test]
fn empty_input_gives_empty_braces() {
    assert_eq!(report_of(""), "{}\n");
}

#[test]
fn line_without_separator_is_refused() {
    assert_eq!(
        refusal_of("A;1.0\nB"),
        InputError { line: 2, kind: ParseError::MissingSeparator }
    );
    assert_eq!(refusal_of("A"), InputError { line: 1, kind: ParseError::MissingSeparator });
}

#[test]
fn same_input_gives_same_output() {
    let input = "Oslo;-3.2\nLima;18.4\nOslo;4.0\nCairo;30.1\nLima;17.6\n";
    let first = summarize(input.as_bytes());
    let second = summarize(input.as_bytes());
    assert_eq!(first, second);
    assert_eq!(
        String::from_utf8(first.unwrap()).unwrap(),
        "{Cairo=30.1/30.1/30.1, Lima=17.6/18.0/18.4, Oslo=-3.2/0.4/4.0}\n"
    );
    let bad = "Oslo;-3.2\nLima;warm\n";
    assert_eq!(summarize(bad.as_bytes()), summarize(bad.as_bytes()));
}

#[test]
fn names_are_in_byte_order_whatever_the_input_order() {
    let forward = report_of("a;1\nb;2\nc;3\n");
    let backward = report_of("c;3\nb;2\na;1\n");
    assert_eq!(forward, "{a=1.0/1.0/1.0, b=2.0/2.0/2.0, c=3.0/3.0/3.0}\n");
    assert_eq!(backward, forward);
}

#[test]
fn upper_case_sorts_before_lower_case_and_prefix_before_longer() {
    assert_eq!(
        report_of("ab;1\na;2\nB;3\nAb;4\n"),
        "{Ab=4.0/4.0/4.0, B=3.0/3.0/3.0, a=2.0/2.0/2.0, ab=1.0/1.0/1.0}\n"
    );
}

#[test]
fn names_with_several_bytes_per_character_are_kept_and_sorted() {
    assert_eq!(
        report_of("Zürich;1.5\nÅre;2.5\nZagreb;3.5\n東京;4.5\n"),
        "{Zagreb=3.5/3.5/3.5, Zürich=1.5/1.5/1.5, Åre=2.5/2.5/2.5, 東京=4.5/4.5/4.5}\n"
    );
}

#[test]
fn names_are_not_trimmed_nor_folded() {
    assert_eq!(
        report_of(" A;1\nA ;2\nA;3\na;4\n"),
        "{ A=1.0/1.0/1.0, A=3.0/3.0/3.0, A =2.0/2.0/2.0, a=4.0/4.0/4.0}\n"
    );
}

#[test]
fn single_value_has_equal_bounds_and_mean() {
    assert_eq!(report_of("A;5.0"), "{A=5.0/5.0/5.0}\n");
    assert_eq!(report_of("A;-7.3"), "{A=-7.3/-7.3/-7.3}\n");
    assert_eq!(report_of("A;0"), "{A=0.0/0.0/0.0}\n");
}

#[test]
fn single_value_between_tenths_shows_mean_above_the_bounds() {
    assert_eq!(report_of("A;5.01"), "{A=5.0/5.1/5.0}\n");
    assert_eq!(report_of("A;5.000000001"), "{A=5.0/5.1/5.0}\n");
}

#[test]
fn negative_mean_is_rounded_towards_zero() {
    assert_eq!(report_of("A;-5.01"), "{A=-5.0/-5.0/-5.0}\n");
    assert_eq!(report_of("A;-5.09\nA;-5.09"), "{A=-5.1/-5.0/-5.1}\n");
    assert_eq!(report_of("A;-5.1"), "{A=-5.1/-5.1/-5.1}\n");
}

#[test]
fn negative_value_that_rounds_to_zero_keeps_its_sign() {
    assert_eq!(report_of("A;-0.04"), "{A=-0.0/-0.0/-0.0}\n");
    assert_eq!(report_of("A;-0.0"), "{A=0.0/0.0/0.0}\n");
}

#[test]
fn mean_of_equal_values_is_that_value() {
    assert_eq!(report_of("A;0.1\nA;0.1\nA;0.1"), "{A=0.1/0.1/0.1}\n");
}

#[test]
fn bounds_halfway_between_tenths_go_to_the_even_tenth() {
    assert_eq!(report_of("A;0.25"), "{A=0.2/0.3/0.2}\n");
    assert_eq!(report_of("A;0.75"), "{A=0.8/0.8/0.8}\n");
    assert_eq!(report_of("A;-0.25"), "{A=-0.2/-0.2/-0.2}\n");
    assert_eq!(report_of("A;0.250000001"), "{A=0.3/0.3/0.3}\n");
}

#[test]
fn line_feed_at_the_end_adds_no_record() {
    assert_eq!(report_of("A;1.0\n"), "{A=1.0/1.0/1.0}\n");
    assert_eq!(report_of("A;1.0\nB;2.0\n"), report_of("A;1.0\nB;2.0"));
}

#[test]
fn carriage_return_before_line_feed_belongs_to_the_line_end() {
    assert_eq!(report_of("A;1.0\r\nB;2.0\r\n"), "{A=1.0/1.0/1.0, B=2.0/2.0/2.0}\n");
}

#[test]
fn carriage_return_at_the_very_end_stays_in_the_value() {
    assert_eq!(refusal_of("A;1.0\r"), InputError { line: 1, kind: ParseError::InvalidNumber });
}

#[test]
fn empty_line_is_refused() {
    assert_eq!(refusal_of("\n"), InputError { line: 1, kind: ParseError::MissingSeparator });
    assert_eq!(
        refusal_of("A;1.0\n\nB;2.0\n"),
        InputError { line: 2, kind: ParseError::MissingSeparator }
    );
}

#[test]
fn value_that_is_no_number_is_refused() {
    assert_eq!(refusal_of("A;warm"), InputError { line: 1, kind: ParseError::InvalidNumber });
    assert_eq!(refusal_of("A;"), InputError { line: 1, kind: ParseError::InvalidNumber });
    assert_eq!(
        refusal_of("A;1.0\nB;2.0\nC;1.2.3\n"),
        InputError { line: 3, kind: ParseError::InvalidNumber }
    );
}

#[test]
fn numbers_of_any_size_are_read() {
    assert_eq!(
        report_of("A;1000000000"),
        "{A=1000000000.0/1000000000.0/1000000000.0}\n"
    );
    assert_eq!(report_of("A;0.0000000001"), "{A=0.0/0.1/0.0}\n");
    assert_eq!(report_of("A;1\nA;0.0000000001"), "{A=0.0/0.6/1.0}\n");
    assert_eq!(
        report_of("A;123456789012345678901234567890.15"),
        "{A=123456789012345678901234567890.2/123456789012345678901234567890.2/123456789012345678901234567890.2}\n"
    );
    assert_eq!(
        report_of("A;-99999999999999999999999999999999999999.95\nA;99999999999999999999999999999999999999.95"),
        "{A=-100000000000000000000000000000000000000.0/0.0/100000000000000000000000000000000000000.0}\n"
    );
    assert_eq!(
        report_of("A;1.00000000000000000000000000000000000001\nA;1"),
        "{A=1.0/1.1/1.0}\n"
    );
    assert_eq!(
        report_of("A;-1.00000000000000000000000000000000000001\nA;-1"),
        "{A=-1.0/-1.0/-1.0}\n"
    );
}

#[test]
fn values_of_different_precision_meet_in_one_station() {
    assert_eq!(report_of("A;0.5\nA;0.25\nA;0.125\nA;2"), "{A=0.1/0.8/2.0}\n");
    assert_eq!(report_of("A;2\nB;0.125\nA;0.5"), "{A=0.5/1.3/2.0, B=0.1/0.2/0.1}\n");
    assert_eq!(report_of("A;-0.001\nA;0.001"), "{A=-0.0/0.0/0.0}\n");
    assert_eq!(report_of("A;10\nA;9.99"), "{A=10.0/10.0/10.0}\n");
}

#[test]
fn a_very_long_number_is_read() {
    let mut input = String::from("A;");
    for i in 0..5000 {
        input.push(char::from(b'0' + (i % 10) as u8));
    }
    input.push('.');
    for i in 0..5000 {
        input.push(char::from(b'0' + (i % 7) as u8));
    }
    let report = report_of(&input);
    assert!(report.starts_with("{A=123456789012345678901234567890"));
    assert_eq!(report.len(), 3 + 3 * 5001 + 2 + 2);
}

#[test]
fn first_refused_line_is_reported() {
    assert_eq!(
        refusal_of("A;1\nB\nC;x\n"),
        InputError { line: 2, kind: ParseError::MissingSeparator }
    );
}

#[test]
fn fields_after_the_value_are_ignored() {
    assert_eq!(report_of("A;1.0;junk\nA;3.0;\n"), "{A=1.0/2.0/3.0}\n");
}

#[test]
fn empty_name_is_a_station() {
    assert_eq!(report_of(";2.5\nA;1.0\n"), "{=2.5/2.5/2.5, A=1.0/1.0/1.0}\n");
}

#[test]
fn greatest_and_least_values_that_can_be_held() {
    assert_eq!(
        report_of("A;999999999.999999999\nA;-999999999.999999999"),
        "{A=-1000000000.0/0.0/1000000000.0}\n"
    );
}

#[test]
fn many_stations_come_out_sorted() {
    let mut input = String::new();
    let mut expected = String::from("{");
    for i in (0..2000).rev() {
        input.push_str(&format!("station{:04};{}.{}\n", i, i % 90, i % 10));
    }
    for i in 0..2000 {
        if i > 0 {
            expected.push_str(", ");
        }
        let shown = format!("{}.{}", i % 90, i % 10);
        expected.push_str(&format!("station{:04}={}/{}/{}", i, shown, shown, shown));
    }
    expected.push_str("}\n");
    assert_eq!(report_of(&input), expected);
}

#[test]
fn order_of_records_does_not_change_the_report() {
    let one = report_of("A;1.5\nB;-2\nA;0.25\nB;7.75\nA;-3\n");
    let other = report_of("B;7.75\nA;-3\nA;0.25\nB;-2\nA;1.5\n");
    assert_eq!(one, "{A=-3.0/-0.4/1.5, B=-2.0/2.9/7.8}\n");
    assert_eq!(other, one);
}

#[test]
fn least_value_shown_never_exceeds_the_mean_shown() {
    assert_eq!(report_of("A;0.04"), "{A=0.0/0.1/0.0}\n");
    assert_eq!(report_of("A;0.06"), "{A=0.1/0.1/0.1}\n");
    assert_eq!(report_of("A;-0.06"), "{A=-0.1/-0.0/-0.1}\n");
    assert_eq!(report_of("A;0.05"), "{A=0.0/0.1/0.0}\n");
    assert_eq!(report_of("A;0.15"), "{A=0.2/0.2/0.2}\n");
}
