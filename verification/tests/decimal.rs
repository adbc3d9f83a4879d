use station_summary::decimal::parse_value;
use station_summary::decimal::Decimal;
use station_summary::decimal::Units;
use station_summary::digits::divide;
use station_summary::digits::less;
use station_summary::digits::only_digits;
use station_summary::digits::subtract;
use station_summary::digits::sum_of;
use station_summary::digits::write_number;
use station_summary::digits::zero_digits;
use station_summary::error::ParseError;
use station_summary::tenths::round_nearest;
use station_summary::tenths::round_up;
use station_summary::tenths::write_tenths;
use station_summary::tenths::Tenths;
use station_summary::text::comes_before;
use station_summary::text::find_from;
use station_summary::text::same_bytes;

fn shown(t: &Tenths) -> String {
    let mut out = Vec::new();
    write_tenths(&mut out, t);
    String::from_utf8(out).unwrap()
}

fn number(digits: &[u8]) -> String {
    let mut out = Vec::new();
    write_number(&mut out, digits);
    String::from_utf8(out).unwrap()
}

fn read(text: &str) -> Decimal {
    parse_value(text.as_bytes()).unwrap()
}

fn units(text: &str, scale: usize) -> Units {
    read(text).units(scale)
}

fn mean(gains: &str, losses: &str, count: u64, scale: usize) -> String {
    shown(&round_up(gains.as_bytes(), losses.as_bytes(), count, scale))
}

fn nearest(text: &str, scale: usize) -> String {
    shown(&round_nearest(&units(text, scale), scale))
}

#[test]
fn parse_reads_whole_and_fraction() {
    assert_eq!(read("5.0"), Decimal { negative: false, digits: b"50".to_vec(), scale: 1 });
    assert_eq!(read("1.01"), Decimal { negative: false, digits: b"101".to_vec(), scale: 2 });
    assert_eq!(read("12"), Decimal { negative: false, digits: b"12".to_vec(), scale: 0 });
    assert_eq!(
        read("0.000000001"),
        Decimal { negative: false, digits: b"0000000001".to_vec(), scale: 9 }
    );
}

#[test]
fn parse_accepts_a_leading_sign() {
    assert_eq!(read("-5.01"), Decimal { negative: true, digits: b"501".to_vec(), scale: 2 });
    assert_eq!(read("+5.01"), Decimal { negative: false, digits: b"501".to_vec(), scale: 2 });
    assert_eq!(read("-0"), Decimal { negative: true, digits: b"0".to_vec(), scale: 0 });
}

#[test]
fn parse_accepts_a_point_at_either_end() {
    assert_eq!(read("5."), Decimal { negative: false, digits: b"5".to_vec(), scale: 0 });
    assert_eq!(read(".5"), Decimal { negative: false, digits: b"5".to_vec(), scale: 1 });
    assert_eq!(read("-.5"), Decimal { negative: true, digits: b"5".to_vec(), scale: 1 });
}

#[test]
fn parse_reads_numbers_of_any_size() {
    assert_eq!(
        read("1000000000"),
        Decimal { negative: false, digits: b"1000000000".to_vec(), scale: 0 }
    );
    assert_eq!(
        read("-99999999999999999999999999.00000000000000000001"),
        Decimal {
            negative: true,
            digits: b"9999999999999999999999999900000000000000000001".to_vec(),
            scale: 20
        }
    );
    assert_eq!(
        read("000000000000000000000000000007.5"),
        Decimal {
            negative: false,
            digits: b"0000000000000000000000000000075".to_vec(),
            scale: 1
        }
    );
}

#[test]
fn parse_refuses_what_is_no_decimal_number() {
    for text in [
        &b""[..], b".", b"-", b"+", b"-.", b"abc", b"1.2.3", b"1,5", b" 1", b"1 ", b"--1", b"+-1",
        b"1e3", b"inf", b"NaN", b"0x10", b"1_000", b"1.5\r",
    ] {
        assert_eq!(parse_value(text), Err(ParseError::InvalidNumber));
    }
}

#[test]
fn units_fill_up_to_the_scale() {
    assert_eq!(units("1.5", 1), Units { negative: false, digits: b"15".to_vec() });
    assert_eq!(units("1.5", 3), Units { negative: false, digits: b"1500".to_vec() });
    assert_eq!(units("-7", 2), Units { negative: true, digits: b"700".to_vec() });
    assert_eq!(units(".25", 2), Units { negative: false, digits: b"25".to_vec() });
}

#[test]
fn units_compare_by_value() {
    assert!(units("1.5", 2).is_less(&units("1.51", 2)));
    assert!(!units("1.51", 2).is_less(&units("1.5", 2)));
    assert!(!units("1.5", 2).is_less(&units("01.50", 2)));
    assert!(units("-2", 1).is_less(&units("1", 1)));
    assert!(units("-2", 1).is_less(&units("-1", 1)));
    assert!(!units("-1", 1).is_less(&units("-2", 1)));
    assert!(!units("1", 1).is_less(&units("-2", 1)));
    assert!(!units("-0", 1).is_less(&units("0", 1)));
    assert!(!units("0", 1).is_less(&units("-0", 1)));
    assert!(units("-0", 1).is_less(&units("0.1", 1)));
    assert!(units("-0.1", 1).is_less(&units("0", 1)));
    assert!(units("99999999999999999999", 1).is_less(&units("100000000000000000000", 1)));
    assert!(units("-1", 1).is_below_zero());
    assert!(!units("-0.0", 1).is_below_zero());
    assert!(!units("3", 1).is_below_zero());
    assert_eq!(units("-4.5", 2).copy(), units("-4.5", 2));
}

#[test]
fn round_up_goes_to_the_next_tenth() {
    assert_eq!(mean("50", "", 1, 1), "5.0");
    assert_eq!(mean("501", "", 1, 2), "5.1");
    assert_eq!(mean("5000000001", "", 1, 9), "5.1");
    assert_eq!(mean("510", "", 1, 2), "5.1");
    assert_eq!(mean("201", "", 2, 2), "1.1");
    assert_eq!(mean("30", "", 2, 1), "1.5");
    assert_eq!(mean("10", "", 3, 1), "0.4");
    assert_eq!(mean("0", "", 7, 1), "0.0");
    assert_eq!(mean("03", "03", 2, 1), "0.0");
    assert_eq!(mean("75", "25", 2, 1), "2.5");
}

#[test]
fn round_up_moves_negative_means_towards_zero() {
    assert_eq!(mean("", "501", 1, 2), "-5.0");
    assert_eq!(mean("", "510", 1, 2), "-5.1");
    assert_eq!(mean("", "5099999999", 1, 9), "-5.0");
    assert_eq!(mean("", "1", 1, 1), "-0.1");
    assert_eq!(mean("", "01", 1, 2), "-0.0");
    assert_eq!(mean("", "10", 3, 1), "-0.3");
    assert_eq!(mean("25", "75", 2, 1), "-2.5");
    assert_eq!(mean("25", "76", 2, 2), "-0.2");
}

#[test]
fn round_up_takes_totals_of_any_size() {
    assert_eq!(
        mean("340282366920938463463374607431768211456", "", 1, 1),
        "34028236692093846346337460743176821145.6"
    );
    assert_eq!(
        mean("3402823669209384634633746074317682114561", "", 1, 2),
        "34028236692093846346337460743176821145.7"
    );
    assert_eq!(
        mean("", "3402823669209384634633746074317682114561", 1, 2),
        "-34028236692093846346337460743176821145.6"
    );
    assert_eq!(mean("1000000000000000000000000000000", "", u64::MAX, 1), "5421010862.5");
}

#[test]
fn round_nearest_goes_to_the_closest_tenth() {
    assert_eq!(nearest("1.01", 2), "1.0");
    assert_eq!(nearest("1.049999999", 9), "1.0");
    assert_eq!(nearest("1.050000001", 9), "1.1");
    assert_eq!(nearest("1.09", 2), "1.1");
    assert_eq!(nearest("-1.09", 2), "-1.1");
    assert_eq!(nearest("-0.04", 2), "-0.0");
    assert_eq!(nearest("0", 1), "0.0");
    assert_eq!(nearest("-0", 1), "0.0");
    assert_eq!(nearest("7.3", 1), "7.3");
    assert_eq!(nearest("9.96", 2), "10.0");
}

#[test]
fn round_nearest_breaks_ties_to_even() {
    assert_eq!(nearest("1.05", 2), "1.0");
    assert_eq!(nearest("1.15", 2), "1.2");
    assert_eq!(nearest("-1.15", 2), "-1.2");
    assert_eq!(nearest("0.05", 2), "0.0");
    assert_eq!(nearest("0.050", 5), "0.0");
    assert_eq!(nearest("0.05000000000000000000000001", 26), "0.1");
}

#[test]
fn tenths_are_written_with_one_fraction_digit() {
    assert_eq!(shown(&Tenths { negative: false, digits: b"0".to_vec() }), "0.0");
    assert_eq!(shown(&Tenths { negative: true, digits: b"0".to_vec() }), "-0.0");
    assert_eq!(shown(&Tenths { negative: false, digits: b"7".to_vec() }), "0.7");
    assert_eq!(shown(&Tenths { negative: false, digits: b"50".to_vec() }), "5.0");
    assert_eq!(shown(&Tenths { negative: false, digits: b"00050".to_vec() }), "5.0");
    assert_eq!(shown(&Tenths { negative: true, digits: b"999".to_vec() }), "-99.9");
    assert_eq!(shown(&Tenths { negative: false, digits: b"1234567".to_vec() }), "123456.7");
}

#[test]
fn numbers_are_written_without_leading_zeros() {
    assert_eq!(number(b""), "0");
    assert_eq!(number(b"0"), "0");
    assert_eq!(number(b"000"), "0");
    assert_eq!(number(b"9"), "9");
    assert_eq!(number(b"0010"), "10");
    assert_eq!(number(b"1000000"), "1000000");
}

#[test]
fn digit_strings_add() {
    assert_eq!(number(&sum_of(b"", b"")), "0");
    assert_eq!(number(&sum_of(b"1", b"")), "1");
    assert_eq!(number(&sum_of(b"999", b"1")), "1000");
    assert_eq!(number(&sum_of(b"1", b"999")), "1000");
    assert_eq!(number(&sum_of(b"123", b"00877")), "1000");
    assert_eq!(number(&sum_of(b"5", b"5")), "10");
    assert_eq!(
        number(&sum_of(b"99999999999999999999999999", b"99999999999999999999999999")),
        "199999999999999999999999998"
    );
}

#[test]
fn digit_strings_subtract_and_compare() {
    let (difference, smaller) = subtract(b"1000", b"1");
    assert!(!smaller);
    assert_eq!(number(&difference), "999");
    let (difference, smaller) = subtract(b"5", b"005");
    assert!(!smaller);
    assert_eq!(number(&difference), "0");
    assert!(subtract(b"1", b"1000").1);
    assert!(subtract(b"", b"1").1);
    assert_eq!(
        number(&subtract(b"100000000000000000000000000", b"1").0),
        "99999999999999999999999999"
    );
    assert!(less(b"9", b"10"));
    assert!(!less(b"10", b"9"));
    assert!(!less(b"10", b"010"));
    assert!(less(b"", b"0001"));
    assert!(!less(b"", b"000"));
}

#[test]
fn digit_strings_divide_by_machine_integers() {
    let (quotient, left) = divide(b"1000", 7);
    assert_eq!(number(&quotient), "142");
    assert_eq!(left, 6);
    let (quotient, left) = divide(b"", 7);
    assert_eq!(number(&quotient), "0");
    assert_eq!(left, 0);
    let (quotient, left) = divide(b"18446744073709551615", u64::MAX);
    assert_eq!(number(&quotient), "1");
    assert_eq!(left, 0);
    let (quotient, left) = divide(b"184467440737095516140", u64::MAX);
    assert_eq!(number(&quotient), "9");
    assert_eq!(left, u64::MAX - 10);
    let (quotient, left) = divide(b"100000000000000000000000000000", 3);
    assert_eq!(number(&quotient), "33333333333333333333333333333");
    assert_eq!(left, 1);
}

#[test]
fn digits_are_told_from_other_bytes() {
    assert!(only_digits(b""));
    assert!(only_digits(b"0123456789"));
    assert!(!only_digits(b"12a"));
    assert!(!only_digits(b"/"));
    assert!(!only_digits(b":"));
    assert_eq!(zero_digits(3), b"000".to_vec());
}

#[test]
fn byte_order_is_lexicographic() {
    assert!(comes_before(b"", b"a"));
    assert!(!comes_before(b"", b""));
    assert!(!comes_before(b"a", b"a"));
    assert!(comes_before(b"a", b"ab"));
    assert!(!comes_before(b"ab", b"a"));
    assert!(comes_before(b"ab", b"b"));
    assert!(comes_before(b"Z", b"a"));
    assert!(comes_before("z".as_bytes(), "\u{e9}".as_bytes()));
    assert!(!comes_before(&[200u8], &[100u8]));
}

#[test]
fn find_from_gives_first_place_or_length() {
    assert_eq!(find_from(b"a;b;c", b';', 0), 1);
    assert_eq!(find_from(b"a;b;c", b';', 1), 1);
    assert_eq!(find_from(b"a;b;c", b';', 2), 3);
    assert_eq!(find_from(b"a;b;c", b';', 4), 5);
    assert_eq!(find_from(b"a;b;c", b';', 5), 5);
    assert_eq!(find_from(b"", b';', 0), 0);
}

#[test]
fn same_bytes_compares_content() {
    assert!(same_bytes(b"", b""));
    assert!(same_bytes(b"abc", b"abc"));
    assert!(!same_bytes(b"abc", b"abd"));
    assert!(!same_bytes(b"abc", b"ab"));
}
