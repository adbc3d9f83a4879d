use station_summary::decimal::parse_value;
use station_summary::decimal::Units;
use station_summary::records::input_scale;
use station_summary::records::parse_record;
use station_summary::records::read_stations;
use station_summary::report::render;
use station_summary::report::sorted_places;
use station_summary::table::StationStats;
use station_summary::table::Table;

fn units(text: &str, scale: usize) -> Units {
    parse_value(text.as_bytes()).unwrap().units(scale)
}

fn fold(table: &mut Table, name: &str, value: &str) {
    let scale = table.scale_of();
    table.fold(name.as_bytes(), &units(value, scale));
}

fn value_of(units: &Units) -> i128 {
    let magnitude: i128 = String::from_utf8(units.digits.clone()).unwrap().parse().unwrap();
    if units.negative {
        -magnitude
    } else {
        magnitude
    }
}

fn total_of(stats: &StationStats) -> i128 {
    let gains: i128 = if stats.gains.is_empty() {
        0
    } else {
        String::from_utf8(stats.gains.clone()).unwrap().parse().unwrap()
    };
    let losses: i128 = if stats.losses.is_empty() {
        0
    } else {
        String::from_utf8(stats.losses.clone()).unwrap().parse().unwrap()
    };
    gains - losses
}

fn held(table: &Table, name: &str) -> (i128, i128, i128, u64) {
    let stats = table.get(name.as_bytes()).unwrap();
    (value_of(&stats.min), value_of(&stats.max), total_of(stats), stats.count)
}

#[test]
fn new_table_is_empty() {
    let table = Table::new(1);
    assert_eq!(table.len(), 0);
    assert_eq!(table.scale_of(), 1);
    assert_eq!(table.get(b"A"), None);
    assert_eq!(render(&table), b"{}\n".to_vec());
}

#[test]
fn first_value_sets_every_field() {
    let mut table = Table::new(1);
    fold(&mut table, "A", "5.0");
    assert_eq!(table.len(), 1);
    assert_eq!(held(&table, "A"), (50, 50, 50, 1));
    assert_eq!(table.get(b"B"), None);
}

#[test]
fn two_values_give_bounds_total_and_count() {
    let table = read_stations(b"A;1.0\nA;2.0").unwrap();
    assert_eq!(table.scale_of(), 1);
    assert_eq!(held(&table, "A"), (10, 20, 30, 2));
}

#[test]
fn table_counts_at_the_finest_scale_of_its_input() {
    let table = read_stations(b"A;1\nB;2.125\nA;0.5").unwrap();
    assert_eq!(table.scale_of(), 3);
    assert_eq!(held(&table, "A"), (500, 1000, 1500, 2));
    assert_eq!(held(&table, "B"), (2125, 2125, 2125, 1));
    assert_eq!(input_scale(b"A;1\nB;2.125\nA;0.5"), Ok(3));
    assert_eq!(input_scale(b"A;1\nB;2"), Ok(1));
    assert_eq!(input_scale(b""), Ok(1));
}

#[test]
fn value_equal_to_a_bound_moves_neither() {
    let mut table = Table::new(1);
    fold(&mut table, "A", "2");
    fold(&mut table, "A", "4");
    fold(&mut table, "A", "2");
    fold(&mut table, "A", "4");
    assert_eq!(held(&table, "A"), (20, 40, 120, 4));
}

#[test]
fn value_below_and_above_move_the_bounds() {
    let mut table = Table::new(1);
    fold(&mut table, "A", "0");
    fold(&mut table, "A", "-0.3");
    fold(&mut table, "A", "0.7");
    fold(&mut table, "A", "0.1");
    assert_eq!(held(&table, "A"), (-3, 7, 5, 4));
}

#[test]
fn absorb_takes_one_value() {
    let stats = StationStats::single(&units("1", 1), 1)
        .absorb(&units("-0.4", 1), 1)
        .absorb(&units("3", 1), 1);
    assert_eq!(value_of(&stats.min), -4);
    assert_eq!(value_of(&stats.max), 30);
    assert_eq!(total_of(&stats), 36);
    assert_eq!(stats.count, 3);
}

#[test]
fn absorb_holds_totals_of_any_size() {
    let big = "99999999999999999999999999999999999";
    let stats = StationStats::single(&units(big, 1), 1)
        .absorb(&units(big, 1), 1)
        .absorb(&units(big, 1), 1);
    assert_eq!(total_of(&stats), 3 * 999999999999999999999999999999999990i128);
    assert_eq!(stats.count, 3);
}

#[test]
fn stations_are_listed_in_order_of_first_occurrence() {
    let table = read_stations(b"C;1\nA;2\nB;3\nA;4\nC;5\n").unwrap();
    assert_eq!(table.len(), 3);
    assert_eq!(table.name_at(0), b"C");
    assert_eq!(table.name_at(1), b"A");
    assert_eq!(table.name_at(2), b"B");
    assert_eq!(Some(table.stats_at(1)), table.get(b"A"));
    assert_eq!(table.position(b"B"), Some(2));
    assert_eq!(table.position(b"D"), None);
}

#[test]
fn sorted_places_order_the_listing_by_name() {
    let table = read_stations(b"C;1\nA;2\nB;3\nAB;4\n;5\n").unwrap();
    assert_eq!(sorted_places(&table), vec![4, 1, 3, 2, 0]);
}

#[test]
fn sorted_names_increase_strictly() {
    let table = read_stations("x;1\nb;1\nm;1\nb;2\na;1\nz;1\nm;5\n\u{e9};1\n".as_bytes()).unwrap();
    let places = sorted_places(&table);
    assert_eq!(places.len(), table.len());
    for pair in places.windows(2) {
        assert!(table.name_at(pair[0]) < table.name_at(pair[1]));
    }
}

#[test]
fn record_is_name_and_value() {
    let (name, value) = parse_record(b"Oslo;-3.2").unwrap();
    assert_eq!(name, b"Oslo");
    assert_eq!(value.units(1), units("-3.2", 1));
    let (name, value) = parse_record(b"a=b, c;7;8").unwrap();
    assert_eq!(name, b"a=b, c");
    assert_eq!(value.units(1), units("7", 1));
}

#[test]
fn render_writes_name_and_three_numbers() {
    let mut table = Table::new(1);
    fold(&mut table, "k", "1.5");
    fold(&mut table, "k", "2.5");
    fold(&mut table, "j", "-1");
    assert_eq!(render(&table), b"{j=-1.0/-1.0/-1.0, k=1.5/2.0/2.5}\n".to_vec());
}
