//! The input: lines of `name;value`, read in order into a table.

use vstd::prelude::*;
use vstd::pervasive::unreached;
use vstd::slice::slice_subrange;
use crate::decimal::fraction_digits;
use crate::decimal::is_decimal;
use crate::decimal::parse_value;
use crate::decimal::units_at;
use crate::decimal::Decimal;
use crate::error::InputError;
use crate::error::ParseError;
use crate::table::accumulated;
use crate::table::fold_record;
use crate::table::lemma_fold_keeps_well_formed;
use crate::table::lookup;
use crate::table::Accumulator;
use crate::table::Table;
use crate::text::find_from;
use crate::text::first_index;
use crate::text::first_index_from;
use crate::text::lemma_first_index_from;
use crate::text::lemma_first_index_from_unique;
use crate::text::CARRIAGE_RETURN;
use crate::text::LINE_FEED;
use crate::text::SEMICOLON;

verus! {

/// A line without the carriage return that may end it.
pub open spec fn without_return(line: Seq<u8>) -> Seq<u8> {
    if line.len() > 0 && line.last() == CARRIAGE_RETURN {
        line.drop_last()
    } else {
        line
    }
}

/// The lines of `input` from position `from` on.
///
/// A line ends at a line feed, which is not part of it, nor is a carriage
/// return that stands directly before the line feed. What follows the last
/// line feed is a line of its own unless it is empty; it keeps a carriage
/// return at its end.
pub open spec fn lines_from(input: Seq<u8>, from: int) -> Seq<Seq<u8>>
    decreases input.len() - from,
{
    if from < 0 || from >= input.len() {
        Seq::<Seq<u8>>::empty()
    } else {
        proof {
            lemma_first_index_from(input, LINE_FEED, from);
        }
        let end = first_index_from(input, LINE_FEED, from);
        if end < input.len() {
            seq![without_return(input.subrange(from, end))] + lines_from(input, end + 1)
        } else {
            seq![input.subrange(from, end)]
        }
    }
}

/// The lines of `input`.
pub open spec fn lines_of(input: Seq<u8>) -> Seq<Seq<u8>> {
    lines_from(input, 0)
}

/// The record that a line holds: the station name is what stands before
/// the first `;`, taken as it is, and the value is what stands between the
/// first `;` and the next one, or the end of the line, which must be a
/// decimal number.
pub open spec fn record_of(line: Seq<u8>) -> Result<(Seq<u8>, Seq<u8>), ParseError> {
    let separator = first_index(line, SEMICOLON);
    if separator >= line.len() {
        Err(ParseError::MissingSeparator)
    } else {
        let end = first_index_from(line, SEMICOLON, separator + 1);
        let value = line.subrange(separator + 1, end);
        if is_decimal(value) {
            Ok((line.take(separator), value))
        } else {
            Err(ParseError::InvalidNumber)
        }
    }
}

/// The first line that holds no record, if there is one.
pub open spec fn first_refusal(lines: Seq<Seq<u8>>) -> Option<InputError>
    decreases lines.len(),
{
    if lines.len() == 0 {
        None
    } else {
        match first_refusal(lines.drop_last()) {
            Some(error) => Some(error),
            None => match record_of(lines.last()) {
                Err(kind) => Some(InputError { line: lines.len() as usize, kind }),
                Ok(_) => None,
            },
        }
    }
}

/// How many digits the value of a line has after the point; none when the
/// line holds no record.
pub open spec fn fraction_len(line: Seq<u8>) -> nat {
    match record_of(line) {
        Ok((_, value)) => fraction_digits(value).len(),
        Err(_) => 0,
    }
}

/// The scale at which the lines are counted: the greatest number of digits
/// that any value has after the point, and at least one. In units of which
/// ten to this power make one, every value of the lines is a whole number.
pub open spec fn scale_of(lines: Seq<Seq<u8>>) -> nat
    decreases lines.len(),
{
    if lines.len() == 0 {
        1
    } else if fraction_len(lines.last()) > scale_of(lines.drop_last()) {
        fraction_len(lines.last())
    } else {
        scale_of(lines.drop_last())
    }
}

/// The stations that the records of the lines give when they are folded in
/// order, their values counted in units of the given scale.
pub open spec fn stations_at(lines: Seq<Seq<u8>>, scale: nat) -> Map<Seq<u8>, Accumulator>
    decreases lines.len(),
{
    if lines.len() == 0 {
        Map::<Seq<u8>, Accumulator>::empty()
    } else {
        let before = stations_at(lines.drop_last(), scale);
        match record_of(lines.last()) {
            Ok((name, value)) => fold_record(before, name, units_at(value, scale)),
            Err(_) => before,
        }
    }
}

/// The table that the lines give, counted at their own scale, or the
/// first line that is refused.
pub open spec fn table_of(lines: Seq<Seq<u8>>) -> Result<Map<Seq<u8>, Accumulator>, InputError> {
    match first_refusal(lines) {
        Some(error) => Err(error),
        None => Ok(stations_at(lines, scale_of(lines))),
    }
}

/// Once a line is refused, the lines after it change nothing.
pub proof fn lemma_refusal_stands(lines: Seq<Seq<u8>>, more: Seq<Seq<u8>>)
    requires
        first_refusal(lines) is Some,
    ensures
        first_refusal(lines + more) == first_refusal(lines),
    decreases more.len(),
{
    if more.len() == 0 {
        assert(lines + more =~= lines);
    } else {
        lemma_refusal_stands(lines, more.drop_last());
        assert((lines + more).drop_last() =~= lines + more.drop_last());
    }
}

/// The line that is refused holds no record, for the reason given, and
/// every line before it holds one.
pub proof fn lemma_refusal_is_first(lines: Seq<Seq<u8>>)
    requires
        lines.len() <= usize::MAX,
    ensures
        first_refusal(lines) matches Some(error) ==> {
            &&& 1 <= error.line <= lines.len()
            &&& record_of(lines[error.line - 1]) == Err::<(Seq<u8>, Seq<u8>), ParseError>(
                error.kind,
            )
            &&& forall|i: int| 0 <= i < error.line - 1 ==> record_of(#[trigger] lines[i]) is Ok
        },
    decreases lines.len(),
{
    if lines.len() > 0 {
        let front = lines.drop_last();
        lemma_refusal_is_first(front);
        match first_refusal(front) {
            Some(error) => {
                assert(first_refusal(lines) == Some(error));
                assert(lines[error.line - 1] == front[error.line - 1]);
                assert forall|i: int| 0 <= i < error.line - 1 implies record_of(
                    #[trigger] lines[i],
                ) is Ok by {
                    assert(lines[i] == front[i]);
                }
            },
            None => {
                assert forall|i: int| 0 <= i < front.len() implies record_of(#[trigger] lines[i])
                    is Ok by {
                    assert(lines[i] == front[i]);
                    lemma_every_line_counts(front, i);
                }
            },
        }
    }
}

/// Where no line is refused, every line holds a record, and none has more
/// digits after the point than the scale of the lines.
pub proof fn lemma_every_line_counts(lines: Seq<Seq<u8>>, i: int)
    requires
        0 <= i < lines.len(),
    ensures
        first_refusal(lines) is None ==> record_of(lines[i]) is Ok,
        fraction_len(lines[i]) <= scale_of(lines),
        scale_of(lines) >= 1,
    decreases lines.len(),
{
    if i < lines.len() - 1 {
        lemma_every_line_counts(lines.drop_last(), i);
    } else if lines.len() > 1 {
        lemma_every_line_counts(lines.drop_last(), 0);
    }
}

/// Whatever the lines and the scale, there are finitely many stations,
/// each with a well-formed accumulator.
pub proof fn lemma_stations_are_well_formed(lines: Seq<Seq<u8>>, scale: nat)
    ensures
        stations_at(lines, scale).dom().finite(),
        forall|name: Seq<u8>| #[trigger]
            stations_at(lines, scale).contains_key(name) ==> stations_at(
                lines,
                scale,
            )[name].well_formed(),
    decreases lines.len(),
{
    if lines.len() > 0 {
        lemma_stations_are_well_formed(lines.drop_last(), scale);
        if let Ok((name, value)) = record_of(lines.last()) {
            lemma_fold_keeps_well_formed(
                stations_at(lines.drop_last(), scale),
                name,
                units_at(value, scale),
            );
        }
    }
}

/// The values that the lines hold for one station, in order.
pub open spec fn values_of(lines: Seq<Seq<u8>>, name: Seq<u8>, scale: nat) -> Seq<int>
    decreases lines.len(),
{
    if lines.len() == 0 {
        Seq::<int>::empty()
    } else {
        let before = values_of(lines.drop_last(), name, scale);
        match record_of(lines.last()) {
            Ok((station, value)) => if station == name {
                before.push(units_at(value, scale))
            } else {
                before
            },
            Err(_) => before,
        }
    }
}

/// The stations are exactly those that some line names, and what is held
/// of a station is what the station's own values accumulate to.
pub proof fn lemma_station_is_its_values(lines: Seq<Seq<u8>>, name: Seq<u8>, scale: nat)
    ensures
        lookup(stations_at(lines, scale), name) == if values_of(lines, name, scale).len() == 0 {
            None::<Accumulator>
        } else {
            Some(accumulated(values_of(lines, name, scale)))
        },
    decreases lines.len(),
{
    if lines.len() > 0 {
        lemma_station_is_its_values(lines.drop_last(), name, scale);
        if let Ok((station, value)) = record_of(lines.last()) {
            if station == name {
                let values = values_of(lines, name, scale);
                assert(values.drop_last() =~= values_of(lines.drop_last(), name, scale));
            }
        }
    }
}

/// A line feed at the very end adds no line: an input that ends in
/// neither a line feed nor a carriage return has the same lines with a
/// line feed after it.
pub proof fn lemma_final_line_feed_adds_no_line(input: Seq<u8>, from: int)
    requires
        0 <= from < input.len(),
        input.last() != LINE_FEED,
        input.last() != CARRIAGE_RETURN,
    ensures
        lines_from(input.push(LINE_FEED), from) == lines_from(input, from),
    decreases input.len() - from,
{
    let longer = input.push(LINE_FEED);
    let end = first_index_from(input, LINE_FEED, from);
    lemma_first_index_from(input, LINE_FEED, from);
    assert forall|j: int| from <= j < end implies longer[j] != LINE_FEED by {
        assert(longer[j] == input[j]);
    }
    lemma_first_index_from_unique(longer, LINE_FEED, from, end);
    assert(longer.subrange(from, end) =~= input.subrange(from, end));
    if end < input.len() {
        lemma_final_line_feed_adds_no_line(input, end + 1);
    } else {
        assert(lines_from(longer, end + 1) =~= Seq::<Seq<u8>>::empty());
        assert(input.subrange(from, end).last() == input.last());
    }
}

/// Reads the record of one line.
pub fn parse_record(line: &[u8]) -> (record: Result<(&[u8], Decimal), ParseError>)
    ensures
        match record {
            Ok((name, decimal)) => record_of(line@) matches Ok((station, value)) && station
                == name@ && decimal.reads(value) && decimal.well_formed(),
            Err(kind) => record_of(line@) == Err::<(Seq<u8>, Seq<u8>), ParseError>(kind),
        },
{
    let separator: usize = find_from(line, SEMICOLON, 0);
    if separator >= line.len() {
        return Err(ParseError::MissingSeparator);
    }
    let end: usize = find_from(line, SEMICOLON, separator + 1);
    let name = slice_subrange(line, 0, separator);
    match parse_value(slice_subrange(line, separator + 1, end)) {
        Ok(decimal) => Ok((name, decimal)),
        Err(kind) => Err(kind),
    }
}

/// Takes the line that starts at `from`, and says where the next one
/// starts: after the line feed that ends the line, or at the end of the
/// input when no line feed follows.
pub fn next_line(input: &[u8], from: usize) -> (found: (&[u8], usize))
    requires
        from < input@.len(),
    ensures
        from < found.1 <= input@.len(),
        found.1 == first_index_from(input@, LINE_FEED, from as int) + 1 || (found.1 == input@.len()
            && first_index_from(input@, LINE_FEED, from as int) == input@.len()),
        lines_from(input@, from as int) == seq![found.0@] + lines_from(input@, found.1 as int),
{
    let end: usize = find_from(input, LINE_FEED, from);
    if end < input.len() {
        let stop: usize = if end > from && input[end - 1] == CARRIAGE_RETURN {
            end - 1
        } else {
            end
        };
        let line = slice_subrange(input, from, stop);
        assert(line@ =~= without_return(input@.subrange(from as int, end as int)));
        (line, end + 1)
    } else {
        let line = slice_subrange(input, from, end);
        (line, end)
    }
}

/// Looks at every line once: finds the first line that is refused, or
/// else the scale at which the values of all lines are whole numbers.
pub fn input_scale(input: &[u8]) -> (outcome: Result<usize, InputError>)
    ensures
        match outcome {
            Ok(scale) => first_refusal(lines_of(input@)) is None && scale == scale_of(
                lines_of(input@),
            ),
            Err(error) => first_refusal(lines_of(input@)) == Some(error),
        },
{
    let mut scale: usize = 1;
    let mut from: usize = 0;
    let mut read: usize = 0;
    let ghost mut done: Seq<Seq<u8>> = Seq::empty();
    while from < input.len()
        invariant
            from <= input@.len(),
            read <= from,
            read == done.len(),
            lines_of(input@) == done + lines_from(input@, from as int),
            first_refusal(done) is None,
            scale == scale_of(done),
        decreases input@.len() - from,
    {
        let (line, next) = next_line(input, from);
        let ghost rest = lines_from(input@, next as int);
        proof {
            assert(done.push(line@).drop_last() =~= done);
            assert(lines_of(input@) =~= done.push(line@) + rest);
        }
        match parse_record(line) {
            Err(kind) => {
                proof {
                    lemma_refusal_stands(done.push(line@), rest);
                }
                return Err(InputError { line: read + 1, kind });
            },
            Ok((_, decimal)) => {
                if decimal.scale > scale {
                    scale = decimal.scale;
                }
            },
        }
        proof {
            done = done.push(line@);
        }
        read += 1;
        from = next;
    }
    Ok(scale)
}

/// Reads every line of `input` in order and folds its record into a table
/// that starts empty. The first line that holds no record ends the reading:
/// nothing is skipped and no partial table is returned. Every other input
/// gives a table, whatever the size of its numbers.
pub fn read_stations(input: &[u8]) -> (outcome: Result<Table, InputError>)
    ensures
        match outcome {
            Ok(table) => table.well_formed() && table.scale() == scale_of(lines_of(input@))
                && table_of(lines_of(input@)) == Ok::<Map<Seq<u8>, Accumulator>, InputError>(
                table@,
            ),
            Err(error) => table_of(lines_of(input@)) == Err::<
                Map<Seq<u8>, Accumulator>,
                InputError,
            >(error),
        },
{
    let scale: usize = match input_scale(input) {
        Ok(scale) => scale,
        Err(error) => {
            return Err(error);
        },
    };
    proof {
        if lines_of(input@).len() > 0 {
            lemma_every_line_counts(lines_of(input@), 0);
        }
    }
    let mut table = Table::new(scale);
    let mut from: usize = 0;
    let mut read: usize = 0;
    let ghost mut done: Seq<Seq<u8>> = Seq::empty();
    while from < input.len()
        invariant
            from <= input@.len(),
            read <= from,
            read == done.len(),
            table.well_formed(),
            table.scale() == scale,
            scale == scale_of(lines_of(input@)),
            first_refusal(lines_of(input@)) is None,
            lines_of(input@) == done + lines_from(input@, from as int),
            stations_at(done, scale as nat) == table@,
            forall|name: Seq<u8>| #[trigger]
                table@.contains_key(name) ==> table@[name].count <= read,
        decreases input@.len() - from,
    {
        let (line, next) = next_line(input, from);
        let ghost rest = lines_from(input@, next as int);
        proof {
            assert(done.push(line@).drop_last() =~= done);
            assert(lines_of(input@) =~= done.push(line@) + rest);
            assert(lines_of(input@)[read as int] == line@);
            lemma_every_line_counts(lines_of(input@), read as int);
        }
        match parse_record(line) {
            Err(_) => {
                return unreached();
            },
            Ok((name, decimal)) => {
                let units = decimal.units(scale);
                table.fold(name, &units);
            },
        }
        proof {
            done = done.push(line@);
        }
        read += 1;
        from = next;
    }
    Ok(table)
}

} // verus!
