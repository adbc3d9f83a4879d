//! Per-station minimum, mean and maximum of `name;value` measurement records,
//! computed exactly, whatever the size of the numbers, and rendered as one
//! sorted line.

pub mod decimal;
pub mod digits;
pub mod error;
pub mod records;
pub mod report;
pub mod table;
pub mod tenths;
pub mod text;

use vstd::prelude::*;
use crate::text::CLOSE_BRACE;
use crate::text::LINE_FEED;
use crate::text::OPEN_BRACE;
use crate::error::InputError;
use crate::records::lemma_stations_are_well_formed;
use crate::records::lines_of;
use crate::records::read_stations;
use crate::records::scale_of;
use crate::records::table_of;
use crate::report::entries_text;
use crate::report::lemma_sorted_names_lists;
use crate::report::lists;
use crate::report::render;
use crate::report::report;
use crate::report::sorted_names;
use crate::tenths::tenth_units;

verus! {

/// What an input gives: the report of the table that its lines fold into,
/// or the first line that is refused.
pub open spec fn summary(input: Seq<u8>) -> Result<Seq<u8>, InputError> {
    match table_of(lines_of(input)) {
        Ok(stations) => Ok(report(stations, scale_of(lines_of(input)))),
        Err(error) => Err(error),
    }
}

/// In every report the station names stand in strictly increasing order,
/// each station of the input once.
pub proof fn lemma_summary_is_sorted(input: Seq<u8>)
    ensures
        table_of(lines_of(input)) matches Ok(stations) ==> {
            let names = sorted_names(stations.dom());
            &&& lists(names, stations.dom())
            &&& summary(input) == Ok::<Seq<u8>, InputError>(
                seq![OPEN_BRACE] + entries_text(
                    names,
                    stations,
                    tenth_units(scale_of(lines_of(input))),
                ) + seq![CLOSE_BRACE, LINE_FEED],
            )
        },
{
    lemma_stations_are_well_formed(lines_of(input), scale_of(lines_of(input)));
    if let Ok(stations) = table_of(lines_of(input)) {
        lemma_sorted_names_lists(stations.dom());
    }
}

/// Reads the whole input, then renders the report. The outcome depends on
/// the bytes of the input alone. An input without lines gives `{}` and a
/// line feed; an input with a line that is refused gives no report at all.
pub fn summarize(input: &[u8]) -> (outcome: Result<Vec<u8>, InputError>)
    ensures
        match outcome {
            Ok(text) => summary(input@) == Ok::<Seq<u8>, InputError>(text@),
            Err(error) => summary(input@) == Err::<Seq<u8>, InputError>(error),
        },
{
    match read_stations(input) {
        Ok(table) => Ok(render(&table)),
        Err(error) => Err(error),
    }
}

} // verus!
