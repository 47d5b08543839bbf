//! One trade-flow record.

use vstd::prelude::*;
use crate::date::date_key;
use crate::numeral::{chars_of, number_value, parse_unsigned};

verus! {

/// A trade-flow record. The index orders records by the ordinal of
/// `date` alone; `value` is what the extremal scans compare.
#[derive(Debug, Clone, PartialEq)]
pub struct Data {
    pub direction: String,
    pub year: u16,
    pub date: String,
    pub weekday: String,
    pub country: String,
    pub comodity: String,
    pub transport_mode: String,
    pub measure: String,
    pub value: u64,
    pub cumulative: u64,
}

/// The sort key of a record: the key of its date text.
pub open spec fn key_of(d: Data) -> int {
    date_key(d.date@)
}

/// `d` with its value replaced by `value`.
pub open spec fn with_value(d: Data, value: u64) -> Data {
    Data { value, ..d }
}

/// Why a row of text fields is not a record.
#[derive(Debug, Clone, Copy, PartialEq, Eq, Structural)]
pub enum ParseError {
    /// The row has fewer than the ten fields of a record.
    MissingField,
    /// The year, value or cumulative field is not an unsigned number of
    /// its width.
    BadNumber,
}

/// The number that `s` writes, if it is one and is at most `max`.
pub open spec fn number_at_most(s: Seq<char>, max: nat) -> Option<nat> {
    match number_value(s) {
        Some(n) => if n <= max {
            Some(n)
        } else {
            None
        },
        None => None,
    }
}

/// The number in `field`, if it is one and is at most `max`.
fn parse_field(field: &String, max: u64) -> (r: Option<u64>)
    ensures
        r == (match number_at_most(field@, max as nat) {
            Some(n) => Some(n as u64),
            None => None,
        }),
{
    let v = chars_of(field.as_str());
    assert(v@.subrange(0, v@.len() as int) =~= field@);
    parse_unsigned(&v, 0, v.len(), max)
}

impl Data {
    /// The record that a row of text fields describes, in the order
    /// direction, year, date, weekday, country, commodity, transport mode,
    /// measure, value, cumulative. Fields after the tenth are ignored.
    pub fn from_fields(fields: &Vec<String>) -> (r: Result<Data, ParseError>)
        ensures
            fields.len() < 10 ==> r == Err::<Data, ParseError>(ParseError::MissingField),
            fields.len() >= 10 ==> match (
                number_at_most(fields[1]@, u16::MAX as nat),
                number_at_most(fields[8]@, u64::MAX as nat),
                number_at_most(fields[9]@, u64::MAX as nat),
            ) {
                (Some(year), Some(value), Some(cumulative)) => r == Ok::<Data, ParseError>(
                    Data {
                        direction: fields[0],
                        year: year as u16,
                        date: fields[2],
                        weekday: fields[3],
                        country: fields[4],
                        comodity: fields[5],
                        transport_mode: fields[6],
                        measure: fields[7],
                        value: value as u64,
                        cumulative: cumulative as u64,
                    },
                ),
                _ => r == Err::<Data, ParseError>(ParseError::BadNumber),
            },
    {
        if fields.len() < 10 {
            return Err(ParseError::MissingField);
        }
        let year = match parse_field(&fields[1], u16::MAX as u64) {
            Some(n) => n as u16,
            None => {
                return Err(ParseError::BadNumber);
            },
        };
        let value = match parse_field(&fields[8], u64::MAX) {
            Some(n) => n,
            None => {
                return Err(ParseError::BadNumber);
            },
        };
        let cumulative = match parse_field(&fields[9], u64::MAX) {
            Some(n) => n,
            None => {
                return Err(ParseError::BadNumber);
            },
        };
        Ok(
            Data {
                direction: fields[0].clone(),
                year,
                date: fields[2].clone(),
                weekday: fields[3].clone(),
                country: fields[4].clone(),
                comodity: fields[5].clone(),
                transport_mode: fields[6].clone(),
                measure: fields[7].clone(),
                value,
                cumulative,
            },
        )
    }

    /// A copy of this record, field by field.
    pub fn duplicate(&self) -> (r: Data)
        ensures
            r == *self,
    {
        Data {
            direction: self.direction.clone(),
            year: self.year,
            date: self.date.clone(),
            weekday: self.weekday.clone(),
            country: self.country.clone(),
            comodity: self.comodity.clone(),
            transport_mode: self.transport_mode.clone(),
            measure: self.measure.clone(),
            value: self.value,
            cumulative: self.cumulative,
        }
    }
}

} // verus!
