//! Records before and after normalizing.

use vstd::prelude::*;
use crate::dateset::{all_dated, ascending, timestamp_days, DateSet};
use crate::date::ObservationDate;
use crate::decimal::{decimal_u64, parse_u64};
use crate::error::Rejection;

verus! {

/// One observation as a parser hands it over: identifier and name as text,
/// timestamps in seconds since the epoch, in the order of the input.
#[derive(Debug)]
pub struct RawRecord {
    pub identifier: String,
    pub name: String,
    pub timestamps: Vec<i64>,
}

/// What a normalized record says: which account, which name, which dates.
pub struct Pair {
    pub id: u64,
    pub name: Seq<char>,
    pub dates: Seq<ObservationDate>,
}

impl Pair {
    /// The days on which the name was observed.
    pub open spec fn days(self) -> Set<int> {
        crate::dateset::day_set(self.dates)
    }
}

/// A normalized record: an account identifier, a non-empty name, and the
/// dates on which the account was seen under that name.
#[derive(Debug)]
pub struct PairRecord {
    id: u64,
    name: String,
    dates: DateSet,
}

impl View for PairRecord {
    type V = Pair;

    closed spec fn view(&self) -> Pair {
        Pair { id: self.id, name: self.name@, dates: self.dates@ }
    }
}

/// What normalizing makes of an identifier, a name and timestamps: the
/// account, the name and the days observed, or the first reason to reject.
pub open spec fn normal_form(identifier: Seq<char>, name: Seq<char>, timestamps: Seq<i64>) -> Result<
    (u64, Seq<char>, Set<int>),
    Rejection,
> {
    if decimal_u64(identifier) is None {
        Err(Rejection::Identifier)
    } else if name.len() == 0 {
        Err(Rejection::EmptyName)
    } else if !all_dated(timestamps) {
        Err(Rejection::Timestamp)
    } else {
        Ok((decimal_u64(identifier)->0, name, timestamp_days(timestamps)))
    }
}

impl PairRecord {
    #[verifier::type_invariant]
    spec fn named(self) -> bool {
        self.name@.len() > 0
    }

    /// The record for `id`, `name` and `dates`, unless the name is empty.
    pub fn new(id: u64, name: String, dates: DateSet) -> (record: Option<PairRecord>)
        ensures
            record is Some <==> name@.len() > 0,
            record matches Some(r) ==> r@ == (Pair { id, name: name@, dates: dates@ }),
    {
        if name.as_str().is_empty() {
            None
        } else {
            Some(PairRecord { id, name, dates })
        }
    }

    /// The account identifier.
    pub fn id(&self) -> (id: u64)
        ensures
            id == self@.id,
    {
        self.id
    }

    /// The name, which is never empty.
    pub fn name(&self) -> (name: &str)
        ensures
            name@ == self@.name,
            name@.len() > 0,
    {
        proof {
            use_type_invariant(self);
        }
        self.name.as_str()
    }

    /// The dates observed, in ascending order and without repeats.
    pub fn dates(&self) -> (dates: &DateSet)
        ensures
            dates@ == self@.dates,
    {
        &self.dates
    }
}

/// Turns a raw record into a normalized one: the identifier is read as an
/// unsigned 64-bit decimal, the name is kept as it is and must not be empty,
/// and each timestamp is replaced by its UTC date; the dates are put in
/// ascending order and repeats are dropped.
pub fn normalize(raw: &RawRecord) -> (result: Result<PairRecord, Rejection>)
    ensures
        match result {
            Ok(record) => {
                &&& normal_form(raw.identifier@, raw.name@, raw.timestamps@) == Ok::<
                    (u64, Seq<char>, Set<int>),
                    Rejection,
                >((record@.id, record@.name, record@.days()))
                &&& ascending(record@.dates)
            },
            Err(reason) => normal_form(raw.identifier@, raw.name@, raw.timestamps@) == Err::<
                (u64, Seq<char>, Set<int>),
                Rejection,
            >(reason),
        },
{
    let id = match parse_u64(raw.identifier.as_str()) {
        Some(id) => id,
        None => {
            return Err(Rejection::Identifier);
        },
    };
    if raw.name.as_str().is_empty() {
        return Err(Rejection::EmptyName);
    }
    let dates = match DateSet::from_timestamps(&raw.timestamps) {
        Some(dates) => dates,
        None => {
            return Err(Rejection::Timestamp);
        },
    };
    Ok(PairRecord { id, name: raw.name.clone(), dates })
}

} // verus!
