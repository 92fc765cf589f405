//! Reading batches of observations: three input formats, one record shape.

use vstd::prelude::*;
use crate::dateset::ascending;
use crate::decimal::{decimal_i64, decimal_u64, i64_in, u64_in};
use crate::error::Error;
use crate::lookup::{accounts, merged, names, stored_days, Lookup, Pairs};
pub use crate::lookup::UpdateMode;
use crate::record::{normal_form, normalize, Pair, PairRecord, RawRecord};
use crate::text::{chars_of, lines, split, split_lines, split_ranges};

verus! {

/// The encodings in which observations arrive.
#[derive(Clone, Copy, Debug, PartialEq, Eq, Structural)]
pub enum Format {
    /// One line per pair: identifier, name, then any number of timestamps,
    /// separated by commas.
    MultiDate,
    /// One line per mention: identifier, name, then at least one timestamp,
    /// separated by commas.
    Mentions,
    /// One JSON value per line: an array of the identifier as a string, the
    /// name as a string, and an array of timestamps.
    Json,
}

/// Identifier, name and timestamps as a parser reads them off one line.
pub type Fields = (Seq<char>, Seq<char>, Seq<i64>);

/// Whether every field from the third on is a signed 64-bit decimal.
pub open spec fn all_timestamps(fields: Seq<Seq<char>>) -> bool {
    forall|k: int| 2 <= k < fields.len() ==> decimal_i64(#[trigger] fields[k]) is Some
}

/// The numbers written in the fields from the third on.
pub open spec fn timestamps_from(fields: Seq<Seq<char>>) -> Seq<i64> {
    Seq::new((fields.len() - 2) as nat, |k: int| decimal_i64(fields[k + 2])->0)
}

/// What a line of the multi-date format holds, if it is well formed: at least
/// two fields, the first an unsigned 64-bit decimal, and all after the second
/// signed 64-bit decimals.
pub open spec fn multi_fields(line: Seq<char>) -> Option<Fields> {
    let fields = split(line, ',');
    if fields.len() >= 2 && decimal_u64(fields[0]) is Some && all_timestamps(fields) {
        Some((fields[0], fields[1], timestamps_from(fields)))
    } else {
        None
    }
}

/// What a line of the mentions format holds, if it is well formed: a
/// multi-date line with at least one timestamp.
pub open spec fn mention_fields(line: Seq<char>) -> Option<Fields> {
    let fields = split(line, ',');
    if fields.len() >= 3 {
        multi_fields(line)
    } else {
        None
    }
}

/// What serde_json decodes a line to when asked for an array of a string, a
/// string and an array of 64-bit integers; nothing if it reports an error.
pub uninterp spec fn json_fields(line: Seq<char>) -> Option<Fields>;

/// What a line holds in the given format, if it is well formed.
pub open spec fn raw_fields(line: Seq<char>, format: Format) -> Option<Fields> {
    match format {
        Format::MultiDate => multi_fields(line),
        Format::Mentions => mention_fields(line),
        Format::Json => json_fields(line),
    }
}

/// The account, name and days observed that a line stands for, if it is well
/// formed and its record is accepted.
pub open spec fn line_record(line: Seq<char>, format: Format) -> Option<(u64, Seq<char>, Set<int>)> {
    match raw_fields(line, format) {
        Some(fields) => match normal_form(fields.0, fields.1, fields.2) {
            Ok(pair) => Some(pair),
            Err(_) => None,
        },
        None => None,
    }
}

/// Whether `record` is the record that `line` stands for.
pub open spec fn records_line(record: Pair, line: Seq<char>, format: Format) -> bool {
    &&& line_record(line, format) == Some((record.id, record.name, record.days()))
    &&& ascending(record.dates)
}

/// Whether `error` is the failure that the ill-formed `line` calls for: the
/// decoder's complaint where a JSON line does not decode, and otherwise the
/// line itself, reported as malformed.
pub open spec fn error_for(error: Error, line: Seq<char>, format: Format) -> bool {
    if format == Format::Json && json_fields(line) is None {
        error is Json
    } else {
        error.rejects_line(line)
    }
}

/// Calls `serde_json::from_str` for a tuple of two strings and a vector of
/// 64-bit integers, and moves the three parts into a raw record.
///
/// Trusted: the outcome depends on the line alone. What serde_json accepts
/// and what it decodes to is only given a name, `json_fields`.
#[verifier::external_body]
fn decode_json_line(line: &str) -> (result: Result<RawRecord, String>)
    ensures
        match result {
            Ok(raw) => json_fields(line@) == Some((raw.identifier@, raw.name@, raw.timestamps@)),
            Err(_) => json_fields(line@) is None,
        },
{
    match serde_json::from_str::<(String, String, Vec<i64>)>(line) {
        Ok((identifier, name, timestamps)) => Ok(RawRecord { identifier, name, timestamps }),
        Err(error) => Err(error.to_string()),
    }
}

/// Reads one line of the multi-date format into its fields.
pub fn read_multi_line(line: &str) -> (result: Option<RawRecord>)
    ensures
        match result {
            Some(raw) => multi_fields(line@) == Some((raw.identifier@, raw.name@, raw.timestamps@)),
            None => multi_fields(line@) is None,
        },
{
    let chars = chars_of(line);
    let ranges = split_ranges(&chars, ',');
    let ghost fields = split(line@, ',');
    if ranges.len() < 2 {
        return None;
    }
    let (id_from, id_to) = ranges[0];
    let (name_from, name_to) = ranges[1];
    assert(chars@.subrange(id_from as int, id_to as int) == fields[0]);
    assert(chars@.subrange(name_from as int, name_to as int) == fields[1]);
    if u64_in(&chars, id_from, id_to).is_none() {
        return None;
    }
    let mut timestamps: Vec<i64> = Vec::new();
    let mut k: usize = 2;
    while k < ranges.len()
        invariant
            2 <= k <= ranges.len(),
            chars@ == line@,
            fields == split(line@, ','),
            ranges.len() == fields.len(),
            forall|m: int|
                0 <= m < ranges.len() ==> {
                    &&& (#[trigger] ranges[m]).0 <= ranges[m].1 <= chars.len()
                    &&& chars@.subrange(ranges[m].0 as int, ranges[m].1 as int) == fields[m]
                },
            timestamps.len() == k - 2,
            forall|m: int| 2 <= m < k ==> decimal_i64(#[trigger] fields[m]) is Some,
            forall|m: int| 0 <= m < k - 2 ==> #[trigger] timestamps[m] == decimal_i64(fields[m + 2])->0,
        decreases ranges.len() - k,
    {
        let (from, to) = ranges[k];
        assert(chars@.subrange(from as int, to as int) == fields[k as int]);
        match i64_in(&chars, from, to) {
            Some(value) => {
                timestamps.push(value);
            },
            None => {
                return None;
            },
        }
        k = k + 1;
    }
    let identifier = line.substring_char(id_from, id_to).to_owned();
    let name = line.substring_char(name_from, name_to).to_owned();
    assert(timestamps@ =~= timestamps_from(fields));
    Some(RawRecord { identifier, name, timestamps })
}

/// Reads one line of the given format into its fields.
pub fn read_line(line: &str, format: Format) -> (result: Result<RawRecord, Error>)
    ensures
        match result {
            Ok(raw) => raw_fields(line@, format) == Some((raw.identifier@, raw.name@, raw.timestamps@)),
            Err(error) => raw_fields(line@, format) is None && error_for(error, line@, format),
        },
{
    match format {
        Format::Json => match decode_json_line(line) {
            Ok(raw) => Ok(raw),
            Err(complaint) => Err(Error::Json(complaint)),
        },
        Format::MultiDate => match read_multi_line(line) {
            Some(raw) => Ok(raw),
            None => Err(Error::InvalidImportLine(line.to_owned())),
        },
        Format::Mentions => match read_multi_line(line) {
            Some(raw) => {
                if raw.timestamps.len() >= 1 {
                    Ok(raw)
                } else {
                    Err(Error::InvalidImportLine(line.to_owned()))
                }
            },
            None => Err(Error::InvalidImportLine(line.to_owned())),
        },
    }
}

/// Reads one line of the given format and normalizes what it holds. A line
/// that is ill formed, or whose record is not accepted, is an error and
/// yields no record at all.
pub fn parse_line(line: &str, format: Format) -> (result: Result<PairRecord, Error>)
    ensures
        match result {
            Ok(record) => records_line(record@, line@, format),
            Err(error) => line_record(line@, format) is None && error_for(error, line@, format),
        },
{
    match read_line(line, format) {
        Ok(raw) => match normalize(&raw) {
            Ok(record) => Ok(record),
            Err(_) => Err(Error::InvalidImportLine(line.to_owned())),
        },
        Err(error) => Err(error),
    }
}

/// Reads and normalizes one line of the multi-date format. A line with fewer
/// than two fields, or with a field after the second that is no integer, is
/// rejected as a whole, and the error carries the line as it was given.
pub fn parse_multi_line(line: &str) -> (result: Result<PairRecord, Error>)
    ensures
        match result {
            Ok(record) => records_line(record@, line@, Format::MultiDate),
            Err(error) => line_record(line@, Format::MultiDate) is None && error.rejects_line(line@),
        },
        split(line@, ',').len() < 2 ==> result is Err,
        !all_timestamps(split(line@, ',')) ==> result is Err,
{
    parse_line(line, Format::MultiDate)
}

/// Whether line `k` of `lines` is the first that stands for no record.
pub open spec fn first_bad(lines: Seq<Seq<char>>, format: Format, k: int) -> bool {
    &&& 0 <= k < lines.len()
    &&& line_record(lines[k], format) is None
    &&& forall|m: int| 0 <= m < k ==> line_record(#[trigger] lines[m], format) is Some
}

/// The store after the records were submitted to it one by one, in order.
pub open spec fn applied(pairs: Pairs, records: Seq<Pair>, mode: UpdateMode) -> Pairs
    decreases records.len(),
{
    if records.len() == 0 {
        pairs
    } else {
        let last = records.last();
        merged(applied(pairs, records.drop_last(), mode), last.id, last.name, last.days(), mode)
    }
}

/// Whether one of the records is about the pair `key`.
pub open spec fn submits(records: Seq<Pair>, key: (u64, Seq<char>)) -> bool {
    exists|k: int| 0 <= k < records.len() && (#[trigger] records[k]).id == key.0 && records[k].name == key.1
}

/// The days that the records hold for the pair `key`, taken together.
pub open spec fn submitted(records: Seq<Pair>, key: (u64, Seq<char>)) -> Set<int> {
    Set::new(
        |d: int|
            exists|k: int|
                0 <= k < records.len() && (#[trigger] records[k]).id == key.0 && records[k].name == key.1
                    && records[k].days().contains(d),
    )
}

/// After an update the store holds the pairs it held and the pairs
/// submitted, and for each of them the days it held together with the days
/// submitted: nothing is lost and nothing else is added.
pub proof fn lemma_applied_contents(pairs: Pairs, records: Seq<Pair>, mode: UpdateMode)
    ensures
        forall|key: (u64, Seq<char>)|
            #[trigger] applied(pairs, records, mode).dom().contains(key) <==> pairs.dom().contains(key)
                || submits(records, key),
        forall|key: (u64, Seq<char>)|
            applied(pairs, records, mode).dom().contains(key) ==> #[trigger] applied(pairs, records, mode)[key]
                == stored_days(pairs, key).union(submitted(records, key)),
    decreases records.len(),
{
    if records.len() == 0 {
        assert forall|key: (u64, Seq<char>)| pairs.dom().contains(key) implies #[trigger] pairs[key]
            == stored_days(pairs, key).union(submitted(records, key)) by {
            assert(stored_days(pairs, key).union(submitted(records, key)) =~= pairs[key]);
        }
    } else {
        let front = records.drop_last();
        let last = records.last();
        let mid = applied(pairs, front, mode);
        let end = applied(pairs, records, mode);
        lemma_applied_contents(pairs, front, mode);
        assert forall|key: (u64, Seq<char>)| #[trigger] end.dom().contains(key) <==> pairs.dom().contains(key)
            || submits(records, key) by {
            if submits(front, key) {
                let k = choose|k: int|
                    0 <= k < front.len() && (#[trigger] front[k]).id == key.0 && front[k].name == key.1;
                assert(records[k] == front[k]);
            }
            if submits(records, key) {
                let k = choose|k: int|
                    0 <= k < records.len() && (#[trigger] records[k]).id == key.0 && records[k].name
                        == key.1;
                if k < front.len() {
                    assert(records[k] == front[k]);
                    assert(submits(front, key));
                }
            }
            if key == (last.id, last.name) {
                assert(records[records.len() - 1].id == key.0);
            }
            assert(mid.dom().contains(key) <==> pairs.dom().contains(key) || submits(front, key));
        }
        assert forall|key: (u64, Seq<char>)| end.dom().contains(key) implies #[trigger] end[key]
            == stored_days(pairs, key).union(submitted(records, key)) by {
            let held = stored_days(pairs, key);
            assert(mid.dom().contains(key) <==> pairs.dom().contains(key) || submits(front, key));
            if mid.dom().contains(key) {
                assert(mid[key] == held.union(submitted(front, key)));
            }
            assert forall|d: int| #[trigger]
                submitted(records, key).contains(d) <==> submitted(front, key).contains(d) || (key == (
                    last.id,
                    last.name,
                ) && last.days().contains(d)) by {
                if submitted(front, key).contains(d) {
                    let k = choose|k: int|
                        0 <= k < front.len() && (#[trigger] front[k]).id == key.0 && front[k].name == key.1
                            && front[k].days().contains(d);
                    assert(records[k] == front[k]);
                }
                if submitted(records, key).contains(d) {
                    let k = choose|k: int|
                        0 <= k < records.len() && (#[trigger] records[k]).id == key.0 && records[k].name
                            == key.1 && records[k].days().contains(d);
                    if k < front.len() {
                        assert(records[k] == front[k]);
                        assert(submitted(front, key).contains(d));
                    }
                }
                if key == (last.id, last.name) && last.days().contains(d) {
                    assert(records[records.len() - 1].days().contains(d));
                }
            }
            if !mid.dom().contains(key) {
                assert(submitted(front, key) =~= Set::<int>::empty()) by {
                    assert forall|d: int| !submitted(front, key).contains(d) by {
                        if submitted(front, key).contains(d) {
                            let k = choose|k: int|
                                0 <= k < front.len() && (#[trigger] front[k]).id == key.0 && front[k].name
                                    == key.1 && front[k].days().contains(d);
                            assert(submits(front, key));
                        }
                    }
                }
            }
            if key == (last.id, last.name) {
                assert(end[key] == stored_days(mid, key).union(last.days()));
                if mid.dom().contains(key) {
                    assert(end[key] =~= held.union(submitted(records, key)));
                } else {
                    assert(!pairs.dom().contains(key));
                    assert(end[key] =~= held.union(submitted(records, key)));
                }
            } else {
                assert(end[key] == mid[key]);
                assert(submitted(records, key) =~= submitted(front, key));
            }
        }
    }
}

/// The pairs that the records are about.
pub open spec fn record_keys(records: Seq<Pair>) -> Set<(u64, Seq<char>)> {
    Set::new(|key: (u64, Seq<char>)| submits(records, key))
}

/// The accounts that the records are about.
pub open spec fn record_accounts(records: Seq<Pair>) -> Set<u64> {
    Set::new(|id: u64| exists|k: int| 0 <= k < records.len() && (#[trigger] records[k]).id == id)
}

/// The names that the records are about.
pub open spec fn record_names(records: Seq<Pair>) -> Set<Seq<char>> {
    Set::new(|name: Seq<char>| exists|k: int| 0 <= k < records.len() && (#[trigger] records[k]).name == name)
}

/// A store that was empty holds, after an update, exactly the pairs, the
/// accounts and the names that the records are about; these are the sets
/// that `get_counts` counts.
pub proof fn lemma_import_counts(records: Seq<Pair>, mode: UpdateMode)
    ensures
        applied(Map::empty(), records, mode).dom() == record_keys(records),
        accounts(applied(Map::empty(), records, mode)) == record_accounts(records),
        names(applied(Map::empty(), records, mode)) == record_names(records),
{
    let none = Map::<(u64, Seq<char>), Set<int>>::empty();
    let end = applied(none, records, mode);
    lemma_applied_contents(none, records, mode);
    assert forall|key: (u64, Seq<char>)| end.dom().contains(key) <==> record_keys(records).contains(key) by {
        assert(end.dom().contains(key) <==> none.dom().contains(key) || submits(records, key));
    }
    assert(end.dom() =~= record_keys(records));
    assert forall|id: u64| accounts(end).contains(id) <==> record_accounts(records).contains(id) by {
        if accounts(end).contains(id) {
            let name = choose|name: Seq<char>| end.dom().contains((id, name));
            assert(submits(records, (id, name)));
            let k = choose|k: int|
                0 <= k < records.len() && (#[trigger] records[k]).id == id && records[k].name == name;
            assert(records[k].id == id);
        }
        if record_accounts(records).contains(id) {
            let k = choose|k: int| 0 <= k < records.len() && (#[trigger] records[k]).id == id;
            assert(submits(records, (id, records[k].name)));
            assert(end.dom().contains((id, records[k].name)));
        }
    }
    assert(accounts(end) =~= record_accounts(records));
    assert forall|name: Seq<char>| names(end).contains(name) <==> record_names(records).contains(name) by {
        if names(end).contains(name) {
            let id = choose|id: u64| end.dom().contains((id, name));
            assert(submits(records, (id, name)));
            let k = choose|k: int|
                0 <= k < records.len() && (#[trigger] records[k]).id == id && records[k].name == name;
            assert(records[k].name == name);
        }
        if record_names(records).contains(name) {
            let k = choose|k: int| 0 <= k < records.len() && (#[trigger] records[k]).name == name;
            assert(submits(records, (records[k].id, name)));
            assert(end.dom().contains((records[k].id, name)));
        }
    }
    assert(names(end) =~= record_names(records));
}

/// Submitting the same records a second time changes nothing.
pub proof fn lemma_update_idempotent(pairs: Pairs, records: Seq<Pair>, mode: UpdateMode)
    ensures
        applied(applied(pairs, records, mode), records, mode) == applied(pairs, records, mode),
{
    let once = applied(pairs, records, mode);
    let twice = applied(once, records, mode);
    lemma_applied_contents(pairs, records, mode);
    lemma_applied_contents(once, records, mode);
    assert forall|key: (u64, Seq<char>)| twice.dom().contains(key) <==> once.dom().contains(key) by {
        assert(twice.dom().contains(key) <==> once.dom().contains(key) || submits(records, key));
        assert(once.dom().contains(key) <==> pairs.dom().contains(key) || submits(records, key));
    }
    assert forall|key: (u64, Seq<char>)| twice.dom().contains(key) implies twice[key] == once[key] by {
        assert(once.dom().contains(key));
        assert(twice[key] == stored_days(once, key).union(submitted(records, key)));
        assert(once[key] == stored_days(pairs, key).union(submitted(records, key)));
        assert(twice[key] =~= once[key]);
    }
    assert(twice =~= once);
}

/// The records of one input, normalized, in the order of the input.
#[derive(Debug)]
pub struct Session {
    records: Vec<PairRecord>,
}

impl View for Session {
    type V = Seq<Pair>;

    closed spec fn view(&self) -> Seq<Pair> {
        Seq::new(self.records@.len(), |k: int| self.records@[k]@)
    }
}

impl Session {
    /// How many records the session holds.
    pub fn len(&self) -> (n: usize)
        ensures
            n == self@.len(),
    {
        self.records.len()
    }

    /// The record at position `i`.
    pub fn get(&self, i: usize) -> (record: &PairRecord)
        requires
            i < self@.len(),
        ensures
            record@ == self@[i as int],
    {
        &self.records[i]
    }

    /// Reads a whole input in the given format. Each line is one record. The
    /// first line that is ill formed, or whose record is not accepted, ends
    /// the reading with its error, and no session is made.
    pub fn load(text: &str, format: Format) -> (result: Result<Session, Error>)
        ensures
            match result {
                Ok(session) => {
                    &&& session@.len() == lines(text@).len()
                    &&& forall|k: int|
                        0 <= k < session@.len() ==> records_line(
                            #[trigger] session@[k],
                            lines(text@)[k],
                            format,
                        )
                },
                Err(error) => exists|k: int|
                    first_bad(lines(text@), format, k) && error_for(error, #[trigger] lines(text@)[k], format),
            },
    {
        let all = split_lines(text);
        let ghost ls = lines(text@);
        let mut records: Vec<PairRecord> = Vec::new();
        let mut k: usize = 0;
        while k < all.len()
            invariant
                k <= all.len(),
                ls == lines(text@),
                all.len() == ls.len(),
                forall|m: int| 0 <= m < all.len() ==> (#[trigger] all[m])@ == ls[m],
                records.len() == k,
                forall|m: int| 0 <= m < k ==> records_line((#[trigger] records@[m])@, ls[m], format),
            decreases all.len() - k,
        {
            match parse_line(all[k].as_str(), format) {
                Ok(record) => {
                    records.push(record);
                },
                Err(error) => {
                    proof {
                        assert(all[k as int]@ == ls[k as int]);
                        assert forall|m: int| 0 <= m < k implies line_record(#[trigger] ls[m], format) is Some by {
                            assert(records_line(records@[m]@, ls[m], format));
                        }
                        assert(first_bad(ls, format, k as int));
                        assert(error_for(error, ls[k as int], format));
                    }
                    return Err(error);
                },
            }
            k = k + 1;
        }
        let session = Session { records };
        proof {
            assert forall|m: int| 0 <= m < session@.len() implies records_line(
                #[trigger] session@[m],
                ls[m],
                format,
            ) by {
                assert(records_line(session.records@[m]@, ls[m], format));
            }
        }
        Ok(session)
    }

    /// Reads a structured batch: one JSON record per line.
    pub fn load_json(text: &str) -> (result: Result<Session, Error>)
        ensures
            match result {
                Ok(session) => {
                    &&& session@.len() == lines(text@).len()
                    &&& forall|k: int|
                        0 <= k < session@.len() ==> records_line(
                            #[trigger] session@[k],
                            lines(text@)[k],
                            Format::Json,
                        )
                },
                Err(error) => exists|k: int|
                    first_bad(lines(text@), Format::Json, k) && error_for(
                        error,
                        #[trigger] lines(text@)[k],
                        Format::Json,
                    ),
            },
    {
        Session::load(text, Format::Json)
    }

    /// Reads a batch of mentions: one mention per line.
    pub fn load_mentions(text: &str) -> (result: Result<Session, Error>)
        ensures
            match result {
                Ok(session) => {
                    &&& session@.len() == lines(text@).len()
                    &&& forall|k: int|
                        0 <= k < session@.len() ==> records_line(
                            #[trigger] session@[k],
                            lines(text@)[k],
                            Format::Mentions,
                        )
                },
                Err(error) => exists|k: int|
                    first_bad(lines(text@), Format::Mentions, k) && error_for(
                        error,
                        #[trigger] lines(text@)[k],
                        Format::Mentions,
                    ),
            },
    {
        Session::load(text, Format::Mentions)
    }

    /// Submits the records to the store, one by one and in order, and returns
    /// how many were submitted.
    pub fn update(&self, store: &mut Lookup, mode: UpdateMode) -> (count: usize)
        requires
            old(store).wf(),
        ensures
            final(store).wf(),
            count == self@.len(),
            final(store)@ == applied(old(store)@, self@, mode),
    {
        let mut k: usize = 0;
        proof {
            assert(self@.take(0) =~= Seq::<Pair>::empty());
        }
        while k < self.records.len()
            invariant
                k <= self.records.len(),
                store.wf(),
                store@ == applied(old(store)@, self@.take(k as int), mode),
            decreases self.records.len() - k,
        {
            let record = &self.records[k];
            store.insert_pair(record.id(), record.name(), record.dates(), mode);
            proof {
                assert(self@.take(k + 1).drop_last() =~= self@.take(k as int));
                assert(self@.take(k + 1).last() == record@);
            }
            k = k + 1;
        }
        proof {
            assert(self@.take(k as int) =~= self@);
        }
        k
    }
}

} // verus!
