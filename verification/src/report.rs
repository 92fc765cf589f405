//! Lookup results and counts as lines of text.

use vstd::prelude::*;
use vstd::string::StringExecFns;
use crate::date::{iso_date_text, ObservationDate};
use crate::decimal::{number_text, u64_text};
use crate::lookup::NameDates;

verus! {

/// The dates written one after the other, separated by a comma and a blank.
pub open spec fn joined_dates(dates: Seq<ObservationDate>) -> Seq<char>
    decreases dates.len(),
{
    if dates.len() == 0 {
        Seq::<char>::empty()
    } else if dates.len() == 1 {
        iso_date_text(dates[0]@)
    } else {
        joined_dates(dates.drop_last()) + ", "@ + iso_date_text(dates.last()@)
    }
}

/// The line for one name: the name, a colon and a blank, and the dates.
pub open spec fn lookup_line(name: Seq<char>, dates: Seq<ObservationDate>) -> Seq<char> {
    name + ": "@ + joined_dates(dates)
}

/// The three lines for the counts of pairs, accounts and names: accounts
/// first, then names, then pairs.
pub open spec fn stats_lines(counts: (usize, usize, usize)) -> Seq<Seq<char>> {
    seq![
        "Accounts: "@ + number_text(counts.1 as nat),
        "Screen names: "@ + number_text(counts.2 as nat),
        "Pairs: "@ + number_text(counts.0 as nat),
    ]
}

/// Writes the line for one name and its dates.
pub fn render_name(item: &NameDates) -> (line: String)
    ensures
        line@ == lookup_line(item.name@, item.dates@),
{
    let mut dates = String::new();
    let mut k: usize = 0;
    while k < item.dates.len()
        invariant
            k <= item.dates@.len(),
            dates@ == joined_dates(item.dates@.take(k as int)),
        decreases item.dates@.len() - k,
    {
        if k > 0 {
            dates.append(", ");
        }
        let date = item.dates.get(k);
        dates.append(date.iso_text().as_str());
        proof {
            let now = item.dates@.take(k + 1);
            assert(now.drop_last() =~= item.dates@.take(k as int));
            assert(now.last() == item.dates@[k as int]);
            if k == 0 {
                assert(dates@ =~= iso_date_text(now[0]@));
            } else {
                assert(dates@ =~= joined_dates(now.drop_last()) + ", "@ + iso_date_text(now.last()@));
            }
        }
        k = k + 1;
    }
    proof {
        assert(item.dates@.take(k as int) =~= item.dates@);
    }
    let mut line = item.name.clone();
    line.append(": ");
    line.append(dates.as_str());
    assert(line@ =~= item.name@ + ": "@ + dates@);
    line
}

/// Writes one line for each name, in the order given.
pub fn render_lookup(found: &Vec<NameDates>) -> (lines: Vec<String>)
    ensures
        lines.len() == found.len(),
        forall|k: int|
            0 <= k < lines.len() ==> (#[trigger] lines[k])@ == lookup_line(found[k].name@, found[k].dates@),
{
    let mut lines: Vec<String> = Vec::new();
    let mut k: usize = 0;
    while k < found.len()
        invariant
            k <= found.len(),
            lines.len() == k,
            forall|m: int|
                0 <= m < k ==> (#[trigger] lines[m])@ == lookup_line(found[m].name@, found[m].dates@),
        decreases found.len() - k,
    {
        lines.push(render_name(&found[k]));
        k = k + 1;
    }
    lines
}

/// Writes the three lines for the counts that `get_counts` returns.
pub fn render_stats(counts: (usize, usize, usize)) -> (lines: Vec<String>)
    ensures
        lines.len() == 3,
        forall|k: int| 0 <= k < 3 ==> (#[trigger] lines[k])@ == stats_lines(counts)[k],
{
    let mut accounts = "Accounts: ".to_owned();
    accounts.append(u64_text(counts.1 as u64).as_str());
    let mut names = "Screen names: ".to_owned();
    names.append(u64_text(counts.2 as u64).as_str());
    let mut pairs = "Pairs: ".to_owned();
    pairs.append(u64_text(counts.0 as u64).as_str());
    let mut lines: Vec<String> = Vec::new();
    lines.push(accounts);
    lines.push(names);
    lines.push(pairs);
    lines
}

} // verus!
