//! Sets of observation dates, kept in ascending order without repeats.

use vstd::prelude::*;
use crate::date::{date_of_timestamp, ObservationDate};

verus! {

/// Whether each date of `s` is earlier than all that follow it.
pub open spec fn ascending(s: Seq<ObservationDate>) -> bool {
    forall|i: int, j: int| 0 <= i < j < s.len() ==> s[i]@ < s[j]@
}

/// Whether the day `d` is the date of one of the first `n` entries of `s`.
pub open spec fn among(s: Seq<ObservationDate>, n: int, d: int) -> bool {
    exists|k: int| 0 <= k < n && (#[trigger] s[k])@ == d
}

/// Whether the day `d` is the date of one of the entries `lo..hi` of `s`.
pub open spec fn within(s: Seq<ObservationDate>, lo: int, hi: int, d: int) -> bool {
    exists|k: int| lo <= k < hi && (#[trigger] s[k])@ == d
}

/// The days that occur in `s`.
pub open spec fn day_set(s: Seq<ObservationDate>) -> Set<int> {
    Set::new(|d: int| among(s, s.len() as int, d))
}

/// Whether every timestamp of `ts` falls on a date of the calendar.
pub open spec fn all_dated(ts: Seq<i64>) -> bool {
    forall|i: int| 0 <= i < ts.len() ==> date_of_timestamp(#[trigger] ts[i] as int) is Some
}

/// The days on which the timestamps of `ts` fall.
pub open spec fn timestamp_days(ts: Seq<i64>) -> Set<int> {
    Set::new(
        |d: int| exists|i: int| 0 <= i < ts.len() && date_of_timestamp(#[trigger] ts[i] as int) == Some(d),
    )
}

/// An ascending sequence is fixed by the days that occur in it.
pub proof fn lemma_ascending_unique(a: Seq<ObservationDate>, b: Seq<ObservationDate>)
    requires
        ascending(a),
        ascending(b),
        day_set(a) == day_set(b),
    ensures
        a.len() == b.len(),
        forall|i: int| 0 <= i < a.len() ==> a[i]@ == b[i]@,
    decreases a.len(),
{
    if a.len() == 0 {
        if b.len() > 0 {
            assert(among(b, b.len() as int, b[0]@));
            assert(day_set(b).contains(b[0]@));
            assert(day_set(a).contains(b[0]@));
        }
    } else {
        let la = a.last();
        assert(among(a, a.len() as int, a[a.len() - 1]@));
        assert(day_set(a).contains(la@));
        assert(day_set(b).contains(la@));
        assert(b.len() > 0);
        let lb = b.last();
        assert(among(b, b.len() as int, b[b.len() - 1]@));
        assert(day_set(b).contains(lb@));
        assert(day_set(a).contains(lb@));
        // The two last entries are the largest day of the shared set.
        let ka = choose|k: int| 0 <= k < a.len() && (#[trigger] a[k])@ == lb@;
        let kb = choose|k: int| 0 <= k < b.len() && (#[trigger] b[k])@ == la@;
        assert(la@ == lb@) by {
            if ka < a.len() - 1 {
                assert(a[ka]@ < a[a.len() - 1]@);
            }
            if kb < b.len() - 1 {
                assert(b[kb]@ < b[b.len() - 1]@);
            }
        }
        let a0 = a.drop_last();
        let b0 = b.drop_last();
        assert(day_set(a0) =~= day_set(b0)) by {
            assert forall|d: int| day_set(a0).contains(d) == day_set(b0).contains(d) by {
                if day_set(a0).contains(d) {
                    let k = choose|k: int| 0 <= k < a0.len() && (#[trigger] a0[k])@ == d;
                    assert(a[k]@ == d);
                    assert(a[k]@ < a[a.len() - 1]@);
                    assert(among(a, a.len() as int, d));
                    assert(day_set(b).contains(d));
                    let m = choose|m: int| 0 <= m < b.len() && (#[trigger] b[m])@ == d;
                    assert(m < b.len() - 1);
                    assert(b0[m]@ == d);
                }
                if day_set(b0).contains(d) {
                    let k = choose|k: int| 0 <= k < b0.len() && (#[trigger] b0[k])@ == d;
                    assert(b[k]@ == d);
                    assert(b[k]@ < b[b.len() - 1]@);
                    assert(among(b, b.len() as int, d));
                    assert(day_set(a).contains(d));
                    let m = choose|m: int| 0 <= m < a.len() && (#[trigger] a[m])@ == d;
                    assert(m < a.len() - 1);
                    assert(a0[m]@ == d);
                }
            }
        }
        lemma_ascending_unique(a0, b0);
        assert forall|i: int| 0 <= i < a.len() implies a[i]@ == b[i]@ by {
            if i < a.len() - 1 {
                assert(a0[i] == a[i]);
                assert(b0[i] == b[i]);
            }
        }
    }
}

/// A set of dates, held in ascending order.
#[derive(Debug)]
pub struct DateSet {
    dates: Vec<ObservationDate>,
}

impl View for DateSet {
    type V = Seq<ObservationDate>;

    /// The dates of the set, earliest first.
    closed spec fn view(&self) -> Seq<ObservationDate> {
        self.dates@
    }
}

impl DateSet {
    #[verifier::type_invariant]
    spec fn ordered(self) -> bool {
        ascending(self.dates@)
    }

    /// The days that the set holds.
    pub open spec fn days(&self) -> Set<int> {
        day_set(self@)
    }

    /// The set without dates.
    pub fn new() -> (set: DateSet)
        ensures
            set@ == Seq::<ObservationDate>::empty(),
    {
        DateSet { dates: Vec::new() }
    }

    /// The set that holds `date` alone.
    pub fn single(date: ObservationDate) -> (set: DateSet)
        ensures
            set@ == seq![date],
    {
        let mut dates: Vec<ObservationDate> = Vec::new();
        dates.push(date);
        assert(dates@ =~= seq![date]);
        DateSet { dates }
    }

    /// How many dates the set holds.
    pub fn len(&self) -> (n: usize)
        ensures
            n == self@.len(),
    {
        self.dates.len()
    }

    /// The date at position `i`, counting from the earliest.
    pub fn get(&self, i: usize) -> (date: ObservationDate)
        requires
            i < self@.len(),
        ensures
            date == self@[i as int],
    {
        self.dates[i]
    }

    /// The dates of the set, earliest first.
    pub fn to_vec(&self) -> (dates: Vec<ObservationDate>)
        ensures
            dates@ == self@,
            ascending(dates@),
    {
        proof {
            use_type_invariant(self);
        }
        let mut dates: Vec<ObservationDate> = Vec::new();
        let mut i: usize = 0;
        while i < self.dates.len()
            invariant
                i <= self.dates.len(),
                dates@ == self.dates@.take(i as int),
            decreases self.dates.len() - i,
        {
            dates.push(self.dates[i]);
            assert(self.dates@.take(i + 1) =~= self.dates@.take(i as int).push(self.dates@[i as int]));
            i = i + 1;
        }
        assert(self.dates@.take(i as int) =~= self.dates@);
        dates
    }

    /// A copy of the set.
    pub fn duplicate(&self) -> (set: DateSet)
        ensures
            set@ == self@,
            ascending(set@),
    {
        let dates = self.to_vec();
        DateSet { dates }
    }

    /// The dates `dates[lo..hi]` as a set: in order, each once.
    fn collect(dates: &Vec<ObservationDate>, lo: usize, hi: usize) -> (set: DateSet)
        requires
            lo <= hi <= dates.len(),
        ensures
            ascending(set@),
            forall|d: int| set.days().contains(d) <==> within(dates@, lo as int, hi as int, d),
        decreases hi - lo,
    {
        if hi - lo == 0 {
            DateSet::new()
        } else if hi - lo == 1 {
            let set = DateSet::single(dates[lo]);
            proof {
                assert forall|d: int| set.days().contains(d) <==> within(
                    dates@,
                    lo as int,
                    hi as int,
                    d,
                ) by {
                    if set.days().contains(d) {
                        assert(set@[0] == dates@[lo as int]);
                    }
                    if within(dates@, lo as int, hi as int, d) {
                        assert(set@[0]@ == d);
                    }
                }
            }
            set
        } else {
            let mid = lo + (hi - lo) / 2;
            let left = DateSet::collect(dates, lo, mid);
            let right = DateSet::collect(dates, mid, hi);
            let set = left.union(&right);
            proof {
                assert forall|d: int| set.days().contains(d) <==> within(
                    dates@,
                    lo as int,
                    hi as int,
                    d,
                ) by {
                    assert(set.days().contains(d) <==> left.days().contains(d) || right.days().contains(d));
                    if within(dates@, lo as int, hi as int, d) {
                        let k = choose|k: int| lo <= k < hi && (#[trigger] dates@[k])@ == d;
                        if k < mid {
                            assert(within(dates@, lo as int, mid as int, d));
                        } else {
                            assert(within(dates@, mid as int, hi as int, d));
                        }
                    }
                    if within(dates@, lo as int, mid as int, d) {
                        let k = choose|k: int| lo <= k < mid && (#[trigger] dates@[k])@ == d;
                        assert(lo <= k < hi && dates@[k]@ == d);
                    }
                    if within(dates@, mid as int, hi as int, d) {
                        let k = choose|k: int| mid <= k < hi && (#[trigger] dates@[k])@ == d;
                        assert(lo <= k < hi && dates@[k]@ == d);
                    }
                }
            }
            set
        }
    }

    /// The set of the dates in `dates`, which may come in any order and repeat.
    pub fn from_dates(dates: &Vec<ObservationDate>) -> (set: DateSet)
        ensures
            ascending(set@),
            set.days() == day_set(dates@),
    {
        let set = DateSet::collect(dates, 0, dates.len());
        proof {
            assert(set.days() =~= day_set(dates@));
        }
        set
    }

    /// The set of the UTC dates on which the timestamps fall, or nothing if
    /// one of them falls outside the calendar.
    pub fn from_timestamps(timestamps: &Vec<i64>) -> (set: Option<DateSet>)
        ensures
            set is Some <==> all_dated(timestamps@),
            set matches Some(s) ==> ascending(s@) && s.days() == timestamp_days(timestamps@),
    {
        let mut dates: Vec<ObservationDate> = Vec::new();
        let mut i: usize = 0;
        while i < timestamps.len()
            invariant
                i <= timestamps.len(),
                dates.len() == i,
                forall|k: int|
                    0 <= k < i ==> date_of_timestamp(timestamps@[k] as int) == Some(
                        (#[trigger] dates@[k])@,
                    ),
            decreases timestamps.len() - i,
        {
            match ObservationDate::from_timestamp(timestamps[i]) {
                Some(date) => {
                    dates.push(date);
                },
                None => {
                    assert(date_of_timestamp(timestamps@[i as int] as int) is None);
                    return None;
                },
            }
            i = i + 1;
        }
        let set = DateSet::from_dates(&dates);
        proof {
            assert forall|k: int| 0 <= k < timestamps@.len() implies date_of_timestamp(
                #[trigger] timestamps@[k] as int,
            ) is Some by {
                let date = dates@[k];
                assert(date_of_timestamp(timestamps@[k] as int) == Some(date@));
            }
            assert forall|d: int| set.days().contains(d) <==> timestamp_days(timestamps@).contains(
                d,
            ) by {
                if set.days().contains(d) {
                    let k = choose|k: int| 0 <= k < dates@.len() && (#[trigger] dates@[k])@ == d;
                    assert(date_of_timestamp(timestamps@[k] as int) == Some(d));
                }
                if timestamp_days(timestamps@).contains(d) {
                    let k = choose|k: int|
                        0 <= k < timestamps@.len() && date_of_timestamp(#[trigger] timestamps@[k] as int)
                            == Some(d);
                    assert(dates@[k]@ == d);
                }
            }
            assert(set.days() =~= timestamp_days(timestamps@));
        }
        Some(set)
    }

    /// The dates that are in `self`, in `other`, or in both.
    pub fn union(&self, other: &DateSet) -> (set: DateSet)
        ensures
            ascending(set@),
            set.days() == self.days().union(other.days()),
    {
        proof {
            use_type_invariant(self);
            use_type_invariant(other);
        }
        let a = &self.dates;
        let b = &other.dates;
        let mut out: Vec<ObservationDate> = Vec::new();
        let mut i: usize = 0;
        let mut j: usize = 0;
        while i < a.len() || j < b.len()
            invariant
                i <= a.len(),
                j <= b.len(),
                ascending(a@),
                ascending(b@),
                ascending(out@),
                forall|k: int| 0 <= k < out.len() && i < a.len() ==> (#[trigger] out[k])@ < a[i as int]@,
                forall|k: int| 0 <= k < out.len() && j < b.len() ==> (#[trigger] out[k])@ < b[j as int]@,
                forall|d: int|
                    among(out@, out.len() as int, d) <==> among(a@, i as int, d) || among(
                        b@,
                        j as int,
                        d,
                    ),
            decreases (a.len() - i) + (b.len() - j),
        {
            let ghost old_out = out@;
            let ghost old_i = i as int;
            let ghost old_j = j as int;
            let take_a = j == b.len() || (i < a.len() && a[i].epoch_days() <= b[j].epoch_days());
            let take_b = i == a.len() || (j < b.len() && b[j].epoch_days() <= a[i].epoch_days());
            let next = if take_a { a[i] } else { b[j] };
            out.push(next);
            if take_a {
                i = i + 1;
            }
            if take_b {
                j = j + 1;
            }
            proof {
                assert(out@.drop_last() =~= old_out);
                assert forall|x: int, y: int| 0 <= x < y < out.len() implies out[x]@ < out[y]@ by {
                    if y == out.len() - 1 {
                        assert(old_out[x] == out[x]);
                    } else {
                        assert(old_out[x] == out[x]);
                        assert(old_out[y] == out[y]);
                    }
                }
                assert forall|k: int| 0 <= k < out.len() && i < a.len() implies (#[trigger] out[k])@
                    < a[i as int]@ by {
                    if k < old_out.len() {
                        assert(old_out[k] == out[k]);
                        if take_a {
                            assert(a[old_i]@ < a[i as int]@);
                        }
                    } else {
                        if take_a {
                            assert(a[old_i]@ < a[i as int]@);
                        }
                    }
                }
                assert forall|k: int| 0 <= k < out.len() && j < b.len() implies (#[trigger] out[k])@
                    < b[j as int]@ by {
                    if k < old_out.len() {
                        assert(old_out[k] == out[k]);
                        if take_b {
                            assert(b[old_j]@ < b[j as int]@);
                        }
                    } else {
                        if take_b {
                            assert(b[old_j]@ < b[j as int]@);
                        }
                    }
                }
                assert forall|d: int|
                    among(out@, out.len() as int, d) <==> among(a@, i as int, d) || among(
                        b@,
                        j as int,
                        d,
                    ) by {
                    if among(out@, out.len() as int, d) {
                        let k = choose|k: int| 0 <= k < out.len() && (#[trigger] out@[k])@ == d;
                        if k < old_out.len() {
                            assert(old_out[k]@ == d);
                            assert(among(old_out, old_out.len() as int, d));
                            if among(a@, old_i, d) {
                                let m = choose|m: int| 0 <= m < old_i && (#[trigger] a@[m])@ == d;
                                assert(0 <= m < i && a@[m]@ == d);
                            } else {
                                let m = choose|m: int| 0 <= m < old_j && (#[trigger] b@[m])@ == d;
                                assert(0 <= m < j && b@[m]@ == d);
                            }
                        } else {
                            if take_a {
                                assert(0 <= old_i < i && a@[old_i]@ == d);
                            } else {
                                assert(0 <= old_j < j && b@[old_j]@ == d);
                            }
                        }
                    }
                    if among(a@, i as int, d) {
                        let m = choose|m: int| 0 <= m < i && (#[trigger] a@[m])@ == d;
                        if m < old_i {
                            assert(among(a@, old_i, d));
                            assert(among(old_out, old_out.len() as int, d));
                            let k = choose|k: int| 0 <= k < old_out.len() && (#[trigger] old_out[k])@ == d;
                            assert(out@[k]@ == d);
                        } else {
                            assert(out@[out.len() - 1]@ == d);
                        }
                    }
                    if among(b@, j as int, d) {
                        let m = choose|m: int| 0 <= m < j && (#[trigger] b@[m])@ == d;
                        if m < old_j {
                            assert(among(b@, old_j, d));
                            assert(among(old_out, old_out.len() as int, d));
                            let k = choose|k: int| 0 <= k < old_out.len() && (#[trigger] old_out[k])@ == d;
                            assert(out@[k]@ == d);
                        } else {
                            assert(out@[out.len() - 1]@ == d);
                        }
                    }
                }
            }
        }
        let set = DateSet { dates: out };
        proof {
            assert(set.days() =~= self.days().union(other.days()));
        }
        set
    }
}

} // verus!
