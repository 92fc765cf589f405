//! The store of pairs, held in memory: which names an account was seen
//! under, and on which days.

use vstd::prelude::*;
use crate::dateset::{ascending, DateSet};
use crate::text::{comes_before, lemma_precedes_total, lemma_precedes_transitive, precedes};

verus! {

/// How submitted dates combine with the dates already stored for a pair.
#[derive(Clone, Copy, Debug, PartialEq, Eq, Structural)]
pub enum UpdateMode {
    /// The submitted dates are added to the stored ones; nothing is removed.
    Range,
}

/// What a store holds: for each pair of account and name, the days observed.
pub type Pairs = Map<(u64, Seq<char>), Set<int>>;

/// The days stored for `key`; none if the pair is not stored.
pub open spec fn stored_days(pairs: Pairs, key: (u64, Seq<char>)) -> Set<int> {
    if pairs.dom().contains(key) {
        pairs[key]
    } else {
        Set::empty()
    }
}

/// The store after `days` were submitted for the account `id` and `name`.
pub open spec fn merged(pairs: Pairs, id: u64, name: Seq<char>, days: Set<int>, mode: UpdateMode) -> Pairs {
    match mode {
        UpdateMode::Range => pairs.insert((id, name), stored_days(pairs, (id, name)).union(days)),
    }
}

/// The accounts that occur in `pairs`.
pub open spec fn accounts(pairs: Pairs) -> Set<u64> {
    Set::new(|id: u64| exists|name: Seq<char>| pairs.dom().contains((id, name)))
}

/// The names that occur in `pairs`.
pub open spec fn names(pairs: Pairs) -> Set<Seq<char>> {
    Set::new(|name: Seq<char>| exists|id: u64| pairs.dom().contains((id, name)))
}

/// One name of an account, with the dates on which it was observed.
#[derive(Debug)]
pub struct NameDates {
    pub name: String,
    pub dates: DateSet,
}

/// Whether the names of `found` come in the order of text, none twice.
pub open spec fn names_ascend(found: Seq<NameDates>) -> bool {
    forall|i: int, j: int| 0 <= i < j < found.len() ==> precedes(found[i].name@, found[j].name@)
}

/// One stored pair.
#[derive(Debug)]
struct Entry {
    id: u64,
    name: String,
    dates: DateSet,
}

spec fn key_of(entry: Entry) -> (u64, Seq<char>) {
    (entry.id, entry.name@)
}

spec fn distinct(entries: Seq<Entry>) -> bool {
    forall|i: int, j: int| 0 <= i < j < entries.len() ==> key_of(entries[i]) != key_of(entries[j])
}

spec fn pairs_of(entries: Seq<Entry>) -> Pairs
    decreases entries.len(),
{
    if entries.len() == 0 {
        Map::empty()
    } else {
        pairs_of(entries.drop_last()).insert(key_of(entries.last()), entries.last().dates.days())
    }
}

spec fn shows(entry: Entry, id: u64, item: NameDates) -> bool {
    entry.id == id && entry.name@ == item.name@ && entry.dates@ == item.dates@
}

spec fn shown(entries: Seq<Entry>, k: int, id: u64, item: NameDates) -> bool {
    exists|m: int| 0 <= m < k && shows(#[trigger] entries[m], id, item)
}

spec fn listed(found: Seq<NameDates>, name: Seq<char>) -> bool {
    exists|j: int| 0 <= j < found.len() && (#[trigger] found[j]).name@ == name
}

spec fn ids_before(entries: Seq<Entry>, k: int) -> Set<u64> {
    Set::new(|id: u64| exists|m: int| 0 <= m < k && (#[trigger] entries[m]).id == id)
}

spec fn names_before(entries: Seq<Entry>, k: int) -> Set<Seq<char>> {
    Set::new(|name: Seq<char>| exists|m: int| 0 <= m < k && (#[trigger] entries[m]).name@ == name)
}

proof fn lemma_pairs_of(entries: Seq<Entry>)
    requires
        distinct(entries),
    ensures
        forall|k: int|
            0 <= k < entries.len() ==> pairs_of(entries).dom().contains(key_of(#[trigger] entries[k]))
                && pairs_of(entries)[key_of(entries[k])] == entries[k].dates.days(),
        forall|key: (u64, Seq<char>)|
            pairs_of(entries).dom().contains(key) ==> exists|k: int|
                0 <= k < entries.len() && key_of(#[trigger] entries[k]) == key,
        pairs_of(entries).dom().finite(),
        pairs_of(entries).dom().len() == entries.len(),
    decreases entries.len(),
{
    if entries.len() > 0 {
        let front = entries.drop_last();
        let last = entries.last();
        assert(distinct(front)) by {
            assert forall|i: int, j: int| 0 <= i < j < front.len() implies key_of(front[i]) != key_of(
                front[j],
            ) by {
                assert(front[i] == entries[i] && front[j] == entries[j]);
            }
        }
        lemma_pairs_of(front);
        assert(!pairs_of(front).dom().contains(key_of(last))) by {
            if pairs_of(front).dom().contains(key_of(last)) {
                let k = choose|k: int| 0 <= k < front.len() && key_of(#[trigger] front[k]) == key_of(last);
                assert(front[k] == entries[k]);
                assert(key_of(entries[k]) != key_of(entries[entries.len() - 1]));
            }
        }
        assert forall|k: int| 0 <= k < entries.len() implies pairs_of(entries).dom().contains(
            key_of(#[trigger] entries[k]),
        ) && pairs_of(entries)[key_of(entries[k])] == entries[k].dates.days() by {
            if k < front.len() {
                assert(front[k] == entries[k]);
            }
        }
        assert forall|key: (u64, Seq<char>)| pairs_of(entries).dom().contains(key) implies exists|k: int|
            0 <= k < entries.len() && key_of(#[trigger] entries[k]) == key by {
            if key == key_of(last) {
                assert(key_of(entries[entries.len() - 1]) == key);
            } else {
                let k = choose|k: int| 0 <= k < front.len() && key_of(#[trigger] front[k]) == key;
                assert(front[k] == entries[k]);
            }
        }
    }
}

/// The store.
#[derive(Debug)]
pub struct Lookup {
    entries: Vec<Entry>,
}

impl View for Lookup {
    type V = Pairs;

    closed spec fn view(&self) -> Pairs {
        pairs_of(self.entries@)
    }
}

impl Lookup {
    /// Whether the store is consistent: it holds each pair once.
    pub closed spec fn wf(&self) -> bool {
        distinct(self.entries@)
    }

    /// The empty store.
    pub fn new() -> (store: Lookup)
        ensures
            store.wf(),
            store@ == Map::<(u64, Seq<char>), Set<int>>::empty(),
    {
        Lookup { entries: Vec::new() }
    }

    /// Where the pair of `id` and `name` is stored, if it is.
    fn find(&self, id: u64, name: &String) -> (place: Option<usize>)
        ensures
            match place {
                Some(k) => k < self.entries.len() && key_of(self.entries@[k as int]) == (id, name@),
                None => forall|k: int|
                    0 <= k < self.entries.len() ==> key_of(#[trigger] self.entries@[k]) != (id, name@),
            },
    {
        let mut k: usize = 0;
        while k < self.entries.len()
            invariant
                k <= self.entries.len(),
                forall|m: int| 0 <= m < k ==> key_of(#[trigger] self.entries@[m]) != (id, name@),
            decreases self.entries.len() - k,
        {
            if self.entries[k].id == id && self.entries[k].name == *name {
                return Some(k);
            }
            k = k + 1;
        }
        None
    }

    /// Merges `dates` into what is stored for the account `id` under `name`.
    /// The pair is stored afterwards even if `dates` is empty.
    pub fn insert_pair(&mut self, id: u64, name: &str, dates: &DateSet, mode: UpdateMode)
        requires
            old(self).wf(),
        ensures
            final(self).wf(),
            final(self)@ == merged(old(self)@, id, name@, dates.days(), mode),
    {
        let owned = name.to_owned();
        let ghost before = self.entries@;
        proof {
            lemma_pairs_of(before);
        }
        match self.find(id, &owned) {
            Some(k) => {
                let joined = match mode {
                    UpdateMode::Range => self.entries[k].dates.union(dates),
                };
                self.entries.set(k, Entry { id, name: owned, dates: joined });
                proof {
                    let after = self.entries@;
                    assert(distinct(after)) by {
                        assert forall|i: int, j: int| 0 <= i < j < after.len() implies key_of(after[i])
                            != key_of(after[j]) by {
                            assert(key_of(after[i]) == key_of(before[i]));
                            assert(key_of(after[j]) == key_of(before[j]));
                        }
                    }
                    lemma_pairs_of(after);
                    let goal = merged(pairs_of(before), id, name@, dates.days(), mode);
                    assert forall|key: (u64, Seq<char>)| pairs_of(after).dom().contains(key)
                        <==> goal.dom().contains(key) by {
                        if pairs_of(after).dom().contains(key) {
                            let m = choose|m: int| 0 <= m < after.len() && key_of(#[trigger] after[m]) == key;
                            assert(key_of(before[m]) == key);
                        }
                        if goal.dom().contains(key) && key != (id, name@) {
                            let m = choose|m: int| 0 <= m < before.len() && key_of(#[trigger] before[m]) == key;
                            assert(key_of(after[m]) == key);
                        }
                        if key == (id, name@) {
                            assert(key_of(after[k as int]) == key);
                        }
                    }
                    assert forall|key: (u64, Seq<char>)| pairs_of(after).dom().contains(key) implies pairs_of(
                        after,
                    )[key] == goal[key] by {
                        let m = choose|m: int| 0 <= m < after.len() && key_of(#[trigger] after[m]) == key;
                        if m == k {
                            assert(key_of(before[k as int]) == key);
                        } else {
                            assert(after[m] == before[m]);
                            assert(key_of(before[m]) != key_of(before[k as int])) by {
                                if m < k {
                                } else {
                                }
                            }
                        }
                    }
                    assert(pairs_of(after) =~= goal);
                }
            },
            None => {
                let fresh = match mode {
                    UpdateMode::Range => dates.duplicate(),
                };
                self.entries.push(Entry { id, name: owned, dates: fresh });
                proof {
                    let after = self.entries@;
                    assert(after.drop_last() =~= before);
                    assert(distinct(after)) by {
                        assert forall|i: int, j: int| 0 <= i < j < after.len() implies key_of(after[i])
                            != key_of(after[j]) by {
                            assert(after[i] == before[i]);
                            if j < before.len() {
                                assert(after[j] == before[j]);
                            }
                        }
                    }
                    assert(!pairs_of(before).dom().contains((id, name@))) by {
                        if pairs_of(before).dom().contains((id, name@)) {
                            let m = choose|m: int|
                                0 <= m < before.len() && key_of(#[trigger] before[m]) == (id, name@);
                        }
                    }
                    assert(Set::<int>::empty().union(dates.days()) =~= dates.days());
                    assert(pairs_of(after) =~= merged(pairs_of(before), id, name@, dates.days(), mode));
                }
            },
        }
    }

    /// Every name under which the account `id` was observed, in the order of
    /// text, each with all the dates stored for it.
    pub fn lookup_by_user_id(&self, id: u64) -> (found: Vec<NameDates>)
        requires
            self.wf(),
        ensures
            names_ascend(found@),
            forall|j: int|
                0 <= j < found.len() ==> {
                    &&& self@.dom().contains((id, (#[trigger] found[j]).name@))
                    &&& found[j].dates.days() == self@[(id, found[j].name@)]
                    &&& ascending(found[j].dates@)
                },
            forall|name: Seq<char>|
                self@.dom().contains((id, name)) ==> exists|j: int|
                    0 <= j < found.len() && (#[trigger] found[j]).name@ == name,
    {
        let mut found: Vec<NameDates> = Vec::new();
        let mut k: usize = 0;
        while k < self.entries.len()
            invariant
                k <= self.entries.len(),
                distinct(self.entries@),
                names_ascend(found@),
                forall|j: int|
                    0 <= j < found.len() ==> shown(self.entries@, k as int, id, #[trigger] found[j])
                        && ascending(found[j].dates@),
                forall|m: int|
                    0 <= m < k && (#[trigger] self.entries@[m]).id == id ==> listed(
                        found@,
                        self.entries@[m].name@,
                    ),
            decreases self.entries.len() - k,
        {
            let ghost entries = self.entries@;
            let ghost before = found@;
            if self.entries[k].id == id {
                let mut p: usize = 0;
                while p < found.len() && comes_before(
                    found[p].name.as_str(),
                    self.entries[k].name.as_str(),
                )
                    invariant
                        p <= found.len(),
                        k < self.entries.len(),
                        forall|j: int|
                            0 <= j < p ==> precedes((#[trigger] found[j]).name@, self.entries@[k as int].name@),
                    decreases found.len() - p,
                {
                    p = p + 1;
                }
                let item = NameDates {
                    name: self.entries[k].name.clone(),
                    dates: self.entries[k].dates.duplicate(),
                };
                found.insert(p, item);
                proof {
                    let fresh = entries[k as int].name@;
                    let after = found@;
                    assert(after[p as int].name@ == fresh);
                    assert(shows(entries[k as int], id, after[p as int]));
                    assert forall|j: int| p < j < after.len() implies precedes(
                        fresh,
                        (#[trigger] after[j]).name@,
                    ) by {
                        assert(after[j] == before[j - 1]);
                        let first = before[p as int];
                        assert(shown(entries, k as int, id, first));
                        let m = choose|m: int| 0 <= m < k && shows(#[trigger] entries[m], id, first);
                        assert(key_of(entries[m]) != key_of(entries[k as int]));
                        lemma_precedes_total(first.name@, fresh);
                        if j - 1 > p {
                            lemma_precedes_transitive(fresh, first.name@, before[j - 1].name@);
                        }
                    }
                    assert forall|i: int, j: int| 0 <= i < j < after.len() implies precedes(
                        after[i].name@,
                        after[j].name@,
                    ) by {
                        if j < p {
                            assert(after[i] == before[i] && after[j] == before[j]);
                        } else if j == p {
                            assert(after[i] == before[i]);
                        } else if i < p {
                            assert(after[i] == before[i] && after[j] == before[j - 1]);
                        } else if i == p {
                        } else {
                            assert(after[i] == before[i - 1] && after[j] == before[j - 1]);
                        }
                    }
                    assert forall|j: int| 0 <= j < after.len() implies shown(
                        entries,
                        k + 1,
                        id,
                        #[trigger] after[j],
                    ) && ascending(after[j].dates@) by {
                        if j == p {
                        } else {
                            let was = if j < p { before[j] } else { before[j - 1] };
                            assert(after[j] == was);
                            assert(shown(entries, k as int, id, was));
                            let m = choose|m: int| 0 <= m < k && shows(#[trigger] entries[m], id, was);
                            assert(0 <= m < k + 1 && shows(entries[m], id, after[j]));
                        }
                    }
                    assert forall|m: int| 0 <= m < k + 1 && (#[trigger] entries[m]).id == id implies listed(
                        after,
                        entries[m].name@,
                    ) by {
                        if m == k {
                            assert(after[p as int].name@ == entries[m].name@);
                        } else {
                            assert(listed(before, entries[m].name@));
                            let j = choose|j: int|
                                0 <= j < before.len() && (#[trigger] before[j]).name@ == entries[m].name@;
                            if j < p {
                                assert(after[j] == before[j]);
                            } else {
                                assert(after[j + 1] == before[j]);
                            }
                        }
                    }
                }
            } else {
                proof {
                    assert forall|j: int| 0 <= j < found.len() implies shown(
                        entries,
                        k + 1,
                        id,
                        #[trigger] found[j],
                    ) by {
                        assert(shown(entries, k as int, id, found[j]));
                        let m = choose|m: int| 0 <= m < k && shows(#[trigger] entries[m], id, found[j]);
                        assert(0 <= m < k + 1 && shows(entries[m], id, found[j]));
                    }
                }
            }
            k = k + 1;
        }
        proof {
            let entries = self.entries@;
            lemma_pairs_of(entries);
            assert forall|j: int| 0 <= j < found.len() implies {
                &&& self@.dom().contains((id, (#[trigger] found[j]).name@))
                &&& found[j].dates.days() == self@[(id, found[j].name@)]
                &&& ascending(found[j].dates@)
            } by {
                assert(shown(entries, k as int, id, found[j]));
                let m = choose|m: int| 0 <= m < k && shows(#[trigger] entries[m], id, found[j]);
                assert(key_of(entries[m]) == (id, found[j].name@));
            }
            assert forall|name: Seq<char>| self@.dom().contains((id, name)) implies exists|j: int|
                0 <= j < found.len() && (#[trigger] found[j]).name@ == name by {
                let m = choose|m: int| 0 <= m < entries.len() && key_of(#[trigger] entries[m]) == (id, name);
                assert(entries[m].id == id);
                assert(listed(found@, entries[m].name@));
            }
        }
        found
    }

    /// How many pairs, how many accounts and how many names the store holds,
    /// in that order.
    pub fn get_counts(&self) -> (counts: (usize, usize, usize))
        requires
            self.wf(),
        ensures
            self@.dom().finite(),
            accounts(self@).finite(),
            names(self@).finite(),
            counts.0 == self@.dom().len(),
            counts.1 == accounts(self@).len(),
            counts.2 == names(self@).len(),
    {
        let ghost entries = self.entries@;
        let mut account_count: usize = 0;
        let mut name_count: usize = 0;
        let mut k: usize = 0;
        proof {
            assert(ids_before(entries, 0) =~= Set::<u64>::empty());
            assert(names_before(entries, 0) =~= Set::<Seq<char>>::empty());
        }
        while k < self.entries.len()
            invariant
                k <= self.entries.len(),
                entries == self.entries@,
                ids_before(entries, k as int).finite(),
                names_before(entries, k as int).finite(),
                account_count == ids_before(entries, k as int).len(),
                name_count == names_before(entries, k as int).len(),
                account_count <= k,
                name_count <= k,
            decreases self.entries.len() - k,
        {
            let mut id_seen = false;
            let mut name_seen = false;
            let mut m: usize = 0;
            while m < k
                invariant
                    m <= k < self.entries.len(),
                    entries == self.entries@,
                    id_seen <==> exists|i: int| 0 <= i < m && (#[trigger] entries[i]).id == entries[k as int].id,
                    name_seen <==> exists|i: int|
                        0 <= i < m && (#[trigger] entries[i]).name@ == entries[k as int].name@,
                decreases k - m,
            {
                if self.entries[m].id == self.entries[k].id {
                    id_seen = true;
                }
                if self.entries[m].name == self.entries[k].name {
                    name_seen = true;
                }
                m = m + 1;
            }
            proof {
                let id = entries[k as int].id;
                let name = entries[k as int].name@;
                assert(ids_before(entries, k + 1) =~= ids_before(entries, k as int).insert(id)) by {
                    assert forall|x: u64| ids_before(entries, k + 1).contains(x) <==> ids_before(
                        entries,
                        k as int,
                    ).insert(id).contains(x) by {
                        if ids_before(entries, k + 1).contains(x) {
                            let i = choose|i: int| 0 <= i < k + 1 && (#[trigger] entries[i]).id == x;
                            if i < k {
                                assert(ids_before(entries, k as int).contains(x));
                            }
                        }
                        if ids_before(entries, k as int).contains(x) {
                            let i = choose|i: int| 0 <= i < k && (#[trigger] entries[i]).id == x;
                            assert(0 <= i < k + 1 && entries[i].id == x);
                        }
                        if x == id {
                            assert(entries[k as int].id == x);
                        }
                    }
                }
                assert(names_before(entries, k + 1) =~= names_before(entries, k as int).insert(name)) by {
                    assert forall|x: Seq<char>| names_before(entries, k + 1).contains(x) <==> names_before(
                        entries,
                        k as int,
                    ).insert(name).contains(x) by {
                        if names_before(entries, k + 1).contains(x) {
                            let i = choose|i: int| 0 <= i < k + 1 && (#[trigger] entries[i]).name@ == x;
                            if i < k {
                                assert(names_before(entries, k as int).contains(x));
                            }
                        }
                        if names_before(entries, k as int).contains(x) {
                            let i = choose|i: int| 0 <= i < k && (#[trigger] entries[i]).name@ == x;
                            assert(0 <= i < k + 1 && entries[i].name@ == x);
                        }
                        if x == name {
                            assert(entries[k as int].name@ == x);
                        }
                    }
                }
                assert(id_seen <==> ids_before(entries, k as int).contains(id));
                assert(name_seen <==> names_before(entries, k as int).contains(name));
            }
            if !id_seen {
                account_count = account_count + 1;
            }
            if !name_seen {
                name_count = name_count + 1;
            }
            k = k + 1;
        }
        proof {
            lemma_pairs_of(entries);
            assert(ids_before(entries, k as int) =~= accounts(self@)) by {
                assert forall|x: u64| ids_before(entries, k as int).contains(x) <==> accounts(self@).contains(
                    x,
                ) by {
                    if ids_before(entries, k as int).contains(x) {
                        let i = choose|i: int| 0 <= i < k && (#[trigger] entries[i]).id == x;
                        assert(self@.dom().contains(key_of(entries[i])));
                        assert(self@.dom().contains((x, entries[i].name@)));
                    }
                    if accounts(self@).contains(x) {
                        let name = choose|name: Seq<char>| self@.dom().contains((x, name));
                        let i = choose|i: int| 0 <= i < entries.len() && key_of(#[trigger] entries[i]) == (x, name);
                        assert(entries[i].id == x);
                    }
                }
            }
            assert(names_before(entries, k as int) =~= names(self@)) by {
                assert forall|x: Seq<char>| names_before(entries, k as int).contains(x) <==> names(
                    self@,
                ).contains(x) by {
                    if names_before(entries, k as int).contains(x) {
                        let i = choose|i: int| 0 <= i < k && (#[trigger] entries[i]).name@ == x;
                        assert(self@.dom().contains(key_of(entries[i])));
                        assert(self@.dom().contains((entries[i].id, x)));
                    }
                    if names(self@).contains(x) {
                        let id = choose|id: u64| self@.dom().contains((id, x));
                        let i = choose|i: int| 0 <= i < entries.len() && key_of(#[trigger] entries[i]) == (id, x);
                        assert(entries[i].name@ == x);
                    }
                }
            }
        }
        (self.entries.len(), account_count, name_count)
    }
}

} // verus!
