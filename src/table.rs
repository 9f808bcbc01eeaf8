//! A table from station name to accumulator, kept as a vector of entries
//! with distinct names, in the order the names were first seen.
use vstd::prelude::*;
use crate::station::{StationView, WeatherStation, add_view, empty_view, merge_view};

verus! {

/// The map that a sequence of entries with distinct names stands for.
pub open spec fn map_of(es: Seq<(Seq<u8>, StationView)>) -> Map<Seq<u8>, StationView>
    decreases es.len(),
{
    if es.len() == 0 {
        Map::empty()
    } else {
        map_of(es.drop_last()).insert(es.last().0, es.last().1)
    }
}

pub open spec fn names_distinct(es: Seq<(Seq<u8>, StationView)>) -> bool {
    forall|i: int, j: int| 0 <= i < j < es.len() ==> es[i].0 != es[j].0
}

/// The accumulator of `name` in `m`, or an empty one.
pub open spec fn get_or_empty(m: Map<Seq<u8>, StationView>, name: Seq<u8>) -> StationView {
    if m.contains_key(name) {
        m[name]
    } else {
        empty_view()
    }
}

/// Two tables combined name by name: a name in both gets the merge of its
/// two accumulators, a name in one keeps its accumulator.
pub open spec fn merge_maps(a: Map<Seq<u8>, StationView>, b: Map<Seq<u8>, StationView>) -> Map<
    Seq<u8>,
    StationView,
> {
    Map::new(
        |k: Seq<u8>| a.contains_key(k) || b.contains_key(k),
        |k: Seq<u8>|
            if a.contains_key(k) && b.contains_key(k) {
                merge_view(a[k], b[k])
            } else if a.contains_key(k) {
                a[k]
            } else {
                b[k]
            },
    )
}

proof fn lemma_map_of(es: Seq<(Seq<u8>, StationView)>)
    requires
        names_distinct(es),
    ensures
        forall|k: Seq<u8>|
            #[trigger] map_of(es).contains_key(k) <==> exists|i: int|
                0 <= i < es.len() && es[i].0 == k,
        forall|i: int| 0 <= i < es.len() ==> #[trigger] map_of(es)[es[i].0] == es[i].1,
    decreases es.len(),
{
    if es.len() > 0 {
        let init = es.drop_last();
        lemma_map_of(init);
        assert forall|k: Seq<u8>| #[trigger] map_of(es).contains_key(k) <==> exists|i: int|
            0 <= i < es.len() && es[i].0 == k by {
            if map_of(es).contains_key(k) && k != es.last().0 {
                assert(map_of(init).contains_key(k));
                let i = choose|i: int| 0 <= i < init.len() && init[i].0 == k;
                assert(es[i].0 == k);
            }
            if exists|i: int| 0 <= i < es.len() && es[i].0 == k {
                let i = choose|i: int| 0 <= i < es.len() && es[i].0 == k;
                if i < es.len() - 1 {
                    assert(init[i].0 == k);
                    assert(map_of(init).contains_key(k));
                }
            }
        }
        assert forall|i: int| 0 <= i < es.len() implies #[trigger] map_of(es)[es[i].0]
            == es[i].1 by {
            if i < es.len() - 1 {
                assert(init[i] == es[i]);
                assert(es[i].0 != es.last().0);
                assert(map_of(init)[init[i].0] == init[i].1);
            }
        }
    }
}

proof fn lemma_map_of_update(es: Seq<(Seq<u8>, StationView)>, i: int, v: StationView)
    requires
        names_distinct(es),
        0 <= i < es.len(),
    ensures
        map_of(es.update(i, (es[i].0, v))) == map_of(es).insert(es[i].0, v),
    decreases es.len(),
{
    let us = es.update(i, (es[i].0, v));
    if i == es.len() - 1 {
        assert(us.drop_last() =~= es.drop_last());
        assert(map_of(us) =~= map_of(es).insert(es[i].0, v));
    } else {
        lemma_map_of_update(es.drop_last(), i, v);
        assert(us.drop_last() =~= es.drop_last().update(i, (es[i].0, v)));
        assert(es.last().0 != es[i].0);
        assert(map_of(us) =~= map_of(es).insert(es[i].0, v));
    }
}

/// The accumulators of each station seen so far.
pub struct StationTable<'a> {
    pub entries: Vec<(&'a [u8], WeatherStation)>,
}

impl<'a> StationTable<'a> {
    /// The entries as names and accumulator views.
    pub open spec fn entries_view(&self) -> Seq<(Seq<u8>, StationView)> {
        Seq::new(self.entries@.len(), |i: int| (self.entries@[i].0@, self.entries@[i].1@))
    }

    /// The table as a map from station name to accumulator.
    pub open spec fn table(&self) -> Map<Seq<u8>, StationView> {
        map_of(self.entries_view())
    }

    /// Names are distinct and every accumulator keeps its bounds.
    pub open spec fn wf(&self) -> bool {
        &&& names_distinct(self.entries_view())
        &&& forall|i: int| 0 <= i < self.entries@.len() ==> (#[trigger] self.entries@[i]).1.wf()
    }

    /// An empty table.
    pub fn new() -> (r: Self)
        ensures
            r.wf(),
            r.table() == Map::<Seq<u8>, StationView>::empty(),
    {
        StationTable { entries: Vec::new() }
    }

    /// Number of distinct stations.
    pub fn len(&self) -> (r: usize)
        requires
            self.wf(),
        ensures
            r == self.table().dom().len(),
    {
        proof {
            self.lemma_dom_len();
        }
        self.entries.len()
    }

    proof fn lemma_dom_len(&self)
        requires
            self.wf(),
        ensures
            self.table().dom().len() == self.entries@.len(),
    {
        let es = self.entries_view();
        lemma_map_of(es);
        let keys = Seq::new(es.len(), |i: int| es[i].0);
        assert(keys.no_duplicates());
        keys.unique_seq_to_set();
        assert(keys.to_set() =~= self.table().dom()) by {
            assert forall|k: Seq<u8>| keys.to_set().contains(k) implies self.table().contains_key(k) by {
                let i = choose|i: int| 0 <= i < keys.len() && keys[i] == k;
                assert(es[i].0 == k);
            }
            assert forall|k: Seq<u8>| self.table().contains_key(k) implies keys.to_set().contains(k) by {
                let i = choose|i: int| 0 <= i < es.len() && es[i].0 == k;
                assert(keys[i] == k);
            }
        }
    }

    /// Where `name` stands among the entries, if anywhere.
    fn find(&self, name: &[u8]) -> (r: Option<usize>)
        requires
            self.wf(),
        ensures
            match r {
                Some(i) => i < self.entries@.len() && self.entries@[i as int].0@ == name@,
                None => !self.table().contains_key(name@),
            },
    {
        proof {
            lemma_map_of(self.entries_view());
        }
        let mut i: usize = 0;
        while i < self.entries.len()
            invariant
                self.wf(),
                i <= self.entries@.len(),
                forall|j: int| 0 <= j < i ==> self.entries@[j].0@ != name@,
            decreases self.entries@.len() - i,
        {
            if bytes_equal(self.entries[i].0, name) {
                return Some(i);
            }
            i += 1;
        }
        proof {
            if self.table().contains_key(name@) {
                let j = choose|j: int| 0 <= j < self.entries_view().len() && self.entries_view()[j].0 == name@;
                assert(self.entries@[j].0@ == name@);
            }
        }
        None
    }

    /// The accumulator of `name`, if the table has seen it.
    pub fn get(&self, name: &[u8]) -> (r: Option<WeatherStation>)
        requires
            self.wf(),
        ensures
            match r {
                Some(s) => self.table().contains_key(name@) && s@ == self.table()[name@],
                None => !self.table().contains_key(name@),
            },
    {
        proof {
            lemma_map_of(self.entries_view());
        }
        match self.find(name) {
            Some(i) => {
                assert(self.entries_view()[i as int].0 == name@);
                Some(self.entries[i].1)
            },
            None => None,
        }
    }

    /// Folds a measurement of `name` in, making an entry on its first
    /// sighting.
    pub fn add_measurement(&mut self, name: &'a [u8], measurement: i16)
        requires
            old(self).wf(),
            get_or_empty(old(self).table(), name@).count < u32::MAX,
        ensures
            final(self).wf(),
            final(self).table() == old(self).table().insert(
                name@,
                add_view(get_or_empty(old(self).table(), name@), measurement as int),
            ),
    {
        proof {
            lemma_map_of(self.entries_view());
        }
        match self.find(name) {
            Some(i) => {
                let ghost es = self.entries_view();
                assert(es[i as int].0 == name@);
                let (n, st) = self.entries[i];
                let mut s = st;
                s.add_measurement(measurement);
                self.entries.set(i, (n, s));
                proof {
                    assert(self.entries_view() =~= es.update(i as int, (es[i as int].0, s@)));
                    lemma_map_of_update(es, i as int, s@);
                }
            },
            None => {
                let ghost es = self.entries_view();
                let mut s = WeatherStation::new();
                s.add_measurement(measurement);
                self.entries.push((name, s));
                proof {
                    assert(self.entries_view() =~= es.push((name@, s@)));
                    assert(self.entries_view().drop_last() =~= es);
                }
            },
        }
    }

    /// Combines `other` into `self` name by name, as if each of its
    /// measurements had been added here.
    pub fn merge(&mut self, other: &StationTable<'a>)
        requires
            old(self).wf(),
            other.wf(),
            forall|k: Seq<u8>|
                old(self).table().contains_key(k) && other.table().contains_key(k) ==> (
                #[trigger] old(self).table()[k]).count + other.table()[k].count <= u32::MAX,
        ensures
            final(self).wf(),
            final(self).table() == merge_maps(old(self).table(), other.table()),
    {
        let ghost a = self.table();
        let ghost os = other.entries_view();
        proof {
            lemma_map_of(os);
            assert(os.take(0) =~= Seq::<(Seq<u8>, StationView)>::empty());
            assert(merge_maps(a, map_of(os.take(0))) =~= a);
        }
        let mut j: usize = 0;
        while j < other.entries.len()
            invariant
                self.wf(),
                other.wf(),
                os == other.entries_view(),
                names_distinct(os),
                forall|i: int| 0 <= i < os.len() ==> #[trigger] map_of(os)[os[i].0] == os[i].1,
                forall|k: Seq<u8>|
                    a.contains_key(k) && other.table().contains_key(k) ==> (#[trigger] a[k]).count
                        + other.table()[k].count <= u32::MAX,
                j <= os.len(),
                self.table() == merge_maps(a, map_of(os.take(j as int))),
            decreases os.len() - j,
        {
            let (name, st) = other.entries[j];
            let ghost pre = self.table();
            let ghost b = map_of(os.take(j as int));
            proof {
                lemma_map_of(self.entries_view());
                lemma_map_of(os.take(j as int));
                lemma_map_of(os);
                assert(os[j as int] == (name@, st@));
                assert(os.take(j + 1).drop_last() =~= os.take(j as int));
                assert(os.take(j + 1).last() == os[j as int]);
                assert(map_of(os.take(j + 1)) == b.insert(name@, st@));
                assert(other.table().contains_key(name@));
                assert(!b.contains_key(name@)) by {
                    if b.contains_key(name@) {
                        let i = choose|i: int| 0 <= i < j && os.take(j as int)[i].0 == name@;
                        assert(os[i].0 == os[j as int].0);
                    }
                }
                assert(other.entries@[j as int].1.wf());
            }
            match self.find(name) {
                Some(i) => {
                    let ghost es = self.entries_view();
                    let (n, cur) = self.entries[i];
                    let mut s = cur;
                    proof {
                        assert(es[i as int].0 == name@);
                        assert(pre.contains_key(name@));
                        assert(a.contains_key(name@));
                        assert(pre[name@] == a[name@]);
                        assert(es[i as int].1 == a[name@]);
                        assert(other.table()[name@] == st@);
                        assert(self.entries@[i as int].1.wf());
                    }
                    s.merge(&st);
                    self.entries.set(i, (n, s));
                    proof {
                        assert(self.entries_view() =~= es.update(i as int, (es[i as int].0, s@)));
                        lemma_map_of_update(es, i as int, s@);
                        assert(self.table() =~= merge_maps(a, map_of(os.take(j + 1))));
                    }
                },
                None => {
                    let ghost es = self.entries_view();
                    self.entries.push((name, st));
                    proof {
                        assert(self.entries_view() =~= es.push((name@, st@)));
                        assert(self.entries_view().drop_last() =~= es);
                        assert(!a.contains_key(name@));
                        assert(self.table() =~= merge_maps(a, map_of(os.take(j + 1))));
                    }
                },
            }
            j += 1;
        }
        proof {
            assert(os.take(j as int) =~= os);
        }
    }
}

/// Compares two byte strings.
pub fn bytes_equal(a: &[u8], b: &[u8]) -> (r: bool)
    ensures
        r == (a@ == b@),
{
    if a.len() != b.len() {
        return false;
    }
    let mut i: usize = 0;
    while i < a.len()
        invariant
            a@.len() == b@.len(),
            i <= a@.len(),
            forall|j: int| 0 <= j < i ==> a@[j] == b@[j],
        decreases a@.len() - i,
    {
        if a[i] != b[i] {
            return false;
        }
        i += 1;
    }
    assert(a@ =~= b@);
    true
}

} // verus!
