//! The whole computation: partition the data, scan each partition into a
//! table of its own, and merge the tables name by name.
use vstd::prelude::*;
use crate::partition::{bound, lemma_bound, partition_into_slices, partitions};
use crate::scanner::{
    lemma_readings_in_range, lemma_records_len, lemma_records_split, lemma_tally_concat,
    lemma_tally_count, readings, records, tally, thread_runner, well_formed,
};
use crate::table::StationTable;

verus! {

/// Splits `data` into `num_partitions` record-aligned partitions, scans each
/// into a table of its own, and merges those tables into one. The result is
/// the table that one scan of the whole data builds, whatever the number of
/// partitions.
pub fn aggregate<'a>(data: &'a [u8], num_partitions: usize) -> (r: StationTable<'a>)
    requires
        num_partitions > 0,
        data@.len() <= u32::MAX,
        well_formed(data@, 0),
    ensures
        r.wf(),
        r.table() == tally(readings(records(data@, 0))),
{
    let ghost d = data@;
    let ghost n = num_partitions as nat;
    let parts = partition_into_slices(data, num_partitions);
    let mut stations = StationTable::new();
    let ghost mut done: Seq<(Seq<u8>, Seq<u8>)> = Seq::empty();
    proof {
        assert(records(d, 0) =~= done + records(d, 0));
        assert(stations.table() =~= tally(readings(done)));
    }
    let mut j: usize = 0;
    while j < num_partitions
        invariant
            d == data@,
            n == num_partitions as nat,
            n > 0,
            d.len() <= u32::MAX,
            parts@.len() == n,
            forall|i: int| 0 <= i < n ==> #[trigger] parts@[i]@ == partitions(d, n)[i],
            j <= n,
            well_formed(d, bound(d, n, j as nat)),
            records(d, 0) == done + records(d, bound(d, n, j as nat)),
            forall|i: int|
                0 <= i < readings(done).len() ==> i16::MIN <= #[trigger] readings(done)[i].1
                    <= i16::MAX,
            stations.wf(),
            stations.table() == tally(readings(done)),
            forall|k: Seq<u8>| #[trigger]
                stations.table().contains_key(k) ==> stations.table()[k].count <= bound(
                    d,
                    n,
                    j as nat,
                ),
        decreases n - j,
    {
        let part = parts[j];
        let ghost lo = bound(d, n, j as nat);
        let ghost hi = bound(d, n, (j + 1) as nat);
        let ghost p = partitions(d, n)[j as int];
        proof {
            lemma_bound(d, n, j as nat);
            lemma_bound(d, n, (j + 1) as nat);
            assert(part@ == p);
            assert(p == d.subrange(lo, hi));
            lemma_records_split(d, lo, hi, lo);
            assert(lo - lo == 0);
        }
        let scanned = thread_runner(part);
        let ghost before = stations.table();
        proof {
            lemma_records_len(p, 0);
            lemma_tally_count(readings(records(p, 0)));
            assert(p.len() == hi - lo);
            assert forall|k: Seq<u8>| #[trigger] scanned.table().contains_key(k) implies scanned.table()[k].count <= p.len() by {
                assert(readings(records(p, 0)).len() == records(p, 0).len());
            }
            lemma_readings_in_range(p, 0);
            lemma_tally_concat(readings(done), readings(records(p, 0)));
            assert(readings(done + records(p, 0)) =~= readings(done) + readings(records(p, 0)));
        }
        stations.merge(&scanned);
        proof {
            assert forall|k: Seq<u8>| #[trigger] stations.table().contains_key(k) implies stations.table()[k].count <= hi by {
                if before.contains_key(k) {
                    assert(before[k].count <= lo);
                }
                if scanned.table().contains_key(k) {
                    assert(scanned.table()[k].count <= p.len());
                }
            }
            assert(records(d, 0) =~= (done + records(p, 0)) + records(d, hi));
            done = done + records(p, 0);
        }
        j += 1;
    }
    proof {
        assert(bound(d, n, n) == d.len());
        assert(records(d, d.len() as int) =~= Seq::<(Seq<u8>, Seq<u8>)>::empty());
        assert(done + records(d, d.len() as int) =~= done);
    }
    stations
}

} // verus!
