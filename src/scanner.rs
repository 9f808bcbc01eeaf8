//! Scanning one partition of `name;value` records into a station table.
use vstd::prelude::*;
use vstd::slice::slice_subrange;
use crate::fixed_point::{
    is_parsable, is_parsable_measurement, lemma_value_range, measurement_value, parse_measurement,
};
use crate::partition::NEWLINE;
use crate::station::{StationView, add_view, empty_view, merge_view};
use crate::table::{StationTable, get_or_empty, merge_maps};

verus! {

/// ASCII `;`, between a station's name and its measurement.
pub const SEMICOLON: u8 = 59;

/// The first position at or after `p` that holds `b`, or the end of the
/// data when there is none (`p` itself when it is past the end).
pub open spec fn find_byte(d: Seq<u8>, p: int, b: u8) -> int
    decreases d.len() - p,
{
    if p >= d.len() {
        p
    } else if d[p] == b {
        p
    } else {
        find_byte(d, p + 1, b)
    }
}

/// The records of `d` from position `p` on, each as its name field and its
/// value field: the name runs to the next `;`, the value from there to the
/// next newline or the end of the data.
pub open spec fn records(d: Seq<u8>, p: int) -> Seq<(Seq<u8>, Seq<u8>)>
    decreases d.len() - p,
{
    if p < 0 || p >= d.len() {
        Seq::empty()
    } else {
        let ne = find_byte(d, p, SEMICOLON);
        let ve = find_byte(d, ne + 1, NEWLINE);
        let rec = (d.subrange(p, ne), d.subrange(ne + 1, ve));
        if p < ve + 1 <= d.len() {
            seq![rec] + records(d, ve + 1)
        } else {
            seq![rec]
        }
    }
}

/// From position `p` on, every record has its `;`, a name without a
/// newline, and a measurement that parses.
pub open spec fn well_formed(d: Seq<u8>, p: int) -> bool
    decreases d.len() - p,
{
    if p < 0 || p >= d.len() {
        true
    } else {
        let ne = find_byte(d, p, SEMICOLON);
        let ve = find_byte(d, ne + 1, NEWLINE);
        &&& ne < d.len()
        &&& forall|i: int| p <= i < ne ==> #[trigger] d[i] != NEWLINE
        &&& is_parsable(d.subrange(ne + 1, ve))
        &&& (p < ve + 1 <= d.len() ==> well_formed(d, ve + 1))
    }
}

/// Each record with its measurement read as tenths.
pub open spec fn readings(recs: Seq<(Seq<u8>, Seq<u8>)>) -> Seq<(Seq<u8>, int)> {
    recs.map_values(|r: (Seq<u8>, Seq<u8>)| (r.0, measurement_value(r.1)))
}

/// The table that readings fed one by one, first to last, build.
pub open spec fn tally(s: Seq<(Seq<u8>, int)>) -> Map<Seq<u8>, StationView>
    decreases s.len(),
{
    if s.len() == 0 {
        Map::empty()
    } else {
        let m = tally(s.drop_last());
        m.insert(s.last().0, add_view(get_or_empty(m, s.last().0), s.last().1))
    }
}

proof fn lemma_find_byte(d: Seq<u8>, p: int, b: u8)
    requires
        0 <= p,
    ensures
        p <= find_byte(d, p, b),
        p <= d.len() ==> find_byte(d, p, b) <= d.len(),
        find_byte(d, p, b) < d.len() ==> d[find_byte(d, p, b)] == b,
        forall|i: int| p <= i < find_byte(d, p, b) && i < d.len() ==> d[i] != b,
    decreases d.len() - p,
{
    if p < d.len() && d[p] != b {
        lemma_find_byte(d, p + 1, b);
    }
}

pub(crate) proof fn lemma_records_len(d: Seq<u8>, p: int)
    requires
        0 <= p <= d.len(),
    ensures
        records(d, p).len() <= d.len() - p,
        p < d.len() ==> records(d, p).len() > 0,
    decreases d.len() - p,
{
    if p < d.len() {
        let ne = find_byte(d, p, SEMICOLON);
        lemma_find_byte(d, p, SEMICOLON);
        lemma_find_byte(d, ne + 1, NEWLINE);
        let ve = find_byte(d, ne + 1, NEWLINE);
        if ve + 1 <= d.len() {
            lemma_records_len(d, ve + 1);
        }
    }
}

pub(crate) proof fn lemma_tally_count(s: Seq<(Seq<u8>, int)>)
    ensures
        forall|k: Seq<u8>| #[trigger] tally(s).contains_key(k) ==> tally(s)[k].count <= s.len(),
    decreases s.len(),
{
    if s.len() > 0 {
        let m = tally(s.drop_last());
        lemma_tally_count(s.drop_last());
        assert forall|k: Seq<u8>| #[trigger] tally(s).contains_key(k) implies tally(s)[k].count
            <= s.len() by {
            if k != s.last().0 {
                assert(m.contains_key(k));
            } else if m.contains_key(k) {
                assert(m[k].count <= s.len() - 1);
            }
        }
    }
}

/// Seen from the window `d[a..b]`, a byte is found where it is found in `d`,
/// unless that is past the window.
proof fn lemma_find_in_window(d: Seq<u8>, a: int, b: int, i: int, x: u8)
    requires
        0 <= a <= i <= b <= d.len(),
    ensures
        find_byte(d.subrange(a, b), i - a, x) == (if find_byte(d, i, x) < b {
            find_byte(d, i, x)
        } else {
            b
        }) - a,
    decreases b - i,
{
    lemma_find_byte(d, i, x);
    if i < b {
        assert(d.subrange(a, b)[i - a] == d[i]);
        if d[i] != x {
            lemma_find_in_window(d, a, b, i + 1, x);
        }
    }
}

/// Cutting the data where a record ends splits its records in two: those of
/// the part before the cut, then those after it.
pub proof fn lemma_records_split(d: Seq<u8>, a: int, b: int, p: int)
    requires
        0 <= a <= p <= b <= d.len(),
        b == d.len() || d[b - 1] == NEWLINE,
        well_formed(d, p),
    ensures
        records(d, p) == records(d.subrange(a, b), p - a) + records(d, b),
        well_formed(d.subrange(a, b), p - a),
        well_formed(d, b),
    decreases b - p,
{
    let sub = d.subrange(a, b);
    if p == b {
        assert(records(sub, p - a) =~= Seq::<(Seq<u8>, Seq<u8>)>::empty());
        assert(records(d, p) =~= records(sub, p - a) + records(d, b));
    } else {
        let ne = find_byte(d, p, SEMICOLON);
        let ve = find_byte(d, ne + 1, NEWLINE);
        lemma_find_byte(d, p, SEMICOLON);
        lemma_find_byte(d, ne + 1, NEWLINE);
        if b < d.len() && ne >= b {
            assert(d[b - 1] != NEWLINE);
        }
        assert(ne < b);
        if b < d.len() && ve >= b {
            assert(d[b - 1] != NEWLINE);
        }
        assert(ve <= b);
        assert(ve < b || b == d.len());
        lemma_find_in_window(d, a, b, p, SEMICOLON);
        lemma_find_in_window(d, a, b, ne + 1, NEWLINE);
        assert(find_byte(sub, p - a, SEMICOLON) == ne - a);
        assert(find_byte(sub, ne + 1 - a, NEWLINE) == ve - a);
        let rec = (d.subrange(p, ne), d.subrange(ne + 1, ve));
        assert(sub.subrange(p - a, ne - a) =~= rec.0);
        assert(sub.subrange(ne + 1 - a, ve - a) =~= rec.1);
        assert forall|i: int| p - a <= i < ne - a implies #[trigger] sub[i] != NEWLINE by {
            assert(sub[i] == d[i + a]);
        }
        if ve + 1 <= b {
            lemma_records_split(d, a, b, ve + 1);
            assert(records(d, p) =~= records(sub, p - a) + records(d, b));
        } else {
            assert(records(d, b) =~= Seq::<(Seq<u8>, Seq<u8>)>::empty());
            assert(records(d, p) =~= records(sub, p - a) + records(d, b));
        }
    }
}

/// A well-formed run of records holds measurements that parse.
pub(crate) proof fn lemma_readings_in_range(d: Seq<u8>, p: int)
    requires
        well_formed(d, p),
    ensures
        forall|i: int|
            0 <= i < readings(records(d, p)).len() ==> i16::MIN <= #[trigger] readings(
                records(d, p),
            )[i].1 <= i16::MAX,
    decreases d.len() - p,
{
    if 0 <= p < d.len() {
        let ne = find_byte(d, p, SEMICOLON);
        let ve = find_byte(d, ne + 1, NEWLINE);
        let rest = if p < ve + 1 <= d.len() {
            records(d, ve + 1)
        } else {
            Seq::empty()
        };
        if p < ve + 1 <= d.len() {
            lemma_readings_in_range(d, ve + 1);
        }
        lemma_value_range(d.subrange(ne + 1, ve));
        assert forall|i: int| 0 <= i < readings(records(d, p)).len() implies i16::MIN
            <= #[trigger] readings(records(d, p))[i].1 <= i16::MAX by {
            if i > 0 {
                assert(records(d, p)[i] == rest[i - 1]);
                assert(readings(records(d, p))[i] == readings(rest)[i - 1]);
            }
        }
    }
}

/// Merging the tables of two runs of readings gives the table of both runs
/// fed one after the other.
pub proof fn lemma_tally_concat(s1: Seq<(Seq<u8>, int)>, s2: Seq<(Seq<u8>, int)>)
    requires
        forall|i: int| 0 <= i < s1.len() ==> i16::MIN <= #[trigger] s1[i].1 <= i16::MAX,
        forall|i: int| 0 <= i < s2.len() ==> i16::MIN <= #[trigger] s2[i].1 <= i16::MAX,
    ensures
        tally(s1 + s2) == merge_maps(tally(s1), tally(s2)),
    decreases s2.len(),
{
    if s2.len() == 0 {
        assert(s1 + s2 =~= s1);
        assert(merge_maps(tally(s1), tally(s2)) =~= tally(s1));
    } else {
        let init = s2.drop_last();
        let (k, v) = s2.last();
        assert(s2[s2.len() - 1].1 == v);
        lemma_tally_concat(s1, init);
        assert((s1 + s2).drop_last() =~= s1 + init);
        assert((s1 + s2).last() == s2.last());
        let a = tally(s1);
        let b = tally(init);
        lemma_tally_wf(s1);
        if a.contains_key(k) && !b.contains_key(k) {
            assert(merge_view(a[k], add_view(empty_view(), v)) == add_view(a[k], v));
        }
        assert(tally(s1 + s2) =~= merge_maps(a, tally(s2)));
    }
}

/// Every accumulator of a table built from `i16` readings keeps its sentinel
/// bounds.
proof fn lemma_tally_wf(s: Seq<(Seq<u8>, int)>)
    requires
        forall|i: int| 0 <= i < s.len() ==> i16::MIN <= #[trigger] s[i].1 <= i16::MAX,
    ensures
        forall|k: Seq<u8>| #[trigger] tally(s).contains_key(k) ==> i16::MIN <= tally(s)[k].min
            <= i16::MAX && i16::MIN <= tally(s)[k].max <= i16::MAX,
    decreases s.len(),
{
    if s.len() > 0 {
        let m = tally(s.drop_last());
        lemma_tally_wf(s.drop_last());
        assert(s[s.len() - 1] == s.last());
        assert forall|k: Seq<u8>| #[trigger] tally(s).contains_key(k) implies i16::MIN <= tally(
            s,
        )[k].min <= i16::MAX && i16::MIN <= tally(s)[k].max <= i16::MAX by {
            if k != s.last().0 {
                assert(m.contains_key(k));
            } else if m.contains_key(k) {
                assert(i16::MIN <= m[k].min <= i16::MAX);
            }
        }
    }
}

/// Scans one partition and returns, for each station named in it, the
/// accumulator of its measurements there, stations in order of first
/// sighting.
pub fn thread_runner<'a>(data: &'a [u8]) -> (r: StationTable<'a>)
    requires
        well_formed(data@, 0),
        data@.len() <= u32::MAX,
    ensures
        r.wf(),
        r.table() == tally(readings(records(data@, 0))),
{
    let ghost d = data@;
    let data_len = data.len();
    let mut stations = StationTable::new();
    let ghost mut done: Seq<(Seq<u8>, Seq<u8>)> = Seq::empty();
    let mut name_start: usize = 0;
    proof {
        lemma_records_len(d, 0);
        assert(records(d, 0) =~= done + records(d, 0));
    }
    while name_start < data_len
        invariant
            d == data@,
            data_len == d.len(),
            d.len() <= u32::MAX,
            records(d, 0).len() <= d.len(),
            name_start <= data_len,
            well_formed(d, name_start as int),
            records(d, 0) == done + records(d, name_start as int),
            stations.wf(),
            stations.table() == tally(readings(done)),
        decreases data_len - name_start,
    {
        let ghost rest = records(d, name_start as int);
        let ghost ne = find_byte(d, name_start as int, SEMICOLON);
        proof {
            lemma_find_byte(d, name_start as int, SEMICOLON);
            lemma_find_byte(d, ne + 1, NEWLINE);
            lemma_records_len(d, name_start as int);
        }
        let mut name_end: usize = name_start;
        while name_end < data_len && data[name_end] != SEMICOLON
            invariant
                d == data@,
                data_len == d.len(),
                name_start <= name_end <= data_len,
                name_start < data_len,
                find_byte(d, name_end as int, SEMICOLON) == ne,
            decreases data_len - name_end,
        {
            name_end += 1;
        }
        let name = slice_subrange(data, name_start, name_end);
        let val_start = name_end + 1;
        let ghost ve = find_byte(d, ne + 1, NEWLINE);
        let mut val_end: usize = val_start;
        while val_end < data_len && data[val_end] != NEWLINE
            invariant
                d == data@,
                data_len == d.len(),
                val_start <= val_end <= data_len,
                find_byte(d, val_end as int, NEWLINE) == ve,
            decreases data_len - val_end,
        {
            val_end += 1;
        }
        assert(name_end == ne);
        assert(val_end == ve);
        let measurement = parse_measurement(slice_subrange(data, val_start, val_end));
        let next: usize = if val_end < data_len {
            val_end + 1
        } else {
            data_len
        };
        proof {
            let rec = (d.subrange(name_start as int, ne), d.subrange(ne + 1, ve));
            assert(rest =~= seq![rec] + records(d, next as int));
            assert(well_formed(d, next as int));
            assert(records(d, 0) == done.push(rec) + records(d, next as int)) by {
                assert(done + rest =~= done.push(rec) + records(d, next as int));
            }
            assert(readings(done.push(rec)) =~= readings(done).push(
                (rec.0, measurement_value(rec.1)),
            ));
            assert(readings(done.push(rec)).drop_last() =~= readings(done));
            assert(done.len() + rest.len() == records(d, 0).len()) by {
                assert((done + rest).len() == done.len() + rest.len());
            }
            lemma_tally_count(readings(done));
        }
        stations.add_measurement(name, measurement);
        proof {
            done = done.push((d.subrange(name_start as int, ne), d.subrange(ne + 1, ve)));
        }
        name_start = next;
    }
    proof {
        assert(records(d, name_start as int) =~= Seq::<(Seq<u8>, Seq<u8>)>::empty());
        assert(done + records(d, name_start as int) =~= done);
    }
    stations
}

/// Tells whether every record of `data` has its `;`, a name without a
/// newline, and a measurement that parses, which is what `thread_runner` asks of its input.
pub fn is_well_formed(data: &[u8]) -> (r: bool)
    ensures
        r == well_formed(data@, 0),
{
    let ghost d = data@;
    let data_len = data.len();
    let mut name_start: usize = 0;
    while name_start < data_len
        invariant
            d == data@,
            data_len == d.len(),
            name_start <= data_len,
            well_formed(d, 0) == well_formed(d, name_start as int),
        decreases data_len - name_start,
    {
        let ghost ne = find_byte(d, name_start as int, SEMICOLON);
        proof {
            lemma_find_byte(d, name_start as int, SEMICOLON);
            lemma_find_byte(d, ne + 1, NEWLINE);
        }
        let mut name_end: usize = name_start;
        while name_end < data_len && data[name_end] != SEMICOLON
            invariant
                d == data@,
                data_len == d.len(),
                name_start <= name_end <= data_len,
                find_byte(d, name_end as int, SEMICOLON) == ne,
                ne == find_byte(d, name_start as int, SEMICOLON),
                name_start < data_len,
                well_formed(d, 0) == well_formed(d, name_start as int),
                forall|i: int| name_start <= i < name_end ==> #[trigger] d[i] != NEWLINE,
            decreases data_len - name_end,
        {
            if data[name_end] == NEWLINE {
                proof {
                    lemma_find_byte(d, name_end + 1, SEMICOLON);
                    assert(find_byte(d, name_end as int, SEMICOLON) == find_byte(
                        d,
                        name_end + 1,
                        SEMICOLON,
                    ));
                    assert(name_end < ne);
                    assert(d[name_end as int] == NEWLINE);
                    assert(!well_formed(d, name_start as int));
                }
                return false;
            }
            name_end += 1;
        }
        assert(name_end == ne);
        if name_end == data_len {
            return false;
        }
        let val_start = name_end + 1;
        let ghost ve = find_byte(d, ne + 1, NEWLINE);
        let mut val_end: usize = val_start;
        while val_end < data_len && data[val_end] != NEWLINE
            invariant
                d == data@,
                data_len == d.len(),
                val_start <= val_end <= data_len,
                find_byte(d, val_end as int, NEWLINE) == ve,
            decreases data_len - val_end,
        {
            val_end += 1;
        }
        assert(val_end == ve);
        if !is_parsable_measurement(slice_subrange(data, val_start, val_end)) {
            return false;
        }
        name_start = if val_end < data_len {
            val_end + 1
        } else {
            data_len
        };
    }
    true
}

} // verus!
