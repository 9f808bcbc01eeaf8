//! Splitting a file's bytes into contiguous, record-aligned partitions.
use vstd::prelude::*;
use vstd::slice::slice_subrange;

verus! {

/// ASCII newline, the record terminator.
pub const NEWLINE: u8 = 10;

/// The position just past the first newline at or after `p`, or the end of
/// the data when there is none.
pub open spec fn record_end(d: Seq<u8>, p: int) -> int
    decreases d.len() - p,
{
    if p >= d.len() {
        d.len() as int
    } else if d[p] == NEWLINE {
        p + 1
    } else {
        record_end(d, p + 1)
    }
}

/// Where partition `k` of `n` begins (`k < n`), or where the last one ends
/// (`k == n`): an even share past the previous boundary, moved forward to
/// the end of a record; the last partition takes the remainder.
pub open spec fn bound(d: Seq<u8>, n: nat, k: nat) -> int
    decreases k,
{
    if k == 0 {
        0
    } else if k >= n {
        d.len() as int
    } else {
        let prev = bound(d, n, (k - 1) as nat);
        let share = d.len() as int / n as int;
        let target = if prev + share > d.len() {
            d.len() as int
        } else {
            prev + share
        };
        record_end(d, target)
    }
}

/// The `n` partitions of `d`.
pub open spec fn partitions(d: Seq<u8>, n: nat) -> Seq<Seq<u8>> {
    Seq::new(n, |j: int| d.subrange(bound(d, n, j as nat), bound(d, n, (j + 1) as nat)))
}

proof fn lemma_record_end(d: Seq<u8>, p: int)
    requires
        0 <= p <= d.len(),
    ensures
        p <= record_end(d, p) <= d.len(),
        p < d.len() ==> p < record_end(d, p),
        record_end(d, p) == d.len() || d[record_end(d, p) - 1] == NEWLINE,
    decreases d.len() - p,
{
    if p < d.len() && d[p] != NEWLINE {
        lemma_record_end(d, p + 1);
    }
}

pub(crate) proof fn lemma_bound(d: Seq<u8>, n: nat, k: nat)
    requires
        n > 0,
        k <= n,
    ensures
        0 <= bound(d, n, k) <= d.len(),
        k > 0 ==> bound(d, n, (k - 1) as nat) <= bound(d, n, k),
        k == 0 || bound(d, n, k) == d.len() || d[bound(d, n, k) - 1] == NEWLINE,
    decreases k,
{
    if k > 0 {
        lemma_bound(d, n, (k - 1) as nat);
        if k < n {
            let prev = bound(d, n, (k - 1) as nat);
            let share = d.len() as int / n as int;
            let target = if prev + share > d.len() {
                d.len() as int
            } else {
                prev + share
            };
            lemma_record_end(d, target);
        }
    }
}

/// Putting the partitions back together, in order, gives the data unchanged,
/// and no boundary between two partitions falls inside a record: each one is
/// the end of the data or comes right after a newline.
pub proof fn lemma_partitions_cover(d: Seq<u8>, n: nat)
    requires
        n > 0,
    ensures
        partitions(d, n).flatten() == d,
        forall|k: nat|
            0 < k < n ==> bound(d, n, k) == d.len() || d[#[trigger] bound(d, n, k) - 1]
                == NEWLINE,
{
    assert forall|k: nat|
        0 < k < n implies bound(d, n, k) == d.len() || d[#[trigger] bound(d, n, k) - 1]
        == NEWLINE by {
        lemma_bound(d, n, k);
    }
    lemma_prefix_cover(d, n, n);
    assert(partitions(d, n).take(n as int) =~= partitions(d, n));
    assert(d.subrange(0, d.len() as int) =~= d);
}

proof fn lemma_prefix_cover(d: Seq<u8>, n: nat, k: nat)
    requires
        n > 0,
        k <= n,
    ensures
        partitions(d, n).take(k as int).flatten() == d.subrange(0, bound(d, n, k)),
    decreases k,
{
    let ps = partitions(d, n);
    if k == 0 {
        assert(ps.take(0) =~= Seq::<Seq<u8>>::empty());
        assert(d.subrange(0, 0) =~= Seq::<u8>::empty());
    } else {
        lemma_prefix_cover(d, n, (k - 1) as nat);
        lemma_bound(d, n, k);
        lemma_bound(d, n, (k - 1) as nat);
        assert(ps.take(k as int) =~= ps.take(k - 1).push(ps[k - 1]));
        ps.take(k - 1).lemma_flatten_push(ps[k - 1]);
        assert(d.subrange(0, bound(d, n, k)) =~= d.subrange(0, bound(d, n, (k - 1) as nat))
            + d.subrange(bound(d, n, (k - 1) as nat), bound(d, n, k)));
    }
}

/// Splits `data` into `num_partitions` contiguous slices, each ending at the
/// end of a record, the last one reaching the end of the data.
pub fn partition_into_slices<'a>(data: &'a [u8], num_partitions: usize) -> (r: Vec<&'a [u8]>)
    requires
        num_partitions > 0,
    ensures
        r@.len() == num_partitions,
        forall|j: int| 0 <= j < num_partitions ==> #[trigger] r@[j]@ == partitions(data@, num_partitions as nat)[j],
{
    let ghost d = data@;
    let ghost n = num_partitions as nat;
    let len = data.len();
    let partition_size = len / num_partitions;
    let mut parts: Vec<&'a [u8]> = Vec::new();
    let mut start: usize = 0;
    let mut k: usize = 0;
    while k < num_partitions
        invariant
            d == data@,
            n == num_partitions as nat,
            len == d.len(),
            partition_size == d.len() as int / n as int,
            n > 0,
            k <= n,
            start == bound(d, n, k as nat),
            parts@.len() == k,
            forall|j: int| 0 <= j < k ==> #[trigger] parts@[j]@ == partitions(d, n)[j],
        decreases num_partitions - k,
    {
        proof {
            lemma_bound(d, n, k as nat);
            lemma_bound(d, n, (k + 1) as nat);
        }
        let mut end: usize;
        if k + 1 == num_partitions {
            end = len;
        } else {
            end = if partition_size > len - start {
                len
            } else {
                start + partition_size
            };
            let ghost target = end as int;
            while end < len && data[end] != NEWLINE
                invariant
                    d == data@,
                    len == d.len(),
                    end <= len,
                    record_end(d, end as int) == record_end(d, target),
                decreases len - end,
            {
                end += 1;
            }
            if end < len {
                end += 1;
            }
        }
        assert(end == bound(d, n, (k + 1) as nat));
        let part = slice_subrange(data, start, end);
        parts.push(part);
        start = end;
        k += 1;
    }
    parts
}

} // verus!
