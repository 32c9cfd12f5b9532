//! Reading the log back: which records a read from one index to another
//! gives, and what it gives for a log written entry by entry.
use vstd::prelude::*;
use vstd::multiset::Multiset;
use vstd::utf8::*;

use crate::rocksstore::keys::{
    key_index, lemma_index_keys_injective, lemma_key_index_roundtrip, log_key_spec, log_prefix,
};

verus! {

broadcast use vstd::seq_lib::group_to_multiset_ensures;

/// The index that a listed log record's key names.
pub open spec fn record_index(p: (Seq<u8>, Seq<u8>)) -> u64 {
    key_index(p.0)
}

/// Inserts `p` into `sorted` after every record whose index is not greater:
/// one step of a stable sort by index.
pub open spec fn insert_by_index(sorted: Seq<(Seq<u8>, Seq<u8>)>, p: (Seq<u8>, Seq<u8>)) -> Seq<
    (Seq<u8>, Seq<u8>),
>
    decreases sorted.len(),
{
    if sorted.len() == 0 {
        seq![p]
    } else if record_index(sorted.last()) <= record_index(p) {
        sorted.push(p)
    } else {
        insert_by_index(sorted.drop_last(), p).push(sorted.last())
    }
}

/// The records ordered by index, records of equal index in their listed order
/// (what a stable `sort_by` on the index gives).
pub open spec fn sort_by_index(s: Seq<(Seq<u8>, Seq<u8>)>) -> Seq<(Seq<u8>, Seq<u8>)>
    decreases s.len(),
{
    if s.len() == 0 {
        s
    } else {
        insert_by_index(sort_by_index(s.drop_last()), s.last())
    }
}

/// Whether a record's index lies in `[begin, end)`.
pub open spec fn in_range(p: (Seq<u8>, Seq<u8>), begin: u64, end: u64) -> bool {
    begin <= record_index(p) < end
}

/// The records of the listing whose index lies in `[begin, end)`, in listed order.
pub open spec fn records_in_range(log: Seq<(Seq<u8>, Seq<u8>)>, begin: u64, end: u64) -> Seq<
    (Seq<u8>, Seq<u8>),
> {
    log.filter(|p: (Seq<u8>, Seq<u8>)| in_range(p, begin, end))
}

/// The values that a read of the log from `begin` to `end` gives for this
/// listing of the log records: those of the records whose index lies in
/// `[begin, end)`, in index order (records of equal index in listed order).
pub open spec fn logs_in_range(log: Seq<(Seq<u8>, Seq<u8>)>, begin: u64, end: u64) -> Seq<Seq<u8>> {
    sort_by_index(records_in_range(log, begin, end)).map_values(|p: (Seq<u8>, Seq<u8>)| p.1)
}

/// A listing of the log's records as the database hands it out: every key
/// carries the log prefix and is valid UTF-8.
pub open spec fn is_log_listing(log: Seq<(Seq<u8>, Seq<u8>)>) -> bool {
    forall|i: int|
        0 <= i < log.len() ==> {
            &&& (#[trigger] log[i]).0.len() >= 3
            &&& log[i].0.subrange(0, 3) == log_prefix()
            &&& valid_utf8(log[i].0)
        }
}

/// A listing of records under some three-byte prefix: every key is at least
/// that long.
pub open spec fn is_prefixed_listing(s: Seq<(Seq<u8>, Seq<u8>)>) -> bool {
    forall|i: int| 0 <= i < s.len() ==> (#[trigger] s[i]).0.len() >= 3
}

/// The greatest index that the listed records' keys name, 0 for no record.
pub open spec fn highest_index(s: Seq<(Seq<u8>, Seq<u8>)>) -> u64
    decreases s.len(),
{
    if s.len() == 0 {
        0
    } else if record_index(s.last()) > highest_index(s.drop_last()) {
        record_index(s.last())
    } else {
        highest_index(s.drop_last())
    }
}

/// Records ordered by index, ties allowed.
pub open spec fn sorted_by_index(s: Seq<(Seq<u8>, Seq<u8>)>) -> bool {
    forall|i: int, j: int| 0 <= i < j < s.len() ==> record_index(s[i]) <= record_index(s[j])
}

/// Records in strictly increasing order of index.
pub open spec fn strictly_sorted_by_index(s: Seq<(Seq<u8>, Seq<u8>)>) -> bool {
    forall|i: int, j: int| 0 <= i < j < s.len() ==> record_index(s[i]) < record_index(s[j])
}

/// The records of a log holding `vals` at the indices from `lo` on, in index order.
pub open spec fn log_records(lo: u64, vals: Seq<Seq<u8>>) -> Seq<(Seq<u8>, Seq<u8>)> {
    Seq::new(vals.len(), |k: int| (log_key_spec((lo + k) as u64), vals[k]))
}

/// Inserting a record keeps the multiset of records, plus the new one, and keeps order.
pub proof fn lemma_insert_by_index(s: Seq<(Seq<u8>, Seq<u8>)>, p: (Seq<u8>, Seq<u8>))
    ensures
        insert_by_index(s, p).to_multiset() == s.to_multiset().insert(p),
        sorted_by_index(s) ==> sorted_by_index(insert_by_index(s, p)),
    decreases s.len(),
{
    if s.len() == 0 {
        assert(seq![p] =~= s.push(p));
    } else if record_index(s.last()) <= record_index(p) {
    } else {
        let d = s.drop_last();
        lemma_insert_by_index(d, p);
        assert(d.push(s.last()) =~= s);
        let r = insert_by_index(d, p);
        assert(r.push(s.last()).to_multiset() == r.to_multiset().insert(s.last()));
        assert(insert_by_index(s, p).to_multiset() =~= s.to_multiset().insert(p));
        if sorted_by_index(s) {
            assert forall|x: (Seq<u8>, Seq<u8>)| r.contains(x) implies record_index(x)
                <= record_index(s.last()) by {
                assert(r.to_multiset().count(x) > 0);
                if x != p {
                    assert(d.to_multiset().count(x) > 0);
                    let i = choose|i: int| 0 <= i < d.len() && d[i] == x;
                    assert(s[i] == x);
                }
            }
            assert forall|i: int, j: int|
                0 <= i < j < r.len() + 1 implies record_index(r.push(s.last())[i])
                    <= record_index(r.push(s.last())[j]) by {
                if j == r.len() {
                    assert(r.contains(r[i]));
                } else {
                    assert(r.push(s.last())[i] == r[i]);
                    assert(r.push(s.last())[j] == r[j]);
                }
            }
        }
    }
}

/// Sorting by index keeps the multiset of records and orders them.
pub proof fn lemma_sort_by_index(s: Seq<(Seq<u8>, Seq<u8>)>)
    ensures
        sort_by_index(s).to_multiset() == s.to_multiset(),
        sorted_by_index(sort_by_index(s)),
    decreases s.len(),
{
    if s.len() > 0 {
        lemma_sort_by_index(s.drop_last());
        lemma_insert_by_index(sort_by_index(s.drop_last()), s.last());
        assert(s.drop_last().push(s.last()) =~= s);
    }
}

/// Two strictly ordered sequences of the same records are the same sequence.
pub proof fn lemma_strictly_sorted_unique(a: Seq<(Seq<u8>, Seq<u8>)>, b: Seq<(Seq<u8>, Seq<u8>)>)
    requires
        strictly_sorted_by_index(a),
        strictly_sorted_by_index(b),
        a.to_multiset() == b.to_multiset(),
    ensures
        a == b,
    decreases a.len(),
{
    broadcast use vstd::multiset::group_multiset_axioms;

    vstd::seq_lib::to_multiset_len(a);
    vstd::seq_lib::to_multiset_len(b);
    assert(a.len() == b.len());
    if a.len() > 0 {
        assert(a.to_multiset().count(a[0]) > 0);
        assert(b.to_multiset().count(a[0]) > 0);
        assert(b.contains(a[0]));
        assert(b.to_multiset().count(b[0]) > 0);
        assert(a.to_multiset().count(b[0]) > 0);
        assert(a.contains(b[0]));
        let k = choose|k: int| 0 <= k < b.len() && b[k] == a[0];
        let m = choose|m: int| 0 <= m < a.len() && a[m] == b[0];
        if k > 0 {
            assert(record_index(b[0]) < record_index(b[k]));
            if m > 0 {
                assert(record_index(a[0]) < record_index(a[m]));
            }
        }
        assert(a[0] == b[0]);
        assert(a.remove(0) =~= a.drop_first());
        assert(b.remove(0) =~= b.drop_first());
        assert(a.drop_first().to_multiset() == a.to_multiset().remove(a[0]));
        assert(b.drop_first().to_multiset() == b.to_multiset().remove(b[0]));
        lemma_strictly_sorted_unique(a.drop_first(), b.drop_first());
        assert(a =~= seq![a[0]] + a.drop_first());
        assert(b =~= seq![b[0]] + b.drop_first());
    }
}

/// Filtering keeps multiset equality.
pub proof fn lemma_filter_same_records(
    s: Seq<(Seq<u8>, Seq<u8>)>,
    t: Seq<(Seq<u8>, Seq<u8>)>,
    begin: u64,
    end: u64,
)
    requires
        s.to_multiset() == t.to_multiset(),
    ensures
        records_in_range(s, begin, end).to_multiset() == records_in_range(t, begin, end).to_multiset(),
{
    broadcast use vstd::multiset::group_multiset_axioms;

    lemma_filter_count(s, begin, end);
    lemma_filter_count(t, begin, end);
    assert(records_in_range(s, begin, end).to_multiset() =~= records_in_range(
        t,
        begin,
        end,
    ).to_multiset());
}

proof fn lemma_filter_count(s: Seq<(Seq<u8>, Seq<u8>)>, begin: u64, end: u64)
    ensures
        forall|x: (Seq<u8>, Seq<u8>)|
            #[trigger] records_in_range(s, begin, end).to_multiset().count(x) == if in_range(
                x,
                begin,
                end,
            ) {
                s.to_multiset().count(x)
            } else {
                0
            },
    decreases s.len(),
{
    broadcast use vstd::multiset::group_multiset_axioms;

    reveal(Seq::filter);
    if s.len() == 0 {
        assert(s.to_multiset() =~= Multiset::empty());
        assert(records_in_range(s, begin, end).to_multiset() =~= Multiset::empty());
    } else {
        let d = s.drop_last();
        lemma_filter_count(d, begin, end);
        assert(d.push(s.last()) =~= s);
        assert(records_in_range(s, begin, end) == (if in_range(s.last(), begin, end) {
            records_in_range(d, begin, end).push(s.last())
        } else {
            records_in_range(d, begin, end)
        }));
    }
}

/// The first position of a contiguous log of `n` records from `lo` whose
/// index is at least `begin`.
pub open spec fn range_start(lo: u64, n: nat, begin: u64) -> int {
    if begin <= lo {
        0
    } else if begin - lo <= n {
        begin - lo
    } else {
        n as int
    }
}

/// The position, in a contiguous log of `n` records from `lo`, past the last
/// record whose index is in `[begin, end)`.
pub open spec fn range_end(lo: u64, n: nat, begin: u64, end: u64) -> int {
    let x = range_start(lo, n, begin);
    if end <= lo + x {
        x
    } else if end - lo <= n {
        end - lo
    } else {
        n as int
    }
}

/// The records of a contiguous log whose index is in `[begin, end)` are the
/// consecutive ones between [`range_start`] and [`range_end`].
proof fn lemma_range_of_contiguous(lo: u64, vals: Seq<Seq<u8>>, begin: u64, end: u64, m: int)
    requires
        lo + vals.len() <= u64::MAX + 1,
        0 <= m <= vals.len(),
    ensures
        ({
            let full = log_records(lo, vals);
            let x = range_start(lo, vals.len(), begin);
            let y = range_end(lo, vals.len(), begin, end);
            records_in_range(full.take(m), begin, end) == full.subrange(
                if x <= m { x } else { m },
                if y <= m { y } else { m },
            )
        }),
    decreases m,
{
    reveal(Seq::filter);
    let full = log_records(lo, vals);
    let x = range_start(lo, vals.len(), begin);
    let y = range_end(lo, vals.len(), begin, end);
    if m == 0 {
        assert(records_in_range(full.take(0), begin, end) =~= full.subrange(0, 0));
    } else {
        lemma_range_of_contiguous(lo, vals, begin, end, m - 1);
        let t = full.take(m);
        assert(t.drop_last() =~= full.take(m - 1));
        lemma_key_index_roundtrip((lo + m - 1) as u64);
        assert(record_index(t.last()) == lo + m - 1);
        let x0 = if x <= m - 1 { x } else { m - 1 };
        let y0 = if y <= m - 1 { y } else { m - 1 };
        let x1 = if x <= m { x } else { m };
        let y1 = if y <= m { y } else { m };
        assert(in_range(t.last(), begin, end) <==> (x <= m - 1 && m - 1 < y));
        if in_range(t.last(), begin, end) {
            assert(full.subrange(x0, y0).push(full[m - 1]) =~= full.subrange(x1, y1));
        } else {
            assert(full.subrange(x0, y0) =~= full.subrange(x1, y1));
        }
    }
}

/// Sorting the records of a listing whose index is in `[begin, end)` gives
/// `e`, when the listing holds the same records as `full`, whose records in
/// that range are `e`, strictly ordered by index.
proof fn lemma_sorted_is_range(
    log: Seq<(Seq<u8>, Seq<u8>)>,
    full: Seq<(Seq<u8>, Seq<u8>)>,
    e: Seq<(Seq<u8>, Seq<u8>)>,
    begin: u64,
    end: u64,
)
    requires
        log.to_multiset() == full.to_multiset(),
        records_in_range(full, begin, end) == e,
        strictly_sorted_by_index(e),
    ensures
        sort_by_index(records_in_range(log, begin, end)) == e,
{
    broadcast use vstd::multiset::group_multiset_axioms;

    let f = records_in_range(log, begin, end);
    let srt = sort_by_index(f);
    lemma_filter_same_records(log, full, begin, end);
    lemma_sort_by_index(f);
    assert(srt.to_multiset() == e.to_multiset());
    assert(e.no_duplicates()) by {
        assert forall|i: int, j: int|
            0 <= i < e.len() && 0 <= j < e.len() && i != j implies e[i] != e[j] by {
            if i < j {
                assert(record_index(e[i]) < record_index(e[j]));
            } else {
                assert(record_index(e[j]) < record_index(e[i]));
            }
        }
    }
    e.lemma_multiset_has_no_duplicates();
    assert forall|x: (Seq<u8>, Seq<u8>)| srt.to_multiset().contains(x) implies srt.to_multiset().count(
        x,
    ) == 1 by {
        assert(e.to_multiset().contains(x));
    }
    srt.lemma_multiset_has_no_duplicates_conv();
    assert(strictly_sorted_by_index(srt)) by {
        assert forall|i: int, j: int| 0 <= i < j < srt.len() implies record_index(srt[i])
            < record_index(srt[j]) by {
            assert(srt.to_multiset().count(srt[i]) > 0);
            assert(e.to_multiset().count(srt[i]) > 0);
            assert(srt.to_multiset().count(srt[j]) > 0);
            assert(e.to_multiset().count(srt[j]) > 0);
            let x = choose|x: int| 0 <= x < e.len() && e[x] == srt[i];
            let y = choose|y: int| 0 <= y < e.len() && e[y] == srt[j];
            assert(record_index(srt[i]) <= record_index(srt[j]));
            assert(srt[i] != srt[j]);
            if x < y {
                assert(record_index(e[x]) < record_index(e[y]));
            } else if y < x {
                assert(record_index(e[y]) < record_index(e[x]));
            }
        }
    }
    lemma_strictly_sorted_unique(srt, e);
}

/// The records behind a read are exactly the listed records whose index lies
/// in `[begin, end)`, each as often as listed, in order of index.
pub proof fn lemma_read_is_range_in_order(log: Seq<(Seq<u8>, Seq<u8>)>, begin: u64, end: u64)
    ensures
        sort_by_index(records_in_range(log, begin, end)).to_multiset() == records_in_range(
            log,
            begin,
            end,
        ).to_multiset(),
        sorted_by_index(sort_by_index(records_in_range(log, begin, end))),
        forall|x: (Seq<u8>, Seq<u8>)|
            #[trigger] sort_by_index(records_in_range(log, begin, end)).to_multiset().count(x)
                == if begin <= record_index(x) && record_index(x) < end {
                log.to_multiset().count(x)
            } else {
                0
            },
{
    lemma_sort_by_index(records_in_range(log, begin, end));
    lemma_filter_count(log, begin, end);
}

/// Reading a log written entry by entry gives back what was written: when the
/// records listed are exactly those holding `vals` at the indices from `lo`
/// on, in any order, a read from `begin` to `end` gives the values of the
/// indices in `[begin, end)` that the log holds, in index order.
pub proof fn lemma_read_back_log(
    log: Seq<(Seq<u8>, Seq<u8>)>,
    lo: u64,
    vals: Seq<Seq<u8>>,
    begin: u64,
    end: u64,
)
    requires
        lo + vals.len() <= u64::MAX + 1,
        log.to_multiset() == log_records(lo, vals).to_multiset(),
    ensures
        logs_in_range(log, begin, end) == vals.subrange(
            range_start(lo, vals.len(), begin),
            range_end(lo, vals.len(), begin, end),
        ),
{
    let n = vals.len() as int;
    let full = log_records(lo, vals);
    let x = range_start(lo, vals.len(), begin);
    let y = range_end(lo, vals.len(), begin, end);
    assert forall|k: int| 0 <= k < n implies record_index(#[trigger] full[k]) == lo + k by {
        lemma_key_index_roundtrip((lo + k) as u64);
    }
    lemma_range_of_contiguous(lo, vals, begin, end, n);
    assert(full.take(n) =~= full);
    let e = full.subrange(x, y);
    assert(records_in_range(full, begin, end) == e);
    assert(strictly_sorted_by_index(e)) by {
        assert forall|i: int, j: int| 0 <= i < j < e.len() implies record_index(e[i])
            < record_index(e[j]) by {
            assert(e[i] == full[x + i]);
            assert(e[j] == full[x + j]);
        }
    }
    lemma_sorted_is_range(log, full, e, begin, end);
    assert(e.map_values(|q: (Seq<u8>, Seq<u8>)| q.1) =~= vals.subrange(x, y));
}

/// The database, as a map from key to value, after the writes `ws` in order.
pub open spec fn after_writes(db: Map<Seq<u8>, Seq<u8>>, ws: Seq<(Seq<u8>, Seq<u8>)>) -> Map<
    Seq<u8>,
    Seq<u8>,
>
    decreases ws.len(),
{
    if ws.len() == 0 {
        db
    } else {
        after_writes(db, ws.drop_last()).insert(ws.last().0, ws.last().1)
    }
}

/// Whether a key carries the three-byte `prefix`.
pub open spec fn has_prefix(key: Seq<u8>, prefix: Seq<u8>) -> bool {
    key.len() >= 3 && key.subrange(0, 3) == prefix
}

/// `log` lists the records of `db` whose key carries `prefix`, each once and
/// nothing else, in any order: what the database hands out for that prefix.
pub open spec fn is_listing_of(
    log: Seq<(Seq<u8>, Seq<u8>)>,
    db: Map<Seq<u8>, Seq<u8>>,
    prefix: Seq<u8>,
) -> bool {
    &&& log.no_duplicates()
    &&& forall|p: (Seq<u8>, Seq<u8>)|
        #[trigger] log.contains(p) <==> (has_prefix(p.0, prefix) && db.contains_key(p.0) && db[p.0]
            == p.1)
}

/// The key of the log entry at position `i` of a log starting at index `lo`.
pub open spec fn log_key_at(lo: u64, i: int) -> Seq<u8> {
    log_key_spec((lo + i) as u64)
}

proof fn lemma_log_writes_land(db0: Map<Seq<u8>, Seq<u8>>, lo: u64, vals: Seq<Seq<u8>>, m: int)
    requires
        lo + vals.len() <= u64::MAX + 1,
        0 <= m <= vals.len(),
        forall|k: Seq<u8>| #[trigger] db0.contains_key(k) ==> !has_prefix(k, log_prefix()),
    ensures
        ({
            let db = after_writes(db0, log_records(lo, vals).take(m));
            forall|k: Seq<u8>|
                has_prefix(k, log_prefix()) ==> (#[trigger] db.contains_key(k) <==> exists|i: int|
                    0 <= i < m && k == #[trigger] log_key_at(lo, i))
        }),
        forall|i: int|
            0 <= i < m ==> #[trigger] after_writes(db0, log_records(lo, vals).take(m))[log_key_at(
                lo,
                i,
            )] == vals[i],
    decreases m,
{
    let full = log_records(lo, vals);
    if m == 0 {
        assert(full.take(0) =~= Seq::<(Seq<u8>, Seq<u8>)>::empty());
    } else {
        lemma_log_writes_land(db0, lo, vals, m - 1);
        let t = full.take(m);
        assert(t.drop_last() =~= full.take(m - 1));
        assert(t.last() == full[m - 1]);
        let prev = after_writes(db0, full.take(m - 1));
        let db = after_writes(db0, t);
        assert(db == prev.insert(log_key_at(lo, m - 1), vals[m - 1]));
        assert forall|k: Seq<u8>| has_prefix(k, log_prefix()) implies (#[trigger] db.contains_key(k)
            <==> exists|i: int| 0 <= i < m && k == log_key_at(lo, i)) by {
            if db.contains_key(k) && k != log_key_at(lo, m - 1) {
                assert(prev.contains_key(k));
                let i = choose|i: int| 0 <= i < m - 1 && k == log_key_at(lo, i);
                assert(0 <= i < m && k == log_key_at(lo, i));
            }
        }
        assert forall|i: int| 0 <= i < m implies #[trigger] db[log_key_at(lo, i)]
            == vals[i] by {
            if i < m - 1 {
                lemma_index_keys_injective((lo + i) as u64, (lo + m - 1) as u64);
            }
        }
    }
}

/// Reading back a log after it was written: starting from a database with no
/// log record, after the writes that append the entries holding `vals` at the
/// indices from `lo` on (the writes of `append_entry_to_log` and
/// `replicate_to_log`, in index order), a read from `begin` to `end` over what
/// the database lists under the log prefix gives the values of the indices in
/// `[begin, end)` that were written, in index order, as they were written.
pub proof fn lemma_read_back_writes(
    db0: Map<Seq<u8>, Seq<u8>>,
    lo: u64,
    vals: Seq<Seq<u8>>,
    log: Seq<(Seq<u8>, Seq<u8>)>,
    begin: u64,
    end: u64,
)
    requires
        lo + vals.len() <= u64::MAX + 1,
        forall|k: Seq<u8>| #[trigger] db0.contains_key(k) ==> !has_prefix(k, log_prefix()),
        is_listing_of(log, after_writes(db0, log_records(lo, vals)), log_prefix()),
    ensures
        logs_in_range(log, begin, end) == vals.subrange(
            range_start(lo, vals.len(), begin),
            range_end(lo, vals.len(), begin, end),
        ),
{
    broadcast use vstd::multiset::group_multiset_axioms;

    let n = vals.len() as int;
    let full = log_records(lo, vals);
    let db = after_writes(db0, full);
    lemma_log_writes_land(db0, lo, vals, n);
    assert(full.take(n) =~= full);
    assert forall|k: int| 0 <= k < n implies record_index(#[trigger] full[k]) == lo + k by {
        lemma_key_index_roundtrip((lo + k) as u64);
    }
    assert forall|k: int| 0 <= k < n implies has_prefix(#[trigger] full[k].0, log_prefix()) by {
        assert(full[k].0.subrange(0, 3) =~= log_prefix());
    }
    let dbm = after_writes(db0, full.take(n));
    assert(dbm == db);
    // The listing and the writes hold the same records.
    assert forall|p: (Seq<u8>, Seq<u8>)| log.contains(p) implies full.contains(p) by {
        assert(has_prefix(p.0, log_prefix()) && db.contains_key(p.0) && db[p.0] == p.1);
        assert(dbm.contains_key(p.0));
        let i = choose|i: int| 0 <= i < n && p.0 == log_key_at(lo, i);
        assert(dbm[log_key_at(lo, i)] == vals[i]);
        assert(full[i] == p);
    }
    assert forall|p: (Seq<u8>, Seq<u8>)| full.contains(p) implies log.contains(p) by {
        let i = choose|i: int| 0 <= i < n && full[i] == p;
        assert(p.0 == log_key_at(lo, i));
        assert(has_prefix(full[i].0, log_prefix()));
        assert(dbm.contains_key(log_key_at(lo, i)));
        assert(dbm[log_key_at(lo, i)] == vals[i]);
    }
    assert(full.no_duplicates()) by {
        assert forall|i: int, j: int| 0 <= i < n && 0 <= j < n && i != j implies full[i]
            != full[j] by {
            assert(record_index(full[i]) != record_index(full[j]));
        }
    }
    log.lemma_multiset_has_no_duplicates();
    full.lemma_multiset_has_no_duplicates();
    assert forall|p: (Seq<u8>, Seq<u8>)| log.to_multiset().count(p) == full.to_multiset().count(
        p,
    ) by {
        if log.contains(p) {
            assert(log.to_multiset().contains(p));
            assert(full.to_multiset().contains(p));
        } else {
            assert(log.to_multiset().count(p) == 0);
            assert(full.to_multiset().count(p) == 0);
        }
    }
    assert(log.to_multiset() =~= full.to_multiset());
    lemma_read_back_log(log, lo, vals, begin, end);
}

/// The highest index of a listing: 0 for none, at least the index of every
/// record, and the index of one of them when there is any.
pub proof fn lemma_highest_index(s: Seq<(Seq<u8>, Seq<u8>)>)
    ensures
        s.len() == 0 ==> highest_index(s) == 0,
        forall|i: int| 0 <= i < s.len() ==> record_index(#[trigger] s[i]) <= highest_index(s),
        s.len() > 0 ==> exists|i: int| 0 <= i < s.len() && record_index(#[trigger] s[i]) == highest_index(s),
    decreases s.len(),
{
    if s.len() > 0 {
        let d = s.drop_last();
        lemma_highest_index(d);
        assert forall|i: int| 0 <= i < s.len() implies record_index(#[trigger] s[i]) <= highest_index(s) by {
            if i < s.len() - 1 {
                assert(s[i] == d[i]);
            }
        }
        if record_index(s.last()) > highest_index(d) || d.len() == 0 {
            assert(record_index(s[s.len() - 1]) == highest_index(s));
        } else {
            let i = choose|i: int| 0 <= i < d.len() && record_index(#[trigger] d[i]) == highest_index(d);
            assert(s[i] == d[i]);
        }
    }
}

} // verus!
