//! Deduplication and global ordering of the records gathered from cells.
use vstd::prelude::*;
use crate::types::Record;
use vstd::utf8::{encode_utf8, encode_utf8_decode_utf8};

verus! {

/// Some record of `s` has the view `v`.
pub open spec fn holds_record(s: Seq<Record>, v: (Seq<char>, u64)) -> bool {
    exists|i: int| 0 <= i < s.len() && #[trigger] s[i]@ == v
}

/// The first occurrence of each record, in order of first appearance.
pub open spec fn dedup(s: Seq<Record>) -> Seq<Record>
    decreases s.len(),
{
    if s.len() == 0 {
        seq![]
    } else if holds_record(s.drop_last(), s.last()@) {
        dedup(s.drop_last())
    } else {
        dedup(s.drop_last()).push(s.last())
    }
}

/// The bytes of a record's canonical encoding.
pub open spec fn content_bytes(r: Record) -> Seq<u8> {
    encode_utf8(r.content@)
}

/// `a` comes before `b` in byte-wise lexicographic order.
pub open spec fn bytes_less(a: Seq<u8>, b: Seq<u8>) -> bool
    decreases a.len(),
{
    if a.len() == 0 {
        b.len() > 0
    } else if b.len() == 0 {
        false
    } else if a[0] != b[0] {
        a[0] < b[0]
    } else {
        bytes_less(a.subrange(1, a.len() as int), b.subrange(1, b.len() as int))
    }
}

/// `a` is ordered before `b`: it is newer, or as new and its encoding comes
/// first. The order depends on the records alone.
pub open spec fn precedes(a: Record, b: Record) -> bool {
    a.timestamp > b.timestamp || (a.timestamp == b.timestamp && bytes_less(content_bytes(a), content_bytes(b)))
}

/// Number of leading records of an ordered sequence that stay ahead of `x`:
/// those that `x` does not precede.
pub open spec fn split_point(s: Seq<Record>, x: Record) -> int
    decreases s.len(),
{
    if s.len() == 0 {
        0
    } else if precedes(x, s.last()) {
        split_point(s.drop_last(), x)
    } else {
        s.len() as int
    }
}

pub open spec fn insert_ordered(s: Seq<Record>, x: Record) -> Seq<Record> {
    let k = split_point(s, x);
    s.subrange(0, k) + seq![x] + s.subrange(k, s.len() as int)
}

/// Records ordered by timestamp, newest first, and records of equal
/// timestamp by their encoding.
pub open spec fn sort_records(s: Seq<Record>) -> Seq<Record>
    decreases s.len(),
{
    if s.len() == 0 {
        seq![]
    } else {
        insert_ordered(sort_records(s.drop_last()), s.last())
    }
}

/// The aggregated form of a set of records: deduplicated, then ordered.
pub open spec fn aggregated(s: Seq<Record>) -> Seq<Record> {
    sort_records(dedup(s))
}

pub open spec fn views(s: Seq<Record>) -> Seq<(Seq<char>, u64)> {
    s.map_values(|r: Record| r@)
}

/// No record of `s` is preceded by a later one.
pub open spec fn in_order(s: Seq<Record>) -> bool {
    forall|i: int, j: int| 0 <= i < j < s.len() ==> !precedes(s[j], s[i])
}

pub open spec fn distinct_records(s: Seq<Record>) -> bool {
    forall|i: int, j: int| 0 <= i < s.len() && 0 <= j < s.len() && i != j ==> s[i]@ != s[j]@
}

pub proof fn lemma_dedup(s: Seq<Record>)
    ensures
        distinct_records(dedup(s)),
        forall|v: (Seq<char>, u64)|
            #![trigger holds_record(dedup(s), v)]
            #![trigger holds_record(s, v)]
            holds_record(dedup(s), v) <==> holds_record(s, v),
    decreases s.len(),
{
    if s.len() > 0 {
        let p = s.drop_last();
        lemma_dedup(p);
        let d = dedup(p);
        assert forall|v: (Seq<char>, u64)| holds_record(dedup(s), v) <==> holds_record(s, v) by {
            if holds_record(s, v) {
                let i = choose|i: int| 0 <= i < s.len() && #[trigger] s[i]@ == v;
                if i < s.len() - 1 {
                    assert(p[i] == s[i]);
                    assert(holds_record(p, v));
                    if !holds_record(p, s.last()@) {
                        let j = choose|j: int| 0 <= j < d.len() && #[trigger] d[j]@ == v;
                        assert(dedup(s)[j] == d[j]);
                    }
                } else if holds_record(p, s.last()@) {
                    assert(holds_record(d, v));
                } else {
                    assert(dedup(s)[d.len() as int] == s.last());
                }
            }
            if holds_record(dedup(s), v) {
                let i = choose|i: int| 0 <= i < dedup(s).len() && #[trigger] dedup(s)[i]@ == v;
                if holds_record(p, s.last()@) {
                    assert(holds_record(d, v));
                    let j = choose|j: int| 0 <= j < p.len() && #[trigger] p[j]@ == v;
                    assert(s[j] == p[j]);
                } else if i < d.len() {
                    assert(dedup(s)[i] == d[i]);
                    assert(holds_record(d, v));
                    let j = choose|j: int| 0 <= j < p.len() && #[trigger] p[j]@ == v;
                    assert(s[j] == p[j]);
                } else {
                    assert(s[s.len() - 1]@ == v);
                }
            }
        }
        if !holds_record(p, s.last()@) {
            let e = dedup(s);
            assert forall|i: int, j: int| 0 <= i < e.len() && 0 <= j < e.len() && i != j implies e[i]@ != e[j]@ by {
                if i < d.len() && j < d.len() {
                    assert(e[i] == d[i] && e[j] == d[j]);
                } else if i < d.len() {
                    assert(e[i] == d[i]);
                    if e[i]@ == e[j]@ {
                        assert(holds_record(d, s.last()@));
                    }
                } else {
                    assert(e[j] == d[j]);
                    if e[i]@ == e[j]@ {
                        assert(holds_record(d, s.last()@));
                    }
                }
            }
        }
    }
}

pub proof fn lemma_bytes_less(a: Seq<u8>, b: Seq<u8>)
    ensures
        !(bytes_less(a, b) && bytes_less(b, a)),
        a == b ==> !bytes_less(a, b),
        a != b ==> bytes_less(a, b) || bytes_less(b, a),
    decreases a.len(),
{
    if a.len() > 0 && b.len() > 0 && a[0] == b[0] {
        let a1 = a.subrange(1, a.len() as int);
        let b1 = b.subrange(1, b.len() as int);
        lemma_bytes_less(a1, b1);
        if a != b {
            assert(a1 != b1) by {
                if a1 == b1 {
                    assert(a =~= seq![a[0]] + a1);
                    assert(b =~= seq![b[0]] + b1);
                }
            }
        }
    }
    if a.len() == 0 && b.len() == 0 {
        assert(a =~= b);
    }
}

pub proof fn lemma_bytes_less_trans(a: Seq<u8>, b: Seq<u8>, c: Seq<u8>)
    requires
        bytes_less(a, b),
        bytes_less(b, c),
    ensures
        bytes_less(a, c),
    decreases a.len(),
{
    if a.len() > 0 && b.len() > 0 && c.len() > 0 && a[0] == b[0] && b[0] == c[0] {
        lemma_bytes_less_trans(
            a.subrange(1, a.len() as int),
            b.subrange(1, b.len() as int),
            c.subrange(1, c.len() as int),
        );
    }
}

/// `precedes` is a strict order, total on records that differ.
pub proof fn lemma_precedes(a: Record, b: Record)
    ensures
        !(precedes(a, b) && precedes(b, a)),
        a@ == b@ ==> !precedes(a, b),
        a@ != b@ ==> precedes(a, b) || precedes(b, a),
        !precedes(a, b) && !precedes(b, a) ==> a.timestamp == b.timestamp && content_bytes(a)
            == content_bytes(b),
{
    lemma_bytes_less(content_bytes(a), content_bytes(b));
    if a@ != b@ && a.timestamp == b.timestamp {
        encode_utf8_decode_utf8(a.content@);
        encode_utf8_decode_utf8(b.content@);
    }
}

pub proof fn lemma_precedes_trans(a: Record, b: Record, c: Record)
    requires
        precedes(a, b),
        precedes(b, c),
    ensures
        precedes(a, c),
{
    if a.timestamp == b.timestamp && b.timestamp == c.timestamp {
        lemma_bytes_less_trans(content_bytes(a), content_bytes(b), content_bytes(c));
    }
}

/// Not being preceded is transitive.
pub proof fn lemma_not_preceded_trans(a: Record, b: Record, c: Record)
    requires
        !precedes(b, a),
        !precedes(c, b),
    ensures
        !precedes(c, a),
{
    lemma_precedes(a, b);
    lemma_precedes(b, c);
    lemma_precedes(a, c);
    if precedes(a, b) && precedes(b, c) {
        lemma_precedes_trans(a, b, c);
    }
}

pub proof fn lemma_split_point(s: Seq<Record>, x: Record)
    ensures
        0 <= split_point(s, x) <= s.len(),
        forall|j: int| split_point(s, x) <= j < s.len() ==> precedes(x, #[trigger] s[j]),
        split_point(s, x) > 0 ==> !precedes(x, s[split_point(s, x) - 1]),
    decreases s.len(),
{
    if s.len() > 0 {
        lemma_split_point(s.drop_last(), x);
        if precedes(x, s.last()) {
            assert forall|j: int| split_point(s, x) <= j < s.len() implies precedes(x, #[trigger] s[j]) by {
                if j < s.len() - 1 {
                    assert(s.drop_last()[j] == s[j]);
                }
            }
            if split_point(s, x) > 0 {
                assert(s.drop_last()[split_point(s, x) - 1] == s[split_point(s, x) - 1]);
            }
        }
    }
}

pub proof fn lemma_sort_records(s: Seq<Record>)
    ensures
        sort_records(s).len() == s.len(),
        in_order(sort_records(s)),
        forall|v: (Seq<char>, u64)|
            #![trigger holds_record(sort_records(s), v)]
            #![trigger holds_record(s, v)]
            holds_record(sort_records(s), v) <==> holds_record(s, v),
        distinct_records(s) ==> distinct_records(sort_records(s)),
    decreases s.len(),
{
    if s.len() > 0 {
        let p = s.drop_last();
        let x = s.last();
        lemma_sort_records(p);
        let q = sort_records(p);
        let k = split_point(q, x);
        lemma_split_point(q, x);
        let r = sort_records(s);
        assert(r == q.subrange(0, k) + seq![x] + q.subrange(k, q.len() as int));
        assert(r.len() == s.len());
        assert forall|j: int| 0 <= j < r.len() implies #[trigger] r[j] == if j < k {
            q[j]
        } else if j == k {
            x
        } else {
            q[j - 1]
        } by {}
        assert forall|i: int, j: int| 0 <= i < j < r.len() implies !precedes(r[j], r[i]) by {
            if j < k {
            } else if j == k {
                if i < k - 1 {
                    lemma_not_preceded_trans(q[i], q[k - 1], x);
                }
            } else if i == k {
                lemma_precedes(x, q[j - 1]);
            } else if i < k {
            } else {
            }
        }
        assert forall|v: (Seq<char>, u64)| holds_record(r, v) <==> holds_record(s, v) by {
            if holds_record(s, v) {
                let i = choose|i: int| 0 <= i < s.len() && #[trigger] s[i]@ == v;
                if i == s.len() - 1 {
                    assert(r[k]@ == v);
                } else {
                    assert(p[i] == s[i]);
                    assert(holds_record(q, v));
                    let j = choose|j: int| 0 <= j < q.len() && #[trigger] q[j]@ == v;
                    if j < k {
                        assert(r[j]@ == v);
                    } else {
                        assert(r[j + 1]@ == v);
                    }
                }
            }
            if holds_record(r, v) {
                let i = choose|i: int| 0 <= i < r.len() && #[trigger] r[i]@ == v;
                if i == k {
                    assert(s[s.len() - 1]@ == v);
                } else {
                    let j = if i < k {
                        i
                    } else {
                        i - 1
                    };
                    assert(q[j]@ == v);
                    assert(holds_record(p, v));
                    let m = choose|m: int| 0 <= m < p.len() && #[trigger] p[m]@ == v;
                    assert(s[m] == p[m]);
                }
            }
        }
        if distinct_records(s) {
            assert forall|i: int, j: int| 0 <= i < p.len() && 0 <= j < p.len() && i != j implies p[i]@
                != p[j]@ by {
                assert(p[i] == s[i] && p[j] == s[j]);
            }
            assert(!holds_record(q, x@)) by {
                if holds_record(q, x@) {
                    assert(holds_record(p, x@));
                    let m = choose|m: int| 0 <= m < p.len() && #[trigger] p[m]@ == x@;
                    assert(s[m] == p[m]);
                }
            }
            assert forall|i: int, j: int| 0 <= i < r.len() && 0 <= j < r.len() && i != j implies r[i]@
                != r[j]@ by {
                if i == k {
                    let jj = if j < k { j } else { j - 1 };
                    assert(r[j] == q[jj]);
                } else if j == k {
                    let ii = if i < k { i } else { i - 1 };
                    assert(r[i] == q[ii]);
                } else {
                    let ii = if i < k { i } else { i - 1 };
                    let jj = if j < k { j } else { j - 1 };
                    assert(r[i] == q[ii] && r[j] == q[jj]);
                }
            }
        }
    }
}

/// Whether byte string `a` comes before `b`.
fn bytes_less_exec(a: &[u8], b: &[u8]) -> (r: bool)
    ensures
        r == bytes_less(a@, b@),
{
    let mut i: usize = 0;
    assert(a@.subrange(0, a@.len() as int) =~= a@);
    assert(b@.subrange(0, b@.len() as int) =~= b@);
    while i < a.len() && i < b.len()
        invariant
            i <= a@.len(),
            i <= b@.len(),
            bytes_less(a@, b@) == bytes_less(
                a@.subrange(i as int, a@.len() as int),
                b@.subrange(i as int, b@.len() as int),
            ),
        decreases a@.len() - i,
    {
        let ghost sa = a@.subrange(i as int, a@.len() as int);
        let ghost sb = b@.subrange(i as int, b@.len() as int);
        assert(sa[0] == a@[i as int] && sb[0] == b@[i as int]);
        if a[i] != b[i] {
            return a[i] < b[i];
        }
        assert(sa.subrange(1, sa.len() as int) =~= a@.subrange(i + 1, a@.len() as int));
        assert(sb.subrange(1, sb.len() as int) =~= b@.subrange(i + 1, b@.len() as int));
        i += 1;
    }
    i == a.len() && i < b.len()
}

/// Whether record `a` is ordered before `b`.
pub fn record_precedes(a: &Record, b: &Record) -> (r: bool)
    ensures
        r == precedes(*a, *b),
{
    if a.timestamp != b.timestamp {
        return a.timestamp > b.timestamp;
    }
    bytes_less_exec(a.content.as_str().as_bytes(), b.content.as_str().as_bytes())
}

/// Whether `s` holds a record with the view `v`.
fn contains_view(s: &Vec<Record>, x: &Record) -> (r: bool)
    ensures
        r == holds_record(s@, x@),
{
    let mut i: usize = 0;
    while i < s.len()
        invariant
            i <= s@.len(),
            forall|j: int| 0 <= j < i ==> s@[j]@ != x@,
        decreases s@.len() - i,
    {
        if s[i].same_as(x) {
            assert(s@[i as int]@ == x@);
            return true;
        }
        i += 1;
    }
    false
}

/// Keeps the first occurrence of each record, in order of first appearance.
pub fn deduplicate_results(records: &Vec<Record>) -> (r: Vec<Record>)
    ensures
        r@ == dedup(records@),
{
    let mut out: Vec<Record> = Vec::new();
    let mut i: usize = 0;
    while i < records.len()
        invariant
            i <= records@.len(),
            out@ == dedup(records@.subrange(0, i as int)),
        decreases records@.len() - i,
    {
        let ghost pre = records@.subrange(0, i as int);
        let ghost next = records@.subrange(0, i + 1);
        assert(next.drop_last() =~= pre);
        proof {
            lemma_dedup(pre);
        }
        if !contains_view(&out, &records[i]) {
            out.push(records[i].duplicate());
        }
        i += 1;
    }
    assert(records@.subrange(0, i as int) =~= records@);
    out
}

/// Orders records by timestamp, newest first; records with equal
/// timestamps are ordered by their encoding, so that the order does not
/// depend on the order in which they arrived.
pub fn apply_global_sorting(records: Vec<Record>) -> (r: Vec<Record>)
    ensures
        r@ == sort_records(records@),
{
    let ghost all = records@;
    let mut rest = records;
    let mut out: Vec<Record> = Vec::new();
    let ghost mut taken: int = 0;
    while rest.len() > 0
        invariant
            0 <= taken <= all.len(),
            rest@ == all.subrange(taken, all.len() as int),
            out@ == sort_records(all.subrange(0, taken)),
        decreases rest@.len(),
    {
        let x = rest.remove(0);
        let ghost q = out@;
        let mut k: usize = out.len();
        assert(q.subrange(0, k as int) =~= q);
        while k > 0 && record_precedes(&x, &out[k - 1])
            invariant
                out@ == q,
                k <= q.len(),
                split_point(q, x) == split_point(q.subrange(0, k as int), x),
            decreases k,
        {
            assert(q.subrange(0, k as int).drop_last() =~= q.subrange(0, k - 1));
            k -= 1;
        }
        proof {
            if k > 0 {
                assert(q.subrange(0, k as int).last() == q[k - 1]);
            }
        }
        let ghost xv = x;
        out.insert(k, x);
        proof {
            let next = all.subrange(0, taken + 1);
            assert(next.drop_last() =~= all.subrange(0, taken));
            assert(next.last() == xv);
            assert(out@ =~= insert_ordered(q, xv));
            taken = taken + 1;
            assert(rest@ =~= all.subrange(taken, all.len() as int));
        }
    }
    assert(all.subrange(0, taken) =~= all);
    out
}

/// `a` and `b` hold the same records, in any order and number.
pub open spec fn same_records(a: Seq<Record>, b: Seq<Record>) -> bool {
    forall|v: (Seq<char>, u64)|
        #![trigger holds_record(a, v)]
        #![trigger holds_record(b, v)]
        holds_record(a, v) <==> holds_record(b, v)
}

/// Each record of `s` precedes every later one.
pub open spec fn strictly_in_order(s: Seq<Record>) -> bool {
    forall|i: int, j: int| 0 <= i < j < s.len() ==> precedes(s[i], s[j])
}

proof fn lemma_strict_order_unique(p: Seq<Record>, q: Seq<Record>)
    requires
        same_records(p, q),
        strictly_in_order(p),
        strictly_in_order(q),
    ensures
        views(p) == views(q),
    decreases p.len(),
{
    if p.len() == 0 {
        if q.len() > 0 {
            assert(holds_record(q, q[0]@));
        }
        assert(views(p) =~= views(q));
    } else {
        assert(holds_record(p, p[0]@));
        let j = choose|j: int| 0 <= j < q.len() && #[trigger] q[j]@ == p[0]@;
        assert(holds_record(q, q[0]@));
        let i = choose|i: int| 0 <= i < p.len() && #[trigger] p[i]@ == q[0]@;
        assert(p[0]@ == q[0]@) by {
            lemma_precedes(p[0], q[0]);
            if i > 0 {
                assert(precedes(p[0], p[i]));
                lemma_precedes(p[0], p[i]);
                if j > 0 {
                    assert(precedes(q[0], q[j]));
                }
            } else if j > 0 {
                assert(precedes(q[0], q[j]));
                lemma_precedes(q[0], q[j]);
            }
        }
        let p1 = p.subrange(1, p.len() as int);
        let q1 = q.subrange(1, q.len() as int);
        assert forall|v: (Seq<char>, u64)| holds_record(p1, v) <==> holds_record(q1, v) by {
            if holds_record(p1, v) {
                let m = choose|m: int| 0 <= m < p1.len() && #[trigger] p1[m]@ == v;
                assert(p[m + 1]@ == v);
                assert(holds_record(p, v));
                let n = choose|n: int| 0 <= n < q.len() && #[trigger] q[n]@ == v;
                assert(precedes(p[0], p[m + 1]));
                lemma_precedes(p[0], p[m + 1]);
                assert(n != 0);
                assert(q1[n - 1]@ == v);
            }
            if holds_record(q1, v) {
                let m = choose|m: int| 0 <= m < q1.len() && #[trigger] q1[m]@ == v;
                assert(q[m + 1]@ == v);
                assert(holds_record(q, v));
                let n = choose|n: int| 0 <= n < p.len() && #[trigger] p[n]@ == v;
                assert(precedes(q[0], q[m + 1]));
                lemma_precedes(q[0], q[m + 1]);
                assert(n != 0);
                assert(p1[n - 1]@ == v);
            }
        }
        lemma_strict_order_unique(p1, q1);
        assert(views(p) =~= seq![p[0]@] + views(p1));
        assert(views(q) =~= seq![q[0]@] + views(q1));
    }
}

proof fn lemma_aggregated_strict(s: Seq<Record>)
    ensures
        strictly_in_order(aggregated(s)),
        same_records(aggregated(s), s),
{
    let d = dedup(s);
    lemma_dedup(s);
    lemma_sort_records(d);
    let r = aggregated(s);
    assert forall|i: int, j: int| 0 <= i < j < r.len() implies precedes(r[i], r[j]) by {
        lemma_precedes(r[i], r[j]);
    }
}

/// Aggregation does not depend on the order of the records nor on repeated
/// records: two inputs that hold the same records give the same output.
pub proof fn lemma_aggregation_order_independent(a: Seq<Record>, b: Seq<Record>)
    requires
        same_records(a, b),
    ensures
        views(aggregated(a)) == views(aggregated(b)),
{
    lemma_aggregated_strict(a);
    lemma_aggregated_strict(b);
    lemma_strict_order_unique(aggregated(a), aggregated(b));
}

/// Aggregating an aggregated sequence changes nothing.
pub proof fn lemma_aggregation_idempotent(a: Seq<Record>)
    ensures
        views(aggregated(aggregated(a))) == views(aggregated(a)),
{
    let r = aggregated(a);
    lemma_aggregated_strict(a);
    lemma_aggregated_strict(r);
    assert(same_records(aggregated(r), r));
    lemma_strict_order_unique(aggregated(r), r);
}

} // verus!
