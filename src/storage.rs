//! A data cell's own storage: records by identifier, and secondary indexes
//! from a field's value to the records that hold it.
use vstd::prelude::*;

verus! {

/// Position of the record `id` in `records`, or -1 when there is none.
pub open spec fn record_index(records: Seq<(String, Vec<u8>)>, id: Seq<char>) -> int
    decreases records.len(),
{
    if records.len() == 0 {
        -1
    } else if records.last().0@ == id {
        records.len() - 1
    } else {
        record_index(records.drop_last(), id)
    }
}

pub proof fn lemma_record_index(records: Seq<(String, Vec<u8>)>, id: Seq<char>)
    ensures
        -1 <= record_index(records, id) < records.len(),
        record_index(records, id) >= 0 ==> records[record_index(records, id)].0@ == id,
        record_index(records, id) == -1 <==> forall|i: int| 0 <= i < records.len() ==> records[i].0@ != id,
    decreases records.len(),
{
    if records.len() > 0 {
        lemma_record_index(records.drop_last(), id);
        if records.last().0@ != id && record_index(records, id) == -1 {
            assert forall|i: int| 0 <= i < records.len() implies records[i].0@ != id by {
                if i < records.len() - 1 {
                    assert(records.drop_last()[i] == records[i]);
                }
            }
        }
    }
}

pub open spec fn record_ids_distinct(records: Seq<(String, Vec<u8>)>) -> bool {
    forall|i: int, j: int|
        0 <= i < records.len() && 0 <= j < records.len() && i != j ==> records[i].0@ != records[j].0@
}

/// The records as a map from identifier to bytes.
pub open spec fn records_map(records: Seq<(String, Vec<u8>)>) -> Map<Seq<char>, Seq<u8>> {
    Map::new(
        |id: Seq<char>| record_index(records, id) >= 0,
        |id: Seq<char>| records[record_index(records, id)].1@,
    )
}

/// One secondary index entry: the records whose field `field_name` holds
/// `field_value`.
#[derive(Clone, Debug, PartialEq, Eq)]
pub struct IndexEntry {
    pub field_name: String,
    pub field_value: String,
    pub record_ids: Vec<String>,
}

pub open spec fn index_index(entries: Seq<IndexEntry>, field: Seq<char>, value: Seq<char>) -> int
    decreases entries.len(),
{
    if entries.len() == 0 {
        -1
    } else if entries.last().field_name@ == field && entries.last().field_value@ == value {
        entries.len() - 1
    } else {
        index_index(entries.drop_last(), field, value)
    }
}

pub proof fn lemma_index_index(entries: Seq<IndexEntry>, field: Seq<char>, value: Seq<char>)
    ensures
        -1 <= index_index(entries, field, value) < entries.len(),
        index_index(entries, field, value) >= 0 ==> entries[index_index(entries, field, value)].field_name@
            == field && entries[index_index(entries, field, value)].field_value@ == value,
        forall|j: int|
            index_index(entries, field, value) < j < entries.len() ==> !(#[trigger] entries[j].field_name@ == field
                && entries[j].field_value@ == value),
    decreases entries.len(),
{
    if entries.len() > 0 {
        lemma_index_index(entries.drop_last(), field, value);
        assert forall|j: int|
            index_index(entries, field, value) < j < entries.len() implies !(#[trigger] entries[j].field_name@ == field
                && entries[j].field_value@ == value) by {
            if j < entries.len() - 1 {
                assert(entries.drop_last()[j] == entries[j]);
            }
        }
    }
}

/// The (field, value) key of an index entry.
pub open spec fn index_key(e: IndexEntry) -> (Seq<char>, Seq<char>) {
    (e.field_name@, e.field_value@)
}

pub open spec fn index_keys(entries: Seq<IndexEntry>) -> Seq<(Seq<char>, Seq<char>)> {
    entries.map_values(|e: IndexEntry| index_key(e))
}

/// No two index entries share a (field, value) key.
pub open spec fn index_keys_distinct(entries: Seq<IndexEntry>) -> bool {
    forall|i: int, j: int|
        0 <= i < entries.len() && 0 <= j < entries.len() && i != j ==> index_key(entries[i]) != index_key(
            entries[j],
        )
}

pub open spec fn strings_view(s: Seq<String>) -> Seq<Seq<char>> {
    s.map_values(|x: String| x@)
}

/// The identifiers indexed under `field` = `value`.
pub open spec fn indexed_ids(entries: Seq<IndexEntry>, field: Seq<char>, value: Seq<char>) -> Seq<Seq<char>> {
    let i = index_index(entries, field, value);
    if i >= 0 {
        strings_view(entries[i].record_ids@)
    } else {
        seq![]
    }
}

pub struct StorageStats {
    pub record_count: u64,
    pub index_count: u64,
    pub memory_usage: u64,
}

/// What the storage hands over across an upgrade.
pub struct StorageSnapshot {
    pub records: Vec<(String, Vec<u8>)>,
    pub indexes: Vec<IndexEntry>,
}

/// Records and indexes of a data cell.
pub struct Storage {
    records: Vec<(String, Vec<u8>)>,
    indexes: Vec<IndexEntry>,
}

/// Copy of a byte vector.
fn copy_bytes(b: &Vec<u8>) -> (r: Vec<u8>)
    ensures
        r@ == b@,
{
    let mut r: Vec<u8> = Vec::new();
    let mut i: usize = 0;
    while i < b.len()
        invariant
            i <= b@.len(),
            r@ == b@.subrange(0, i as int),
        decreases b@.len() - i,
    {
        r.push(b[i]);
        i += 1;
        assert(r@ =~= b@.subrange(0, i as int));
    }
    assert(b@.subrange(0, i as int) =~= b@);
    r
}

/// Copy of a list of strings.
fn copy_strings(s: &Vec<String>) -> (r: Vec<String>)
    ensures
        r@ == s@,
{
    let mut r: Vec<String> = Vec::new();
    let mut i: usize = 0;
    while i < s.len()
        invariant
            i <= s@.len(),
            r@ == s@.subrange(0, i as int),
        decreases s@.len() - i,
    {
        r.push(s[i].clone());
        i += 1;
        assert(r@ =~= s@.subrange(0, i as int));
    }
    assert(s@.subrange(0, i as int) =~= s@);
    r
}

impl Storage {
    pub closed spec fn records(&self) -> Seq<(String, Vec<u8>)> {
        self.records@
    }

    pub closed spec fn indexes(&self) -> Seq<IndexEntry> {
        self.indexes@
    }

    pub open spec fn wf(&self) -> bool {
        &&& record_ids_distinct(self.records())
        &&& index_keys_distinct(self.indexes())
    }

    /// The stored records, by identifier.
    pub open spec fn contents(&self) -> Map<Seq<char>, Seq<u8>> {
        records_map(self.records())
    }

    /// Empty storage.
    pub fn init() -> (r: Storage)
        ensures
            r.wf(),
            r.records().len() == 0,
            r.indexes().len() == 0,
    {
        Storage { records: Vec::new(), indexes: Vec::new() }
    }

    fn find_record(&self, id: &String) -> (r: Option<usize>)
        ensures
            match r {
                Some(i) => i as int == record_index(self.records(), id@),
                None => record_index(self.records(), id@) == -1,
            },
    {
        let mut i: usize = self.records.len();
        assert(self.records@.subrange(0, i as int) =~= self.records@);
        while i > 0
            invariant
                i <= self.records@.len(),
                record_index(self.records@, id@) == record_index(self.records@.subrange(0, i as int), id@),
            decreases i,
        {
            assert(self.records@.subrange(0, i as int).drop_last() =~= self.records@.subrange(0, i - 1));
            if self.records[i - 1].0 == *id {
                return Some(i - 1);
            }
            i -= 1;
        }
        None
    }

    /// Stores `data` under `record_id`, replacing what was stored there.
    pub fn store_record(&mut self, record_id: String, data: Vec<u8>) -> (r: Result<(), String>)
        requires
            old(self).wf(),
        ensures
            r is Ok,
            final(self).wf(),
            final(self).indexes() == old(self).indexes(),
            final(self).contents() == old(self).contents().insert(record_id@, data@),
    {
        let ghost old_records = self.records@;
        let ghost id = record_id@;
        let ghost bytes = data@;
        proof {
            lemma_record_index(old_records, id);
        }
        let pos: usize;
        match self.find_record(&record_id) {
            Some(i) => {
                self.records.set(i, (record_id, data));
                pos = i;
            },
            None => {
                pos = self.records.len();
                self.records.push((record_id, data));
            },
        }
        proof {
            let c = self.records@;
            assert forall|a: int, b: int| 0 <= a < c.len() && 0 <= b < c.len() && a != b implies c[a].0@ != c[b].0@ by {
                if a != pos {
                    assert(c[a] == old_records[a]);
                }
                if b != pos {
                    assert(c[b] == old_records[b]);
                }
            }
            assert forall|x: Seq<char>| #[trigger] record_index(c, x) >= 0 <==> (x == id || record_index(old_records, x) >= 0) by {
                lemma_record_index(c, x);
                lemma_record_index(old_records, x);
                if x == id {
                    assert(c[pos as int].0@ == x);
                } else if record_index(old_records, x) >= 0 {
                    let k = record_index(old_records, x);
                    assert(c[k] == old_records[k]);
                } else {
                    assert forall|j: int| 0 <= j < c.len() implies c[j].0@ != x by {
                        if j != pos {
                            assert(c[j] == old_records[j]);
                        }
                    }
                }
            }
            assert forall|x: Seq<char>| record_index(c, x) >= 0 implies #[trigger] c[record_index(c, x)].1@ == if x == id {
                bytes
            } else {
                old_records[record_index(old_records, x)].1@
            } by {
                lemma_record_index(c, x);
                lemma_record_index(old_records, x);
                let j = record_index(c, x);
                if j != pos {
                    assert(c[j] == old_records[j]);
                    lemma_record_index_at(old_records, x, j);
                } else {
                    assert(x == id);
                }
            }
            assert(records_map(c) =~= records_map(old_records).insert(id, bytes));
        }
        Ok(())
    }

    /// The bytes stored under `record_id`.
    pub fn get_record(&self, record_id: &String) -> (r: Option<Vec<u8>>)
        ensures
            match r {
                Some(b) => self.contents().contains_key(record_id@) && b@ == self.contents()[record_id@],
                None => !self.contents().contains_key(record_id@),
            },
    {
        proof {
            lemma_record_index(self.records@, record_id@);
        }
        match self.find_record(record_id) {
            Some(i) => Some(copy_bytes(&self.records[i].1)),
            None => None,
        }
    }

    /// Removes the record `record_id`, handing back its bytes.
    pub fn delete_record(&mut self, record_id: &String) -> (r: Option<Vec<u8>>)
        requires
            old(self).wf(),
        ensures
            final(self).wf(),
            final(self).indexes() == old(self).indexes(),
            final(self).contents() == old(self).contents().remove(record_id@),
            match r {
                Some(b) => old(self).contents().contains_key(record_id@) && b@ == old(self).contents()[record_id@],
                None => !old(self).contents().contains_key(record_id@),
            },
    {
        let ghost old_records = self.records@;
        let ghost id = record_id@;
        proof {
            lemma_record_index(old_records, id);
        }
        match self.find_record(record_id) {
            None => {
                assert(records_map(old_records) =~= records_map(old_records).remove(id));
                None
            },
            Some(i) => {
                let (_, data) = self.records.remove(i);
                proof {
                    let c = self.records@;
                    assert(forall|j: int| 0 <= j < c.len() ==> #[trigger] c[j] == old_records[if j < i { j } else { j + 1 }]);
                    assert forall|a: int, b: int| 0 <= a < c.len() && 0 <= b < c.len() && a != b implies c[a].0@ != c[b].0@ by {
                        assert(c[a] == old_records[if a < i { a } else { a + 1 }]);
                        assert(c[b] == old_records[if b < i { b } else { b + 1 }]);
                    }
                    assert forall|x: Seq<char>| #[trigger] record_index(c, x) >= 0 <==> (x != id && record_index(old_records, x) >= 0) by {
                        lemma_record_index(c, x);
                        lemma_record_index(old_records, x);
                        if record_index(c, x) >= 0 {
                            let j = record_index(c, x);
                            assert(c[j] == old_records[if j < i { j } else { j + 1 }]);
                            if x == id {
                                lemma_record_index_at(old_records, id, i as int);
                                lemma_record_index_at(old_records, id, if j < i { j } else { j + 1 });
                            }
                        }
                        if x != id && record_index(old_records, x) >= 0 {
                            let k = record_index(old_records, x);
                            assert(k != i);
                            let j = if k < i { k } else { k - 1 };
                            assert(c[j] == old_records[k]);
                        }
                    }
                    assert forall|x: Seq<char>| record_index(c, x) >= 0 implies #[trigger] c[record_index(c, x)].1@
                        == old_records[record_index(old_records, x)].1@ by {
                        lemma_record_index(c, x);
                        let j = record_index(c, x);
                        let k = if j < i { j } else { j + 1 };
                        assert(c[j] == old_records[k]);
                        lemma_record_index_at(old_records, x, k);
                    }
                    assert(records_map(c) =~= records_map(old_records).remove(id));
                }
                Some(data)
            },
        }
    }

    fn find_index(&self, field_name: &String, field_value: &String) -> (r: Option<usize>)
        ensures
            match r {
                Some(i) => i as int == index_index(self.indexes(), field_name@, field_value@),
                None => index_index(self.indexes(), field_name@, field_value@) == -1,
            },
    {
        let mut i: usize = self.indexes.len();
        assert(self.indexes@.subrange(0, i as int) =~= self.indexes@);
        while i > 0
            invariant
                i <= self.indexes@.len(),
                index_index(self.indexes@, field_name@, field_value@) == index_index(
                    self.indexes@.subrange(0, i as int),
                    field_name@,
                    field_value@,
                ),
            decreases i,
        {
            assert(self.indexes@.subrange(0, i as int).drop_last() =~= self.indexes@.subrange(0, i - 1));
            if self.indexes[i - 1].field_name == *field_name && self.indexes[i - 1].field_value == *field_value {
                return Some(i - 1);
            }
            i -= 1;
        }
        None
    }

    /// Adds `record_id` to the index of `field_name` = `field_value`, unless
    /// it is there already.
    pub fn update_index(&mut self, field_name: String, field_value: String, record_id: String)
        requires
            old(self).wf(),
        ensures
            final(self).wf(),
            final(self).indexes().len() == old(self).indexes().len() + if index_index(
                old(self).indexes(),
                field_name@,
                field_value@,
            ) >= 0 {
                0int
            } else {
                1int
            },
            final(self).records() == old(self).records(),
            indexed_ids(final(self).indexes(), field_name@, field_value@) == if indexed_ids(
                old(self).indexes(),
                field_name@,
                field_value@,
            ).contains(record_id@) {
                indexed_ids(old(self).indexes(), field_name@, field_value@)
            } else {
                indexed_ids(old(self).indexes(), field_name@, field_value@).push(record_id@)
            },
            forall|f: Seq<char>, v: Seq<char>|
                !(f == field_name@ && v == field_value@) ==> #[trigger] indexed_ids(final(self).indexes(), f, v)
                    == indexed_ids(old(self).indexes(), f, v),
    {
        let ghost old_idx = self.indexes@;
        let ghost f0 = field_name@;
        let ghost v0 = field_value@;
        let ghost id0 = record_id@;
        proof {
            lemma_index_index(old_idx, f0, v0);
        }
        let pos: usize;
        match self.find_index(&field_name, &field_value) {
            Some(i) => {
                let ids = &self.indexes[i].record_ids;
                let mut j: usize = 0;
                while j < ids.len()
                    invariant
                        j <= ids@.len(),
                        i < self.indexes@.len(),
                        i as int == index_index(self.indexes@, field_name@, field_value@),
                        ids@ == self.indexes@[i as int].record_ids@,
                        *self == *old(self),
                        old(self).wf(),
                        forall|k: int| 0 <= k < j ==> ids@[k]@ != record_id@,
                    decreases ids@.len() - j,
                {
                    if ids[j] == record_id {
                        assert(strings_view(ids@)[j as int] == record_id@);
                        assert(indexed_ids(self.indexes@, field_name@, field_value@) == strings_view(ids@));
                        assert(strings_view(ids@).contains(record_id@));
                        assert(self.records() == old(self).records());
                        assert(self.indexes() == old(self).indexes());
                        return;
                    }
                    j += 1;
                }
                assert(!strings_view(ids@).contains(id0));
                let mut entry = self.indexes.remove(i);
                entry.record_ids.push(record_id);
                assert(strings_view(entry.record_ids@) =~= strings_view(old_idx[i as int].record_ids@).push(id0));
                self.indexes.insert(i, entry);
                assert(self.indexes@ =~= old_idx.update(i as int, self.indexes@[i as int]));
                pos = i;
            },
            None => {
                let mut ids: Vec<String> = Vec::new();
                ids.push(record_id);
                pos = self.indexes.len();
                self.indexes.push(IndexEntry { field_name, field_value, record_ids: ids });
                assert(strings_view(self.indexes@[pos as int].record_ids@) =~= seq![id0]);
            },
        }
        proof {
            let c = self.indexes@;
            assert(c.len() >= old_idx.len());
            assert(forall|j: int| 0 <= j < old_idx.len() && j != pos ==> #[trigger] c[j] == old_idx[j]);
            assert(index_key(c[pos as int]) == (f0, v0));
            assert forall|a: int, b: int|
                0 <= a < c.len() && 0 <= b < c.len() && a != b implies index_key(c[a]) != index_key(c[b]) by {
                if a != pos && b != pos {
                    assert(c[a] == old_idx[a] && c[b] == old_idx[b]);
                } else if a == pos {
                    assert(c[b] == old_idx[b]);
                    if pos < old_idx.len() {
                        assert(index_key(old_idx[pos as int]) == (f0, v0));
                    }
                } else {
                    assert(c[a] == old_idx[a]);
                    if pos < old_idx.len() {
                        assert(index_key(old_idx[pos as int]) == (f0, v0));
                    }
                }
            }
            lemma_index_last(c, f0, v0, pos as int);
            assert forall|f: Seq<char>, v: Seq<char>| !(f == f0 && v == v0) implies #[trigger] indexed_ids(c, f, v)
                == indexed_ids(old_idx, f, v) by {
                lemma_index_same(old_idx, c, f, v, pos as int);
            }
        }
    }

    /// The records indexed under `field_name` = `field_value`.
    pub fn query_by_index(&self, field_name: &String, field_value: &String) -> (r: Vec<String>)
        ensures
            strings_view(r@) == indexed_ids(self.indexes(), field_name@, field_value@),
    {
        proof {
            lemma_index_index(self.indexes@, field_name@, field_value@);
        }
        match self.find_index(field_name, field_value) {
            Some(i) => copy_strings(&self.indexes[i].record_ids),
            None => {
                let r: Vec<String> = Vec::new();
                assert(strings_view(r@) =~= seq![]);
                r
            },
        }
    }

    /// Number of records and of index entries.
    pub fn get_stats(&self) -> (r: StorageStats)
        requires
            self.wf(),
        ensures
            r.record_count as int == self.contents().dom().len(),
            r.record_count as int == self.records().len(),
            r.index_count as int == index_keys(self.indexes()).to_set().len(),
            r.index_count as int == self.indexes().len(),
            r.memory_usage == 0,
    {
        proof {
            let keys = index_keys(self.indexes@);
            assert(keys.no_duplicates()) by {
                assert forall|i: int, j: int| 0 <= i < keys.len() && 0 <= j < keys.len() && i != j implies keys[i]
                    != keys[j] by {}
            }
            keys.unique_seq_to_set();
            lemma_records_dom(self.records@);
        }
        StorageStats {
            record_count: self.records.len() as u64,
            index_count: self.indexes.len() as u64,
            memory_usage: 0,
        }
    }
    /// Hands the storage's content over before an upgrade.
    pub fn pre_upgrade(self) -> (r: StorageSnapshot)
        ensures
            r.records@ == self.records(),
            r.indexes@ == self.indexes(),
    {
        StorageSnapshot { records: self.records, indexes: self.indexes }
    }

    /// Rebuilds the storage after an upgrade; of two records with the same
    /// identifier, the later one stays.
    pub fn post_upgrade(snapshot: StorageSnapshot) -> (r: Storage)
        ensures
            r.wf(),
            r.contents() == records_map(snapshot.records@),
            forall|f: Seq<char>, v: Seq<char>|
                #[trigger] indexed_ids(r.indexes(), f, v) == indexed_ids(snapshot.indexes@, f, v),
    {
        let StorageSnapshot { records, indexes } = snapshot;
        let mut r = Storage::init();
        let ghost all = records@;
        let mut rest = records;
        let ghost mut taken: int = 0;
        assert(records_map(all.subrange(0, 0)) =~= records_map(r.records()));
        while rest.len() > 0
            invariant
                r.wf(),
                r.indexes().len() == 0,
                0 <= taken <= all.len(),
                rest@ == all.subrange(taken, all.len() as int),
                r.contents() == records_map(all.subrange(0, taken)),
            decreases rest@.len(),
        {
            let (id, data) = rest.remove(0);
            let ghost pre = all.subrange(0, taken);
            let ghost next = all.subrange(0, taken + 1);
            proof {
                assert(next.drop_last() =~= pre);
                assert(next.last() == (id, data));
                assert forall|x: Seq<char>| #[trigger] record_index(next, x) >= 0 <==> (x == id@ || record_index(pre, x) >= 0) by {
                    lemma_record_index(pre, x);
                }
                assert forall|x: Seq<char>| record_index(next, x) >= 0 implies #[trigger] next[record_index(next, x)].1@
                    == if x == id@ { data@ } else { pre[record_index(pre, x)].1@ } by {
                    lemma_record_index(pre, x);
                    if x != id@ {
                        assert(next[record_index(pre, x)] == pre[record_index(pre, x)]);
                    }
                }
                assert(records_map(next) =~= records_map(pre).insert(id@, data@));
            }
            r.store_record(id, data);
            proof {
                taken = taken + 1;
                assert(rest@ =~= all.subrange(taken, all.len() as int));
            }
        }
        assert(all.subrange(0, taken) =~= all);
        let ghost entries = indexes@;
        let mut rest_idx = indexes;
        let ghost mut done: int = 0;
        assert forall|f: Seq<char>, v: Seq<char>| #[trigger] indexed_ids(r.indexes(), f, v) == indexed_ids(
            entries.subrange(0, 0),
            f,
            v,
        ) by {}
        while rest_idx.len() > 0
            invariant
                r.wf(),
                r.contents() == records_map(all),
                0 <= done <= entries.len(),
                rest_idx@ == entries.subrange(done, entries.len() as int),
                forall|f: Seq<char>, v: Seq<char>|
                    #[trigger] indexed_ids(r.indexes(), f, v) == indexed_ids(entries.subrange(0, done), f, v),
            decreases rest_idx@.len(),
        {
            let entry = rest_idx.remove(0);
            let ghost pre = entries.subrange(0, done);
            let ghost next = entries.subrange(0, done + 1);
            let ghost e = entry;
            let ghost before = r;
            r.store_index_entry(entry);
            proof {
                assert(next.drop_last() =~= pre);
                assert(next.last() == e);
                assert forall|f: Seq<char>, v: Seq<char>| #[trigger] indexed_ids(r.indexes(), f, v) == indexed_ids(
                    next,
                    f,
                    v,
                ) by {
                    lemma_index_index(pre, f, v);
                    lemma_index_index(next, f, v);
                    if !(e.field_name@ == f && e.field_value@ == v) {
                        assert(indexed_ids(before.indexes(), f, v) == indexed_ids(pre, f, v));
                        let k = index_index(next, f, v);
                        if k >= 0 {
                            assert(next[k] == pre[k]);
                        }
                    }
                }
                done = done + 1;
                assert(rest_idx@ =~= entries.subrange(done, entries.len() as int));
            }
        }
        assert(entries.subrange(0, done) =~= entries);
        r
    }

    /// Stores an index entry, replacing the entry with the same key.
    fn store_index_entry(&mut self, entry: IndexEntry)
        requires
            old(self).wf(),
        ensures
            final(self).wf(),
            final(self).records() == old(self).records(),
            indexed_ids(final(self).indexes(), entry.field_name@, entry.field_value@) == strings_view(
                entry.record_ids@,
            ),
            forall|f: Seq<char>, v: Seq<char>|
                !(f == entry.field_name@ && v == entry.field_value@) ==> #[trigger] indexed_ids(
                    final(self).indexes(),
                    f,
                    v,
                ) == indexed_ids(old(self).indexes(), f, v),
    {
        let ghost old_idx = self.indexes@;
        let ghost f0 = entry.field_name@;
        let ghost v0 = entry.field_value@;
        let ghost e = entry;
        proof {
            lemma_index_index(old_idx, f0, v0);
        }
        let pos: usize;
        match self.find_index(&entry.field_name, &entry.field_value) {
            Some(i) => {
                self.indexes.set(i, entry);
                pos = i;
            },
            None => {
                pos = self.indexes.len();
                self.indexes.push(entry);
            },
        }
        proof {
            let c = self.indexes@;
            assert(c[pos as int] == e);
            assert(forall|j: int| 0 <= j < old_idx.len() && j != pos ==> #[trigger] c[j] == old_idx[j]);
            assert forall|a: int, b: int|
                0 <= a < c.len() && 0 <= b < c.len() && a != b implies index_key(c[a]) != index_key(c[b]) by {
                if a != pos && b != pos {
                    assert(c[a] == old_idx[a] && c[b] == old_idx[b]);
                } else if a == pos {
                    assert(c[b] == old_idx[b]);
                    if pos < old_idx.len() {
                        assert(index_key(old_idx[pos as int]) == (f0, v0));
                    }
                } else {
                    assert(c[a] == old_idx[a]);
                    if pos < old_idx.len() {
                        assert(index_key(old_idx[pos as int]) == (f0, v0));
                    }
                }
            }
            lemma_index_last(c, f0, v0, pos as int);
            assert forall|f: Seq<char>, v: Seq<char>| !(f == f0 && v == v0) implies #[trigger] indexed_ids(c, f, v)
                == indexed_ids(old_idx, f, v) by {
                lemma_index_same(old_idx, c, f, v, pos as int);
            }
        }
    }
}

/// With distinct identifiers, there are as many stored identifiers as records.
pub proof fn lemma_records_dom(records: Seq<(String, Vec<u8>)>)
    requires
        record_ids_distinct(records),
    ensures
        records_map(records).dom().len() == records.len(),
{
    let ids = records.map_values(|e: (String, Vec<u8>)| e.0@);
    assert(ids.no_duplicates()) by {
        assert forall|i: int, j: int| 0 <= i < ids.len() && 0 <= j < ids.len() && i != j implies ids[i] != ids[j] by {}
    }
    ids.unique_seq_to_set();
    assert forall|id: Seq<char>| #[trigger] records_map(records).dom().contains(id) <==> ids.to_set().contains(id) by {
        lemma_record_index(records, id);
        if ids.contains(id) {
            let k = choose|k: int| 0 <= k < ids.len() && ids[k] == id;
            assert(records[k].0@ == id);
        }
        if record_index(records, id) >= 0 {
            assert(ids[record_index(records, id)] == id);
        }
    }
    assert(records_map(records).dom() =~= ids.to_set());
}

pub proof fn lemma_record_index_at(records: Seq<(String, Vec<u8>)>, id: Seq<char>, k: int)
    requires
        record_ids_distinct(records),
        0 <= k < records.len(),
        records[k].0@ == id,
    ensures
        record_index(records, id) == k,
{
    lemma_record_index(records, id);
}

/// The entry at `pos`, the last one, is found for its own key.
proof fn lemma_index_last(entries: Seq<IndexEntry>, field: Seq<char>, value: Seq<char>, pos: int)
    requires
        0 <= pos < entries.len(),
        entries[pos].field_name@ == field && entries[pos].field_value@ == value,
        forall|j: int| pos < j < entries.len() ==> !(entries[j].field_name@ == field && entries[j].field_value@ == value),
    ensures
        index_index(entries, field, value) == pos,
    decreases entries.len(),
{
    if pos < entries.len() - 1 {
        let d = entries.drop_last();
        assert forall|j: int| pos < j < d.len() implies !(d[j].field_name@ == field && d[j].field_value@ == value) by {
            assert(d[j] == entries[j]);
        }
        lemma_index_last(d, field, value, pos);
    }
}

/// Entries changed or added at `pos` only, under another key, leave the
/// lookup of every other key as it was.
proof fn lemma_index_same(old_idx: Seq<IndexEntry>, c: Seq<IndexEntry>, f: Seq<char>, v: Seq<char>, pos: int)
    requires
        c.len() == old_idx.len() || c.len() == old_idx.len() + 1,
        0 <= pos < c.len(),
        c.len() == old_idx.len() + 1 ==> pos == old_idx.len(),
        forall|j: int| 0 <= j < old_idx.len() && j != pos ==> #[trigger] c[j] == old_idx[j],
        pos < old_idx.len() ==> c[pos].field_name@ == old_idx[pos].field_name@ && c[pos].field_value@
            == old_idx[pos].field_value@,
        !(c[pos].field_name@ == f && c[pos].field_value@ == v),
    ensures
        index_index(c, f, v) == index_index(old_idx, f, v),
        index_index(c, f, v) >= 0 ==> c[index_index(c, f, v)] == old_idx[index_index(c, f, v)],
        indexed_ids(c, f, v) == indexed_ids(old_idx, f, v),
    decreases c.len(),
{
    lemma_index_index(c, f, v);
    lemma_index_index(old_idx, f, v);
    if c.len() == old_idx.len() + 1 {
        assert(c.drop_last() =~= old_idx);
        let k = index_index(c, f, v);
        if k >= 0 {
            assert(c[k] == c.drop_last()[k]);
        }
    } else if c.len() > 0 {
        let n = c.len() - 1;
        if n != pos {
            assert(c[n] == old_idx[n]);
        }
        if !(c.last().field_name@ == f && c.last().field_value@ == v) {
            if pos < n {
                assert forall|j: int| 0 <= j < n && j != pos implies #[trigger] c.drop_last()[j] == old_idx.drop_last()[j] by {
                    assert(c[j] == old_idx[j]);
                }
                lemma_index_same(old_idx.drop_last(), c.drop_last(), f, v, pos);
            } else {
                assert forall|j: int| 0 <= j < n implies #[trigger] c.drop_last()[j] == old_idx.drop_last()[j] by {
                    assert(c[j] == old_idx[j]);
                }
                assert(c.drop_last() =~= old_idx.drop_last());
            }
            let k = index_index(c, f, v);
            lemma_index_index(c.drop_last(), f, v);
            if k >= 0 {
                assert(c[k] == c.drop_last()[k]);
                assert(old_idx[k] == old_idx.drop_last()[k]);
            }
        }
    }
}

} // verus!
