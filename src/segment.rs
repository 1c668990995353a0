use vstd::prelude::*;
use crate::payload::{PayloadKeyType, PayloadModel, PayloadType};

verus! {

/// Identifier of a record, unique over the whole collection.
pub type PointIdType = u64;

/// Sequence number of a mutation.
pub type SeqNumberType = u64;

/// Payload of a record as the contracts see it: key and value, in order.
pub type PayloadSeq = Seq<(Seq<char>, PayloadModel)>;

/// One payload field of a stored record.
pub struct PayloadEntry {
    pub key: PayloadKeyType,
    pub value: PayloadType,
}

/// A stored record: its id, the sequence number of the last mutation applied
/// to it, its vector and its payload fields.
pub struct Record<T> {
    pub id: PointIdType,
    pub version: SeqNumberType,
    pub vector: Vec<T>,
    pub payload: Vec<PayloadEntry>,
}

pub struct RecordModel<T> {
    pub id: PointIdType,
    pub version: SeqNumberType,
    pub vector: Seq<T>,
    pub payload: PayloadSeq,
}

pub open spec fn entry_view(e: PayloadEntry) -> (Seq<char>, PayloadModel) {
    (e.key@, e.value@)
}

impl<T> View for Record<T> {
    type V = RecordModel<T>;

    open spec fn view(&self) -> RecordModel<T> {
        RecordModel {
            id: self.id,
            version: self.version,
            vector: self.vector@,
            payload: self.payload@.map_values(|e: PayloadEntry| entry_view(e)),
        }
    }
}

/// An independent store of records.
pub struct Segment<T> {
    pub records: Vec<Record<T>>,
}

impl<T> View for Segment<T> {
    type V = Seq<RecordModel<T>>;

    open spec fn view(&self) -> Seq<RecordModel<T>> {
        self.records@.map_values(|r: Record<T>| r@)
    }
}

// ---- payload fields ----

pub open spec fn has_key(p: PayloadSeq, k: Seq<char>) -> bool {
    exists|i: int| 0 <= i < p.len() && p[i].0 == k
}

pub open spec fn keys_unique(p: PayloadSeq) -> bool {
    forall|i: int, j: int| 0 <= i < p.len() && 0 <= j < p.len() && p[i].0 == p[j].0 ==> i == j
}

pub open spec fn key_index(p: PayloadSeq, k: Seq<char>) -> int {
    choose|i: int| 0 <= i < p.len() && p[i].0 == k
}

/// The payload with field `k` set to `v`: replaced in place, or appended.
pub open spec fn set_key(p: PayloadSeq, k: Seq<char>, v: PayloadModel) -> PayloadSeq {
    if has_key(p, k) {
        p.update(key_index(p, k), (k, v))
    } else {
        p.push((k, v))
    }
}

/// The payload without field `k`.
pub open spec fn remove_key(p: PayloadSeq, k: Seq<char>) -> PayloadSeq {
    if has_key(p, k) {
        p.remove(key_index(p, k))
    } else {
        p
    }
}

// ---- one record ----
// A mutation older than the record's version is ignored. Upserts need a
// strictly newer number, since a replayed vector cannot be told from a new one;
// payload mutations apply at an equal number (one operation may touch several
// fields) and report a change only where the payload differs afterwards.

pub open spec fn new_record<T>(id: PointIdType, op: SeqNumberType, v: Seq<T>) -> RecordModel<T> {
    RecordModel { id, version: op, vector: v, payload: Seq::empty() }
}

pub open spec fn upsert_changes<T>(r: RecordModel<T>, op: SeqNumberType) -> bool {
    op > r.version
}

pub open spec fn record_upsert<T>(r: RecordModel<T>, op: SeqNumberType, v: Seq<T>) -> RecordModel<T> {
    if upsert_changes(r, op) {
        RecordModel { version: op, vector: v, ..r }
    } else {
        r
    }
}

pub open spec fn delete_changes<T>(r: RecordModel<T>, op: SeqNumberType) -> bool {
    op >= r.version
}

pub open spec fn set_changes<T>(r: RecordModel<T>, op: SeqNumberType, k: Seq<char>, v: PayloadModel) -> bool {
    op >= r.version && !r.payload.contains((k, v))
}

pub open spec fn record_set<T>(r: RecordModel<T>, op: SeqNumberType, k: Seq<char>, v: PayloadModel) -> RecordModel<T> {
    if set_changes(r, op, k, v) {
        RecordModel { version: op, payload: set_key(r.payload, k, v), ..r }
    } else {
        r
    }
}

pub open spec fn delete_key_changes<T>(r: RecordModel<T>, op: SeqNumberType, k: Seq<char>) -> bool {
    op >= r.version && has_key(r.payload, k)
}

pub open spec fn record_delete_key<T>(r: RecordModel<T>, op: SeqNumberType, k: Seq<char>) -> RecordModel<T> {
    if delete_key_changes(r, op, k) {
        RecordModel { version: op, payload: remove_key(r.payload, k), ..r }
    } else {
        r
    }
}

pub open spec fn clear_changes<T>(r: RecordModel<T>, op: SeqNumberType) -> bool {
    op >= r.version && r.payload.len() > 0
}

pub open spec fn record_clear<T>(r: RecordModel<T>, op: SeqNumberType) -> RecordModel<T> {
    if clear_changes(r, op) {
        RecordModel { version: op, payload: Seq::empty(), ..r }
    } else {
        r
    }
}

// ---- one segment ----

pub open spec fn seg_holds<T>(s: Seq<RecordModel<T>>, id: PointIdType) -> bool {
    exists|i: int| 0 <= i < s.len() && s[i].id == id
}

pub open spec fn ids_unique<T>(s: Seq<RecordModel<T>>) -> bool {
    forall|i: int, j: int| 0 <= i < s.len() && 0 <= j < s.len() && s[i].id == s[j].id ==> i == j
}

pub open spec fn seg_wf<T>(s: Seq<RecordModel<T>>) -> bool {
    &&& ids_unique(s)
    &&& forall|i: int| 0 <= i < s.len() ==> keys_unique(#[trigger] s[i].payload)
}

pub open spec fn seg_index<T>(s: Seq<RecordModel<T>>, id: PointIdType) -> int {
    choose|i: int| 0 <= i < s.len() && s[i].id == id
}

/// The record with the given id, where the segment holds it.
pub open spec fn seg_record<T>(s: Seq<RecordModel<T>>, id: PointIdType) -> RecordModel<T> {
    s[seg_index(s, id)]
}

/// The segment with the record `id` replaced by `r`.
pub open spec fn seg_put<T>(s: Seq<RecordModel<T>>, id: PointIdType, r: RecordModel<T>) -> Seq<RecordModel<T>> {
    if seg_holds(s, id) {
        s.update(seg_index(s, id), r)
    } else {
        s
    }
}

pub open spec fn seg_upsert<T>(s: Seq<RecordModel<T>>, op: SeqNumberType, id: PointIdType, v: Seq<T>) -> Seq<RecordModel<T>> {
    if seg_holds(s, id) {
        seg_put(s, id, record_upsert(seg_record(s, id), op, v))
    } else {
        s.push(new_record(id, op, v))
    }
}

pub open spec fn seg_upsert_changes<T>(s: Seq<RecordModel<T>>, op: SeqNumberType, id: PointIdType) -> bool {
    !seg_holds(s, id) || upsert_changes(seg_record(s, id), op)
}

pub open spec fn seg_delete_changes<T>(s: Seq<RecordModel<T>>, op: SeqNumberType, id: PointIdType) -> bool {
    seg_holds(s, id) && delete_changes(seg_record(s, id), op)
}

pub open spec fn seg_delete<T>(s: Seq<RecordModel<T>>, op: SeqNumberType, id: PointIdType) -> Seq<RecordModel<T>> {
    if seg_delete_changes(s, op, id) {
        s.remove(seg_index(s, id))
    } else {
        s
    }
}

pub open spec fn seg_set_changes<T>(s: Seq<RecordModel<T>>, op: SeqNumberType, id: PointIdType, k: Seq<char>, v: PayloadModel) -> bool {
    seg_holds(s, id) && set_changes(seg_record(s, id), op, k, v)
}

pub open spec fn seg_set<T>(s: Seq<RecordModel<T>>, op: SeqNumberType, id: PointIdType, k: Seq<char>, v: PayloadModel) -> Seq<RecordModel<T>> {
    seg_put(s, id, record_set(seg_record(s, id), op, k, v))
}

pub open spec fn seg_delete_key_changes<T>(s: Seq<RecordModel<T>>, op: SeqNumberType, id: PointIdType, k: Seq<char>) -> bool {
    seg_holds(s, id) && delete_key_changes(seg_record(s, id), op, k)
}

pub open spec fn seg_delete_key<T>(s: Seq<RecordModel<T>>, op: SeqNumberType, id: PointIdType, k: Seq<char>) -> Seq<RecordModel<T>> {
    seg_put(s, id, record_delete_key(seg_record(s, id), op, k))
}

pub open spec fn seg_clear_changes<T>(s: Seq<RecordModel<T>>, op: SeqNumberType, id: PointIdType) -> bool {
    seg_holds(s, id) && clear_changes(seg_record(s, id), op)
}

pub open spec fn seg_clear<T>(s: Seq<RecordModel<T>>, op: SeqNumberType, id: PointIdType) -> Seq<RecordModel<T>> {
    seg_put(s, id, record_clear(seg_record(s, id), op))
}

pub open spec fn seg_wipe<T>(s: Seq<RecordModel<T>>, op: SeqNumberType) -> Seq<RecordModel<T>> {
    s.map_values(|r: RecordModel<T>| record_clear(r, op))
}

pub open spec fn seg_wipe_changes<T>(s: Seq<RecordModel<T>>, op: SeqNumberType) -> bool {
    exists|i: int| 0 <= i < s.len() && clear_changes(s[i], op)
}

pub proof fn lemma_index_of<T>(s: Seq<RecordModel<T>>, i: int)
    requires
        ids_unique(s),
        0 <= i < s.len(),
    ensures
        seg_holds(s, s[i].id),
        seg_index(s, s[i].id) == i,
        seg_record(s, s[i].id) == s[i],
{
    assert(s[i].id == s[i].id);
    let j = seg_index(s, s[i].id);
    assert(0 <= j < s.len() && s[j].id == s[i].id);
}

pub proof fn lemma_key_index_of(p: PayloadSeq, i: int)
    requires
        keys_unique(p),
        0 <= i < p.len(),
    ensures
        has_key(p, p[i].0),
        key_index(p, p[i].0) == i,
{
    let j = key_index(p, p[i].0);
    assert(0 <= j < p.len() && p[j].0 == p[i].0);
}

pub fn copy_vector<T: Copy>(v: &Vec<T>) -> (r: Vec<T>)
    ensures
        r@ == v@,
{
    let mut r: Vec<T> = Vec::new();
    let mut i: usize = 0;
    while i < v.len()
        invariant
            i <= v.len(),
            r@ == v@.subrange(0, i as int),
        decreases v.len() - i,
    {
        r.push(v[i]);
        i += 1;
        assert(r@ =~= v@.subrange(0, i as int));
    }
    assert(r@ =~= v@);
    r
}

impl<T: Copy> Record<T> {
    /// Position of the field `key`, if the record has one.
    fn find_key(&self, key: &String) -> (r: Option<usize>)
        requires
            keys_unique(self@.payload),
        ensures
            match r {
                Some(j) => j < self.payload.len() && key_index(self@.payload, key@) == j && has_key(self@.payload, key@),
                None => !has_key(self@.payload, key@),
            },
    {
        let mut j: usize = 0;
        while j < self.payload.len()
            invariant
                j <= self.payload.len(),
                keys_unique(self@.payload),
                forall|k: int| 0 <= k < j ==> self@.payload[k].0 != key@,
            decreases self.payload.len() - j,
        {
            assert(self@.payload[j as int] == entry_view(self.payload@[j as int]));
            if self.payload[j].key == *key {
                proof { lemma_key_index_of(self@.payload, j as int); }
                return Some(j);
            }
            j += 1;
        }
        None
    }

    /// Whether the record carries a payload field with this name.
    pub fn payload_contains_key(&self, key: &str) -> (r: bool)
        ensures
            r == has_key(self@.payload, key@),
    {
        let wanted = key.to_owned();
        let mut j: usize = 0;
        while j < self.payload.len()
            invariant
                j <= self.payload.len(),
                wanted@ == key@,
                forall|k: int| 0 <= k < j ==> self@.payload[k].0 != key@,
            decreases self.payload.len() - j,
        {
            assert(self@.payload[j as int] == entry_view(self.payload@[j as int]));
            if self.payload[j].key == wanted {
                return true;
            }
            j += 1;
        }
        false
    }


    /// Sets field `key` to `value`, unless the mutation is stale or the field
    /// already holds that value.
    pub fn set_field(&mut self, op_num: SeqNumberType, key: &String, value: &PayloadType) -> (r: bool)
        requires
            keys_unique(old(self)@.payload),
        ensures
            keys_unique(final(self)@.payload),
            final(self)@ == record_set(old(self)@, op_num, key@, value@),
            r == set_changes(old(self)@, op_num, key@, value@),
    {
        if op_num < self.version {
            return false;
        }
        let ghost p = self@.payload;
        match self.find_key(key) {
            Some(j) => {
                assert(self@.payload[j as int] == entry_view(self.payload@[j as int]));
                if self.payload[j].value.same_as(value) {
                    assert(p[j as int] == (key@, value@));
                    return false;
                }
                assert(!p.contains((key@, value@))) by {
                    if p.contains((key@, value@)) {
                        let i = choose|i: int| 0 <= i < p.len() && p[i] == (key@, value@);
                        assert(p[i].0 == p[j as int].0);
                    }
                }
                self.payload.remove(j);
                self.payload.insert(j, PayloadEntry { key: key.clone(), value: value.duplicate() });
                assert(self@.payload =~= p.update(j as int, (key@, value@)));
            },
            None => {
                assert(!p.contains((key@, value@))) by {
                    if p.contains((key@, value@)) {
                        let i = choose|i: int| 0 <= i < p.len() && p[i] == (key@, value@);
                        assert(p[i].0 == key@);
                    }
                }
                self.payload.push(PayloadEntry { key: key.clone(), value: value.duplicate() });
                assert(self@.payload =~= p.push((key@, value@)));
            },
        }
        self.version = op_num;
        true
    }

    /// Removes field `key`, unless the mutation is stale or there is no such field.
    pub fn remove_field(&mut self, op_num: SeqNumberType, key: &String) -> (r: bool)
        requires
            keys_unique(old(self)@.payload),
        ensures
            keys_unique(final(self)@.payload),
            final(self)@ == record_delete_key(old(self)@, op_num, key@),
            r == delete_key_changes(old(self)@, op_num, key@),
    {
        if op_num < self.version {
            return false;
        }
        let ghost p = self@.payload;
        match self.find_key(key) {
            Some(j) => {
                self.payload.remove(j);
                assert(self@.payload =~= p.remove(j as int));
                assert(keys_unique(self@.payload)) by {
                    assert forall|a: int, b: int| 0 <= a < self@.payload.len() && 0 <= b < self@.payload.len()
                        && self@.payload[a].0 == self@.payload[b].0 implies a == b by {
                        let a2 = if a < j { a } else { a + 1 };
                        let b2 = if b < j { b } else { b + 1 };
                        assert(p[a2].0 == p[b2].0);
                    }
                }
                self.version = op_num;
                true
            },
            None => false,
        }
    }

    /// Removes every field, unless the mutation is stale or there is none.
    pub fn clear_fields(&mut self, op_num: SeqNumberType) -> (r: bool)
        ensures
            keys_unique(final(self)@.payload) || final(self)@ == old(self)@,
            final(self)@ == record_clear(old(self)@, op_num),
            r == clear_changes(old(self)@, op_num),
    {
        if op_num >= self.version && self.payload.len() > 0 {
            self.payload = Vec::new();
            self.version = op_num;
            assert(self@.payload =~= Seq::<(Seq<char>, PayloadModel)>::empty());
            true
        } else {
            false
        }
    }
}

impl<T: Copy> Segment<T> {
    pub open spec fn wf(&self) -> bool {
        seg_wf(self@)
    }

    pub fn new() -> (r: Segment<T>)
        ensures
            r@ == Seq::<RecordModel<T>>::empty(),
            r.wf(),
    {
        let r = Segment { records: Vec::new() };
        assert(r@ =~= Seq::<RecordModel<T>>::empty());
        r
    }

    /// Position of the record `id`, if the segment holds it.
    pub fn find(&self, id: PointIdType) -> (r: Option<usize>)
        requires
            ids_unique(self@),
        ensures
            match r {
                Some(i) => i < self@.len() && seg_holds(self@, id) && seg_index(self@, id) == i,
                None => !seg_holds(self@, id),
            },
    {
        let mut i: usize = 0;
        while i < self.records.len()
            invariant
                i <= self.records.len(),
                ids_unique(self@),
                forall|k: int| 0 <= k < i ==> self@[k].id != id,
            decreases self.records.len() - i,
        {
            assert(self@[i as int] == self.records@[i as int]@);
            if self.records[i].id == id {
                proof { lemma_index_of(self@, i as int); }
                return Some(i);
            }
            i += 1;
        }
        None
    }

    /// Whether the segment holds the record `id`.
    pub fn has_point(&self, id: PointIdType) -> (r: bool)
        requires
            self.wf(),
        ensures
            r == seg_holds(self@, id),
    {
        self.find(id).is_some()
    }

    /// The record `id`, where the segment holds it.
    pub fn get_record(&self, id: PointIdType) -> (r: Option<&Record<T>>)
        requires
            self.wf(),
        ensures
            match r {
                Some(rec) => seg_holds(self@, id) && rec@ == seg_record(self@, id),
                None => !seg_holds(self@, id),
            },
    {
        match self.find(id) {
            Some(i) => Some(&self.records[i]),
            None => None,
        }
    }

    /// Puts a record taken out at position `i` back in its place.
    fn put_back(&mut self, i: usize, rec: Record<T>, Ghost(before): Ghost<Seq<RecordModel<T>>>)
        requires
            i <= old(self).records.len(),
            i < before.len(),
            old(self)@ == before.remove(i as int),
        ensures
            final(self)@ == before.update(i as int, rec@),
            final(self).records.len() == before.len(),
    {
        let ghost recs = self.records@;
        assert(recs.map_values(|r: Record<T>| r@).len() == recs.len());
        assert(recs.len() + 1 == before.len());
        self.records.insert(i, rec);
        assert(self.records@ == recs.insert(i as int, rec));
        assert(self@.len() == before.len());
        assert forall|k: int| 0 <= k < before.len() implies #[trigger] self@[k] == before.update(i as int, rec@)[k] by {
            if k < i {
                assert(self@[k] == recs[k]@);
                assert(recs[k]@ == before.remove(i as int)[k]);
            } else if k > i {
                assert(self@[k] == recs[k - 1]@);
                assert(recs[k - 1]@ == before.remove(i as int)[k - 1]);
            }
        }
        assert(self@ =~= before.update(i as int, rec@));
    }

    /// Inserts the record, or replaces its vector where the mutation is newer.
    pub fn upsert_point(&mut self, op_num: SeqNumberType, id: PointIdType, vector: &Vec<T>) -> (r: bool)
        requires
            old(self).wf(),
        ensures
            final(self).wf(),
            final(self)@ == seg_upsert(old(self)@, op_num, id, vector@),
            forall|x: PointIdType| seg_holds(final(self)@, x) <==> (seg_holds(old(self)@, x) || x == id),
            r == seg_upsert_changes(old(self)@, op_num, id),
    {
        let ghost s = self@;
        match self.find(id) {
            Some(i) => {
                assert(s[i as int] == self.records@[i as int]@);
                if op_num > self.records[i].version {
                    let mut rec = self.records.remove(i);
                    assert(self@ =~= s.remove(i as int));
                    rec.version = op_num;
                    rec.vector = copy_vector(vector);
                    let ghost new_rec = rec@;
                    assert(new_rec == record_upsert(s[i as int], op_num, vector@));
                    self.put_back(i, rec, Ghost(s));
                    assert(seg_wf(self@)) by {
                        assert forall|a: int, b: int| 0 <= a < self@.len() && 0 <= b < self@.len()
                            && self@[a].id == self@[b].id implies a == b by {
                            assert(self@[a].id == s[a].id && self@[b].id == s[b].id);
                        }
                        assert forall|k: int| 0 <= k < self@.len() implies keys_unique(#[trigger] self@[k].payload) by {
                            assert(self@[k].payload == s[k].payload);
                        }
                    }
                    proof { lemma_same_ids(s, self@); }
                    true
                } else {
                    false
                }
            },
            None => {
                let rec = Record { id, version: op_num, vector: copy_vector(vector), payload: Vec::new() };
                assert(rec@.payload =~= Seq::<(Seq<char>, PayloadModel)>::empty());
                self.records.push(rec);
                assert(self@ =~= s.push(new_record(id, op_num, vector@)));
                assert forall|x: PointIdType| seg_holds(self@, x) <==> (seg_holds(s, x) || x == id) by {
                    if seg_holds(s, x) {
                        let k = choose|k: int| 0 <= k < s.len() && s[k].id == x;
                        assert(self@[k].id == x);
                    }
                    if x == id {
                        assert(self@[s.len() as int].id == x);
                    }
                    if seg_holds(self@, x) && x != id {
                        let k = choose|k: int| 0 <= k < self@.len() && self@[k].id == x;
                        assert(s[k].id == x);
                    }
                }
                true
            },
        }
    }

    /// Removes the record, unless the deletion is stale or the record is absent.
    pub fn delete_point(&mut self, op_num: SeqNumberType, id: PointIdType) -> (r: bool)
        requires
            old(self).wf(),
        ensures
            final(self).wf(),
            final(self)@ == seg_delete(old(self)@, op_num, id),
            forall|x: PointIdType| seg_holds(final(self)@, x) ==> seg_holds(old(self)@, x),
            r == seg_delete_changes(old(self)@, op_num, id),
    {
        let ghost s = self@;
        match self.find(id) {
            Some(i) => {
                assert(s[i as int] == self.records@[i as int]@);
                if op_num >= self.records[i].version {
                    self.records.remove(i);
                    assert(self@ =~= s.remove(i as int));
                    assert(ids_unique(self@)) by {
                        assert forall|a: int, b: int| 0 <= a < self@.len() && 0 <= b < self@.len()
                            && self@[a].id == self@[b].id implies a == b by {
                            let a2 = if a < i { a } else { a + 1 };
                            let b2 = if b < i { b } else { b + 1 };
                            assert(s[a2].id == s[b2].id);
                        }
                    }
                    assert forall|k: int| 0 <= k < self@.len() implies keys_unique(#[trigger] self@[k].payload) by {
                        let k2 = if k < i { k } else { k + 1 };
                        assert(self@[k] == s[k2]);
                    }
                    assert forall|x: PointIdType| seg_holds(self@, x) implies seg_holds(s, x) by {
                        let k = choose|k: int| 0 <= k < self@.len() && self@[k].id == x;
                        let k2 = if k < i { k } else { k + 1 };
                        assert(s[k2].id == x);
                    }
                    true
                } else {
                    false
                }
            },
            None => false,
        }
    }

    /// Sets one payload field of the record `id`.
    pub fn set_payload(&mut self, op_num: SeqNumberType, id: PointIdType, key: &String, value: &PayloadType) -> (r: bool)
        requires
            old(self).wf(),
        ensures
            final(self).wf(),
            final(self)@ == seg_set(old(self)@, op_num, id, key@, value@),
            same_ids(old(self)@, final(self)@),
            r == seg_set_changes(old(self)@, op_num, id, key@, value@),
    {
        let ghost s = self@;
        match self.find(id) {
            Some(i) => {
                let mut rec = self.records.remove(i);
                assert(self@ =~= s.remove(i as int));
                assert(rec@ == s[i as int]);
                let r = rec.set_field(op_num, key, value);
                self.put_back(i, rec, Ghost(s));
                proof {
                    lemma_wf_update(s, i as int, self@[i as int]);
                    lemma_same_ids(s, self@);
                }
                r
            },
            None => false,
        }
    }

    /// Removes one payload field of the record `id`.
    pub fn delete_payload(&mut self, op_num: SeqNumberType, id: PointIdType, key: &String) -> (r: bool)
        requires
            old(self).wf(),
        ensures
            final(self).wf(),
            final(self)@ == seg_delete_key(old(self)@, op_num, id, key@),
            same_ids(old(self)@, final(self)@),
            r == seg_delete_key_changes(old(self)@, op_num, id, key@),
    {
        let ghost s = self@;
        match self.find(id) {
            Some(i) => {
                let mut rec = self.records.remove(i);
                assert(self@ =~= s.remove(i as int));
                assert(rec@ == s[i as int]);
                let r = rec.remove_field(op_num, key);
                self.put_back(i, rec, Ghost(s));
                proof {
                    lemma_wf_update(s, i as int, self@[i as int]);
                    lemma_same_ids(s, self@);
                }
                r
            },
            None => false,
        }
    }

    /// Removes the whole payload of the record `id`.
    pub fn clear_payload(&mut self, op_num: SeqNumberType, id: PointIdType) -> (r: bool)
        requires
            old(self).wf(),
        ensures
            final(self).wf(),
            final(self)@ == seg_clear(old(self)@, op_num, id),
            same_ids(old(self)@, final(self)@),
            r == seg_clear_changes(old(self)@, op_num, id),
    {
        let ghost s = self@;
        match self.find(id) {
            Some(i) => {
                let mut rec = self.records.remove(i);
                assert(self@ =~= s.remove(i as int));
                assert(rec@ == s[i as int]);
                let r = rec.clear_fields(op_num);
                self.put_back(i, rec, Ghost(s));
                proof {
                    lemma_wf_update(s, i as int, self@[i as int]);
                    lemma_same_ids(s, self@);
                }
                r
            },
            None => false,
        }
    }

    /// Removes the payload of every record of the segment.
    pub fn wipe_payload(&mut self, op_num: SeqNumberType) -> (r: bool)
        requires
            old(self).wf(),
        ensures
            final(self).wf(),
            final(self)@ == seg_wipe(old(self)@, op_num),
            same_ids(old(self)@, final(self)@),
            r == seg_wipe_changes(old(self)@, op_num),
    {
        let ghost s = self@;
        let mut changed = false;
        let mut i: usize = 0;
        while i < self.records.len()
            invariant
                i <= self.records.len(),
                self.records.len() == s.len(),
                self@.len() == s.len(),
                seg_wf(s),
                forall|k: int| 0 <= k < i ==> self@[k] == record_clear(#[trigger] s[k], op_num),
                forall|k: int| i <= k < s.len() ==> self@[k] == s[k],
                changed == exists|k: int| 0 <= k < i && clear_changes(#[trigger] s[k], op_num),
            decreases self.records.len() - i,
        {
            let ghost cur = self@;
            let mut rec = self.records.remove(i);
            assert(self@ =~= cur.remove(i as int));
            assert(rec@ == s[i as int]);
            let c = rec.clear_fields(op_num);
            self.put_back(i, rec, Ghost(cur));
            proof {
                if c {
                    assert(clear_changes(s[i as int], op_num));
                }
            }
            changed = changed || c;
            i += 1;
        }
        assert(self@ =~= seg_wipe(s, op_num));
        proof {
            lemma_wipe_wf(s, op_num);
            lemma_same_ids(s, self@);
        }
        changed
    }
}

pub open spec fn same_ids<T>(a: Seq<RecordModel<T>>, b: Seq<RecordModel<T>>) -> bool {
    forall|x: PointIdType| seg_holds(a, x) <==> seg_holds(b, x)
}

pub proof fn lemma_same_ids<T>(s: Seq<RecordModel<T>>, t: Seq<RecordModel<T>>)
    requires
        s.len() == t.len(),
        forall|k: int| 0 <= k < s.len() ==> #[trigger] t[k].id == s[k].id,
    ensures
        same_ids(s, t),
{
    assert forall|x: PointIdType| seg_holds(s, x) <==> seg_holds(t, x) by {
        if seg_holds(s, x) {
            let k = choose|k: int| 0 <= k < s.len() && s[k].id == x;
            assert(t[k].id == x);
        }
        if seg_holds(t, x) {
            let k = choose|k: int| 0 <= k < t.len() && t[k].id == x;
            assert(s[k].id == x);
        }
    }
}

pub proof fn lemma_wf_update<T>(s: Seq<RecordModel<T>>, i: int, r: RecordModel<T>)
    requires
        seg_wf(s),
        0 <= i < s.len(),
        r.id == s[i].id,
        keys_unique(r.payload),
    ensures
        seg_wf(s.update(i, r)),
{
    let t = s.update(i, r);
    assert forall|a: int, b: int| 0 <= a < t.len() && 0 <= b < t.len() && t[a].id == t[b].id implies a == b by {
        assert(t[a].id == s[a].id && t[b].id == s[b].id);
    }
}

pub proof fn lemma_wipe_wf<T>(s: Seq<RecordModel<T>>, op: SeqNumberType)
    requires
        seg_wf(s),
    ensures
        seg_wf(seg_wipe(s, op)),
{
    let t = seg_wipe(s, op);
    assert forall|a: int, b: int| 0 <= a < t.len() && 0 <= b < t.len() && t[a].id == t[b].id implies a == b by {
        assert(t[a].id == s[a].id && t[b].id == s[b].id);
    }
    assert forall|k: int| 0 <= k < t.len() implies keys_unique(#[trigger] t[k].payload) by {
        assert(keys_unique(s[k].payload));
    }
}

} // verus!
