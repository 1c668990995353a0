use vstd::prelude::*;
use crate::payload::{strings_view, PayloadInterface, PayloadKeyType};
use crate::segment::{
    PayloadSeq, PointIdType, RecordModel, Segment, SeqNumberType, same_ids, seg_clear,
    seg_clear_changes, seg_delete, seg_delete_changes, seg_delete_key, seg_delete_key_changes,
    seg_holds, seg_record, seg_set, seg_set_changes, seg_upsert, seg_wf, seg_wipe,
    seg_wipe_changes, upsert_changes,
};
use vstd::pervasive::VecAdditionalExecFns;
use rand::Rng;

verus! {

/// What the contracts see of a set of segments: the records of each, in order.
pub type HolderModel<T> = Seq<Seq<RecordModel<T>>>;

/// The work done on one record found in a segment, as the contracts see it.
pub enum ActionModel<T> {
    Upsert(Seq<PointIdType>, Seq<Seq<T>>),
    Delete,
    SetPayload(PayloadSeq),
    DeletePayload(Seq<Seq<char>>),
    ClearPayload,
}

/// The work done on one record found in a segment.
pub enum PointAction<'a, T> {
    /// Replace the vector by the one given for the id.
    Upsert { ids: &'a Vec<PointIdType>, vectors: &'a Vec<Vec<T>> },
    /// Remove the record.
    Delete,
    /// Set each of these fields, in order.
    SetPayload { payload: &'a Vec<(PayloadKeyType, PayloadInterface)> },
    /// Remove each of these fields, in order.
    DeletePayload { keys: &'a Vec<PayloadKeyType> },
    /// Remove every field.
    ClearPayload,
}

pub open spec fn vectors_view<T>(v: Seq<Vec<T>>) -> Seq<Seq<T>> {
    v.map_values(|x: Vec<T>| x@)
}

pub open spec fn fields_view(p: Seq<(PayloadKeyType, PayloadInterface)>) -> PayloadSeq {
    p.map_values(|f: (PayloadKeyType, PayloadInterface)| (f.0@, f.1@))
}

impl<'a, T> View for PointAction<'a, T> {
    type V = ActionModel<T>;

    open spec fn view(&self) -> ActionModel<T> {
        match self {
            PointAction::Upsert { ids, vectors } => ActionModel::Upsert(ids@, vectors_view(vectors@)),
            PointAction::Delete => ActionModel::Delete,
            PointAction::SetPayload { payload } => ActionModel::SetPayload(fields_view(payload@)),
            PointAction::DeletePayload { keys } => ActionModel::DeletePayload(strings_view(keys@)),
            PointAction::ClearPayload => ActionModel::ClearPayload,
        }
    }
}

/// Position of the last occurrence of `id` among the first `n` ids, or -1.
pub open spec fn last_index(ids: Seq<PointIdType>, id: PointIdType, n: int) -> int
    decreases n,
{
    if n <= 0 {
        -1
    } else if ids[n - 1] == id {
        n - 1
    } else {
        last_index(ids, id, n - 1)
    }
}

/// The vector given for `id`: where an id is listed twice, the later one.
pub open spec fn vector_for<T>(ids: Seq<PointIdType>, vectors: Seq<Seq<T>>, id: PointIdType) -> Seq<T> {
    vectors[last_index(ids, id, ids.len() as int)]
}

pub open spec fn seg_set_all<T>(s: Seq<RecordModel<T>>, op: SeqNumberType, id: PointIdType, f: PayloadSeq) -> Seq<RecordModel<T>>
    decreases f.len(),
{
    if f.len() == 0 {
        s
    } else {
        seg_set(seg_set_all(s, op, id, f.drop_last()), op, id, f.last().0, f.last().1)
    }
}

/// The per-field results combined with AND.
pub open spec fn set_all_changes<T>(s: Seq<RecordModel<T>>, op: SeqNumberType, id: PointIdType, f: PayloadSeq) -> bool
    decreases f.len(),
{
    if f.len() == 0 {
        true
    } else {
        seg_set_changes(seg_set_all(s, op, id, f.drop_last()), op, id, f.last().0, f.last().1)
            && set_all_changes(s, op, id, f.drop_last())
    }
}

pub open spec fn seg_delete_keys<T>(s: Seq<RecordModel<T>>, op: SeqNumberType, id: PointIdType, keys: Seq<Seq<char>>) -> Seq<RecordModel<T>>
    decreases keys.len(),
{
    if keys.len() == 0 {
        s
    } else {
        seg_delete_key(seg_delete_keys(s, op, id, keys.drop_last()), op, id, keys.last())
    }
}

/// The per-key results combined with AND.
pub open spec fn delete_keys_changes<T>(s: Seq<RecordModel<T>>, op: SeqNumberType, id: PointIdType, keys: Seq<Seq<char>>) -> bool
    decreases keys.len(),
{
    if keys.len() == 0 {
        true
    } else {
        seg_delete_key_changes(seg_delete_keys(s, op, id, keys.drop_last()), op, id, keys.last())
            && delete_keys_changes(s, op, id, keys.drop_last())
    }
}

/// A segment after the action on its record `id`.
pub open spec fn seg_apply<T>(s: Seq<RecordModel<T>>, op: SeqNumberType, id: PointIdType, a: ActionModel<T>) -> Seq<RecordModel<T>> {
    match a {
        ActionModel::Upsert(ids, vs) => seg_upsert(s, op, id, vector_for(ids, vs, id)),
        ActionModel::Delete => seg_delete(s, op, id),
        ActionModel::SetPayload(f) => seg_set_all(s, op, id, f),
        ActionModel::DeletePayload(keys) => seg_delete_keys(s, op, id, keys),
        ActionModel::ClearPayload => seg_clear(s, op, id),
    }
}

/// Whether the action on the record `id` of the segment reports a change.
pub open spec fn seg_apply_changes<T>(s: Seq<RecordModel<T>>, op: SeqNumberType, id: PointIdType, a: ActionModel<T>) -> bool {
    match a {
        ActionModel::Upsert(_, _) => upsert_changes(seg_record(s, id), op),
        ActionModel::Delete => seg_delete_changes(s, op, id),
        ActionModel::SetPayload(f) => set_all_changes(s, op, id, f),
        ActionModel::DeletePayload(keys) => delete_keys_changes(s, op, id, keys),
        ActionModel::ClearPayload => seg_clear_changes(s, op, id),
    }
}

pub open spec fn holds_any<T>(h: HolderModel<T>, id: PointIdType) -> bool {
    exists|k: int| 0 <= k < h.len() && seg_holds(#[trigger] h[k], id)
}

/// No record id is held by two segments.
pub open spec fn unique_across<T>(h: HolderModel<T>) -> bool {
    forall|k1: int, k2: int, x: PointIdType|
        #![trigger seg_holds(h[k1], x), seg_holds(h[k2], x)]
        0 <= k1 < h.len() && 0 <= k2 < h.len() && seg_holds(h[k1], x) && seg_holds(h[k2], x) ==> k1 == k2
}

pub open spec fn holder_wf<T>(h: HolderModel<T>) -> bool {
    &&& forall|k: int| 0 <= k < h.len() ==> seg_wf(#[trigger] h[k])
    &&& unique_across(h)
}

/// The segments after the action on `id`, done in every segment that holds it.
pub open spec fn step<T>(h: HolderModel<T>, op: SeqNumberType, id: PointIdType, a: ActionModel<T>) -> HolderModel<T> {
    h.map_values(|s: Seq<RecordModel<T>>| if seg_holds(s, id) { seg_apply(s, op, id, a) } else { s })
}

pub open spec fn step_changes<T>(h: HolderModel<T>, op: SeqNumberType, id: PointIdType, a: ActionModel<T>) -> bool {
    exists|k: int| 0 <= k < h.len() && seg_holds(#[trigger] h[k], id) && seg_apply_changes(h[k], op, id, a)
}

/// The segments after the action on each id in turn.
pub open spec fn apply_ids<T>(h: HolderModel<T>, op: SeqNumberType, ids: Seq<PointIdType>, a: ActionModel<T>) -> HolderModel<T>
    decreases ids.len(),
{
    if ids.len() == 0 {
        h
    } else {
        step(apply_ids(h, op, ids.drop_last(), a), op, ids.last(), a)
    }
}

/// How many of the ids, taken in turn, were found and reported a change.
pub open spec fn count_ids<T>(h: HolderModel<T>, op: SeqNumberType, ids: Seq<PointIdType>, a: ActionModel<T>) -> nat
    decreases ids.len(),
{
    if ids.len() == 0 {
        0
    } else {
        count_ids(h, op, ids.drop_last(), a)
            + if step_changes(apply_ids(h, op, ids.drop_last(), a), op, ids.last(), a) { 1nat } else { 0nat }
    }
}

/// For each id, whether some segment held it when its turn came.
pub open spec fn found_ids<T>(h: HolderModel<T>, op: SeqNumberType, ids: Seq<PointIdType>, a: ActionModel<T>) -> Seq<bool>
    decreases ids.len(),
{
    if ids.len() == 0 {
        Seq::empty()
    } else {
        found_ids(h, op, ids.drop_last(), a).push(holds_any(apply_ids(h, op, ids.drop_last(), a), ids.last()))
    }
}

pub open spec fn wipe_all<T>(h: HolderModel<T>, op: SeqNumberType) -> HolderModel<T> {
    h.map_values(|s: Seq<RecordModel<T>>| seg_wipe(s, op))
}

/// How many of the first `n` segments report a change when wiped.
pub open spec fn wipe_count<T>(h: HolderModel<T>, op: SeqNumberType, n: int) -> nat
    decreases n,
{
    if n <= 0 {
        0
    } else {
        wipe_count(h, op, n - 1) + if seg_wipe_changes(h[n - 1], op) { 1nat } else { 0nat }
    }
}

/// What an action needs of its arguments: a vector for every id.
pub open spec fn action_wf<T>(a: ActionModel<T>) -> bool {
    match a {
        ActionModel::Upsert(ids, vs) => ids.len() <= vs.len(),
        _ => true,
    }
}

/// Whether an action leaves every record where it is.
pub open spec fn keeps_records<T>(a: ActionModel<T>) -> bool {
    !(a is Delete)
}

/// Position of the vector given for `id`.
fn vector_index(ids: &Vec<PointIdType>, id: PointIdType) -> (j: usize)
    requires
        ids@.contains(id),
    ensures
        j < ids@.len(),
        j as int == last_index(ids@, id, ids@.len() as int),
{
    let mut n: usize = ids.len();
    while n > 0
        invariant
            n <= ids@.len(),
            last_index(ids@, id, ids@.len() as int) == last_index(ids@, id, n as int),
            exists|k: int| 0 <= k < n && ids@[k] == id,
        decreases n,
    {
        if ids[n - 1] == id {
            return n - 1;
        }
        n -= 1;
    }
    n
}

/// Does the action on the record `id` of a segment that holds it.
fn apply_to_segment<'a, T: Copy>(seg: &mut Segment<T>, op_num: SeqNumberType, id: PointIdType, action: &PointAction<'a, T>) -> (r: bool)
    requires
        old(seg).wf(),
        seg_holds(old(seg)@, id),
        action_wf(action@),
        action@ is Upsert ==> action@->Upsert_0.contains(id),
    ensures
        final(seg).wf(),
        final(seg)@ == seg_apply(old(seg)@, op_num, id, action@),
        r == seg_apply_changes(old(seg)@, op_num, id, action@),
        forall|x: PointIdType| seg_holds(final(seg)@, x) ==> seg_holds(old(seg)@, x),
        keeps_records(action@) ==> same_ids(old(seg)@, final(seg)@),
{
    let ghost s0 = seg@;
    match action {
        PointAction::Upsert { ids, vectors } => {
            let j = vector_index(ids, id);
            assert(vectors_view(vectors@)[j as int] == vectors@[j as int]@);
            seg.upsert_point(op_num, id, &vectors[j])
        },
        PointAction::Delete => seg.delete_point(op_num, id),
        PointAction::SetPayload { payload } => {
            let ghost f = fields_view(payload@);
            let mut res = true;
            let mut j: usize = 0;
            assert(f.take(0) =~= Seq::<(Seq<char>, crate::payload::PayloadModel)>::empty());
            while j < payload.len()
                invariant
                    j <= payload.len(),
                    f == fields_view(payload@),
                    seg.wf(),
                    seg_holds(s0, id),
                    same_ids(s0, seg@),
                    seg@ == seg_set_all(s0, op_num, id, f.take(j as int)),
                    res == set_all_changes(s0, op_num, id, f.take(j as int)),
                decreases payload.len() - j,
            {
                let key = &payload[j].0;
                let stored = payload[j].1.to_payload();
                let c = seg.set_payload(op_num, id, key, &stored);
                res = c && res;
                assert(f.take(j + 1).drop_last() =~= f.take(j as int));
                assert(f.take(j + 1).last() == f[j as int]);
                j += 1;
            }
            assert(f.take(j as int) =~= f);
            res
        },
        PointAction::DeletePayload { keys } => {
            let ghost ks = strings_view(keys@);
            let mut res = true;
            let mut j: usize = 0;
            assert(ks.take(0) =~= Seq::<Seq<char>>::empty());
            while j < keys.len()
                invariant
                    j <= keys.len(),
                    ks == strings_view(keys@),
                    seg.wf(),
                    seg_holds(s0, id),
                    same_ids(s0, seg@),
                    seg@ == seg_delete_keys(s0, op_num, id, ks.take(j as int)),
                    res == delete_keys_changes(s0, op_num, id, ks.take(j as int)),
                decreases keys.len() - j,
            {
                let c = seg.delete_payload(op_num, id, &keys[j]);
                res = c && res;
                assert(ks.take(j + 1).drop_last() =~= ks.take(j as int));
                assert(ks.take(j + 1).last() == ks[j as int]);
                j += 1;
            }
            assert(ks.take(j as int) =~= ks);
            res
        },
        PointAction::ClearPayload => seg.clear_payload(op_num, id),
    }
}

/// The set of live segments.
pub struct SegmentHolder<T> {
    pub segments: Vec<Segment<T>>,
}

impl<T> View for SegmentHolder<T> {
    type V = HolderModel<T>;

    open spec fn view(&self) -> HolderModel<T> {
        self.segments@.map_values(|s: Segment<T>| s@)
    }
}

pub proof fn lemma_unique_subset<T>(h: HolderModel<T>, g: HolderModel<T>)
    requires
        unique_across(h),
        g.len() == h.len(),
        forall|k: int, x: PointIdType| 0 <= k < g.len() && #[trigger] seg_holds(g[k], x) ==> seg_holds(h[k], x),
    ensures
        unique_across(g),
{
    assert forall|k1: int, k2: int, x: PointIdType|
        #![trigger seg_holds(g[k1], x), seg_holds(g[k2], x)]
        0 <= k1 < g.len() && 0 <= k2 < g.len() && seg_holds(g[k1], x) && seg_holds(g[k2], x) implies k1 == k2 by {
        assert(seg_holds(h[k1], x) && seg_holds(h[k2], x));
    }
}

impl<T: Copy> SegmentHolder<T> {
    pub open spec fn wf(&self) -> bool {
        holder_wf(self@)
    }

    /// A holder without segments.
    pub fn new() -> (r: SegmentHolder<T>)
        ensures
            r@ == Seq::<Seq<RecordModel<T>>>::empty(),
            r.wf(),
    {
        let r = SegmentHolder { segments: Vec::new() };
        assert(r@ =~= Seq::<Seq<RecordModel<T>>>::empty());
        r
    }

    /// Adds an empty segment at the end.
    pub fn add_segment(&mut self)
        requires
            old(self).wf(),
        ensures
            final(self).wf(),
            final(self)@ == old(self)@.push(Seq::empty()),
    {
        let ghost h = self@;
        self.segments.push(Segment::new());
        assert(self@ =~= h.push(Seq::empty()));
        assert(unique_across(self@)) by {
            assert forall|k1: int, k2: int, x: PointIdType|
                #![trigger seg_holds(self@[k1], x), seg_holds(self@[k2], x)]
                0 <= k1 < self@.len() && 0 <= k2 < self@.len() && seg_holds(self@[k1], x) && seg_holds(self@[k2], x)
                implies k1 == k2 by {
                assert(seg_holds(h[k1], x) && seg_holds(h[k2], x));
            }
        }
    }

    pub fn num_segments(&self) -> (r: usize)
        ensures
            r == self@.len(),
    {
        self.segments.len()
    }

    /// Whether some segment holds the record `id`.
    pub fn holds_anywhere(&self, id: PointIdType) -> (r: bool)
        requires
            self.wf(),
        ensures
            r == holds_any(self@, id),
    {
        let mut k: usize = 0;
        while k < self.segments.len()
            invariant
                k <= self.segments.len(),
                holder_wf(self@),
                forall|k2: int| 0 <= k2 < k ==> !seg_holds(#[trigger] self@[k2], id),
            decreases self.segments.len() - k,
        {
            assert(self@[k as int] == self.segments@[k as int]@);
            if self.segments[k].has_point(id) {
                return true;
            }
            k += 1;
        }
        false
    }

    /// The record `id`, from the segment that holds it.
    pub fn get_record(&self, id: PointIdType) -> (r: Option<&crate::segment::Record<T>>)
        requires
            self.wf(),
        ensures
            match r {
                Some(rec) => exists|k: int| 0 <= k < self@.len() && seg_holds(#[trigger] self@[k], id)
                    && rec@ == seg_record(self@[k], id),
                None => !holds_any(self@, id),
            },
    {
        let mut k: usize = 0;
        while k < self.segments.len()
            invariant
                k <= self.segments.len(),
                holder_wf(self@),
                forall|k2: int| 0 <= k2 < k ==> !seg_holds(#[trigger] self@[k2], id),
            decreases self.segments.len() - k,
        {
            assert(self@[k as int] == self.segments@[k as int]@);
            match self.segments[k].get_record(id) {
                Some(rec) => return Some(rec),
                None => {},
            }
            k += 1;
        }
        None
    }

    /// Takes segment `k` out, leaving an empty one in its place.
    fn take_segment(&mut self, k: usize) -> (seg: Segment<T>)
        requires
            k < old(self).segments.len(),
        ensures
            seg@ == old(self)@[k as int],
            final(self).segments@ == old(self).segments@.update(k as int, final(self).segments@[k as int]),
            final(self).segments.len() == old(self).segments.len(),
    {
        let mut seg = Segment::new();
        self.segments.set_and_swap(k, &mut seg);
        seg
    }

    /// Puts segment `k` back.
    fn restore_segment(&mut self, k: usize, seg: Segment<T>, Ghost(before): Ghost<HolderModel<T>>)
        requires
            k < old(self).segments.len(),
            before.len() == old(self).segments.len(),
            forall|i: int| 0 <= i < before.len() && i != k ==> #[trigger] old(self)@[i] == before[i],
        ensures
            final(self)@ == before.update(k as int, seg@),
            final(self).segments.len() == old(self).segments.len(),
    {
        let ghost prev = self@;
        let ghost placed = seg@;
        let mut seg = seg;
        self.segments.set_and_swap(k, &mut seg);
        assert forall|i: int| 0 <= i < before.len() implies #[trigger] self@[i] == before.update(k as int, placed)[i] by {
            assert(self@[i] == self.segments@[i]@);
            if i != k {
                assert(self@[i] == prev[i]);
            }
        }
        assert(self@ =~= before.update(k as int, placed));
    }

    /// Does the action on each id in turn, in every segment that holds it,
    /// and says for each id whether some segment held it. The count is that
    /// of the ids that were found and reported a change.
    pub fn apply_points<'a>(&mut self, op_num: SeqNumberType, ids: &Vec<PointIdType>, action: &PointAction<'a, T>) -> (r: (usize, Vec<bool>))
        requires
            old(self).wf(),
            action_wf(action@),
            action@ is Upsert ==> action@->Upsert_0 == ids@,
        ensures
            final(self).wf(),
            final(self)@ == apply_ids(old(self)@, op_num, ids@, action@),
            r.0 as nat == count_ids(old(self)@, op_num, ids@, action@),
            r.1@ == found_ids(old(self)@, op_num, ids@, action@),
            r.1@.len() == ids@.len(),
            final(self)@.len() == old(self)@.len(),
            forall|k: int, x: PointIdType| 0 <= k < final(self)@.len() && #[trigger] seg_holds(final(self)@[k], x)
                ==> seg_holds(old(self)@[k], x),
            keeps_records(action@) ==> forall|k: int| 0 <= k < final(self)@.len()
                ==> same_ids(old(self)@[k], #[trigger] final(self)@[k]),
            keeps_records(action@) ==> forall|j: int| 0 <= j < ids@.len()
                ==> r.1@[j] == holds_any(old(self)@, #[trigger] ids@[j]),
    {
        let ghost h0 = self@;
        let ghost a = action@;
        let mut count: usize = 0;
        let mut found: Vec<bool> = Vec::new();
        let mut j: usize = 0;
        assert(ids@.take(0) =~= Seq::<PointIdType>::empty());
        while j < ids.len()
            invariant
                j <= ids.len(),
                a == action@,
                action_wf(a),
                a is Upsert ==> a->Upsert_0 == ids@,
                holder_wf(self@),
                self.segments.len() == h0.len(),
                self@ == apply_ids(h0, op_num, ids@.take(j as int), a),
                count <= j,
                count as nat == count_ids(h0, op_num, ids@.take(j as int), a),
                found@ == found_ids(h0, op_num, ids@.take(j as int), a),
                found@.len() == j,
                forall|k: int, x: PointIdType| 0 <= k < self@.len() && #[trigger] seg_holds(self@[k], x)
                    ==> seg_holds(h0[k], x),
                keeps_records(a) ==> forall|k: int| 0 <= k < self@.len() ==> same_ids(h0[k], #[trigger] self@[k]),
                keeps_records(a) ==> forall|j2: int| 0 <= j2 < j ==> found@[j2] == holds_any(h0, #[trigger] ids@[j2]),
            decreases ids.len() - j,
        {
            let id = ids[j];
            let ghost hc = self@;
            let mut hit = false;
            let mut changed = false;
            let mut k: usize = 0;
            while k < self.segments.len()
                invariant
                    k <= self.segments.len(),
                    self.segments.len() == hc.len(),
                    a == action@,
                    action_wf(a),
                    a is Upsert ==> a->Upsert_0 == ids@,
                    j < ids@.len(),
                    id == ids@[j as int],
                    holder_wf(hc),
                    forall|i: int| 0 <= i < k ==> #[trigger] self@[i] == (if seg_holds(hc[i], id) {
                        seg_apply(hc[i], op_num, id, a)
                    } else {
                        hc[i]
                    }),
                    forall|i: int| k <= i < hc.len() ==> #[trigger] self@[i] == hc[i],
                    forall|i: int| 0 <= i < hc.len() ==> seg_wf(#[trigger] self@[i]),
                    forall|i: int, x: PointIdType| 0 <= i < hc.len() && #[trigger] seg_holds(self@[i], x)
                        ==> seg_holds(hc[i], x),
                    keeps_records(a) ==> forall|i: int| 0 <= i < hc.len() ==> same_ids(hc[i], #[trigger] self@[i]),
                    hit == exists|i: int| 0 <= i < k && seg_holds(#[trigger] hc[i], id),
                    changed == exists|i: int| 0 <= i < k && seg_holds(#[trigger] hc[i], id)
                        && seg_apply_changes(hc[i], op_num, id, a),
                decreases self.segments.len() - k,
            {
                assert(self@[k as int] == self.segments@[k as int]@);
                if self.segments[k].has_point(id) {
                    hit = true;
                    let ghost cur = self@;
                    let mut seg = self.take_segment(k);
                    assert forall|i: int| 0 <= i < cur.len() && i != k implies #[trigger] self@[i] == cur[i] by {
                        assert(self@[i] == self.segments@[i]@);
                    }
                    proof {
                        if a is Upsert {
                            assert(ids@[j as int] == id);
                            assert(ids@.contains(id));
                        }
                    }
                    let c = apply_to_segment(&mut seg, op_num, id, action);
                    self.restore_segment(k, seg, Ghost(cur));
                    changed = changed || c;
                }
                k += 1;
            }
            assert(self@ =~= step(hc, op_num, id, a));
            proof {
                lemma_unique_subset(hc, self@);
                assert(hit == holds_any(hc, id));
                assert(changed == step_changes(hc, op_num, id, a));
                assert(ids@.take(j + 1).drop_last() =~= ids@.take(j as int));
                assert(ids@.take(j + 1).last() == id);
            }
            proof {
                if keeps_records(a) {
                    if holds_any(hc, id) {
                        let k = choose|k: int| 0 <= k < hc.len() && seg_holds(#[trigger] hc[k], id);
                        assert(same_ids(h0[k], hc[k]));
                        assert(seg_holds(h0[k], id));
                    }
                    if holds_any(h0, id) {
                        let k = choose|k: int| 0 <= k < h0.len() && seg_holds(#[trigger] h0[k], id);
                        assert(same_ids(h0[k], hc[k]));
                        assert(seg_holds(hc[k], id));
                    }
                }
            }
            found.push(hit);
            if changed {
                count += 1;
            }
            j += 1;
            proof {
                assert forall|i: int, x: PointIdType| 0 <= i < self@.len() && #[trigger] seg_holds(self@[i], x)
                    implies seg_holds(h0[i], x) by {
                    assert(seg_holds(hc[i], x));
                }
                if keeps_records(a) {
                    assert forall|i: int| 0 <= i < self@.len() implies same_ids(h0[i], #[trigger] self@[i]) by {
                        assert(same_ids(hc[i], self@[i]));
                        assert(same_ids(h0[i], hc[i]));
                    }
                }
            }
        }
        assert(ids@.take(j as int) =~= ids@);
        (count, found)
    }

    /// Wipes the payload of every segment; counts the segments that report a change.
    pub fn apply_segments(&mut self, op_num: SeqNumberType) -> (r: usize)
        requires
            old(self).wf(),
        ensures
            final(self).wf(),
            final(self)@ == wipe_all(old(self)@, op_num),
            r as nat == wipe_count(old(self)@, op_num, old(self)@.len() as int),
            forall|k: int| 0 <= k < final(self)@.len() ==> same_ids(old(self)@[k], #[trigger] final(self)@[k]),
    {
        let ghost h0 = self@;
        let mut count: usize = 0;
        let mut k: usize = 0;
        while k < self.segments.len()
            invariant
                k <= self.segments.len(),
                self.segments.len() == h0.len(),
                holder_wf(h0),
                forall|i: int| 0 <= i < k ==> #[trigger] self@[i] == seg_wipe(h0[i], op_num),
                forall|i: int| k <= i < h0.len() ==> #[trigger] self@[i] == h0[i],
                forall|i: int| 0 <= i < h0.len() ==> seg_wf(#[trigger] self@[i]),
                forall|i: int| 0 <= i < h0.len() ==> same_ids(h0[i], #[trigger] self@[i]),
                count <= k,
                count as nat == wipe_count(h0, op_num, k as int),
            decreases self.segments.len() - k,
        {
            let ghost cur = self@;
            let mut seg = self.take_segment(k);
            assert forall|i: int| 0 <= i < cur.len() && i != k implies #[trigger] self@[i] == cur[i] by {
                assert(self@[i] == self.segments@[i]@);
            }
            let c = seg.wipe_payload(op_num);
            self.restore_segment(k, seg, Ghost(cur));
            if c {
                count += 1;
            }
            k += 1;
        }
        assert(self@ =~= wipe_all(h0, op_num));
        proof {
            assert forall|i: int, x: PointIdType| 0 <= i < self@.len() && #[trigger] seg_holds(self@[i], x)
                implies seg_holds(h0[i], x) by {
                assert(same_ids(h0[i], self@[i]));
            }
            lemma_unique_subset(h0, self@);
        }
        count
    }

    /// One live segment, drawn at random; none where there is no segment.
    pub fn random_segment(&self) -> (r: Option<usize>)
        ensures
            r is None <==> self@.len() == 0,
            r matches Some(k) ==> k < self@.len(),
    {
        if self.segments.len() == 0 {
            None
        } else {
            Some(random_index(self.segments.len()))
        }
    }

    /// Upserts, into segment `target`, each id that no segment held when the
    /// fan-out reached it.
    pub fn insert_new_points(
        &mut self,
        op_num: SeqNumberType,
        target: usize,
        ids: &Vec<PointIdType>,
        vectors: &Vec<Vec<T>>,
        found: &Vec<bool>,
    )
        requires
            old(self).wf(),
            target < old(self)@.len(),
            ids@.len() <= vectors@.len(),
            found@.len() == ids@.len(),
            forall|j: int| 0 <= j < ids@.len() ==> found@[j] == holds_any(old(self)@, #[trigger] ids@[j]),
        ensures
            final(self).wf(),
            final(self)@ == insert_residual(old(self)@, op_num, target as int, ids@, vectors_view(vectors@), found@, ids@.len() as int),
    {
        let ghost h0 = self@;
        let ghost vs = vectors_view(vectors@);
        let mut j: usize = 0;
        while j < ids.len()
            invariant
                j <= ids.len(),
                ids@.len() <= vectors@.len(),
                vs == vectors_view(vectors@),
                found@.len() == ids@.len(),
                forall|j2: int| 0 <= j2 < ids@.len() ==> found@[j2] == holds_any(h0, #[trigger] ids@[j2]),
                holder_wf(h0),
                target < h0.len(),
                self.segments.len() == h0.len(),
                holder_wf(self@),
                self@ == insert_residual(h0, op_num, target as int, ids@, vs, found@, j as int),
                forall|k: int, x: PointIdType| 0 <= k < h0.len() && k != target && #[trigger] seg_holds(self@[k], x)
                    ==> seg_holds(h0[k], x),
                forall|x: PointIdType| #[trigger] seg_holds(self@[target as int], x) ==> seg_holds(h0[target as int], x)
                    || exists|j2: int| 0 <= j2 < j && ids@[j2] == x && !found@[j2],
            decreases ids.len() - j,
        {
            if !found[j] {
                let id = ids[j];
                let ghost cur = self@;
                let mut seg = self.take_segment(target);
                assert forall|i: int| 0 <= i < cur.len() && i != target implies #[trigger] self@[i] == cur[i] by {
                    assert(self@[i] == self.segments@[i]@);
                }
                assert(ids@.contains(id)) by { assert(ids@[j as int] == id); }
                let v = vector_index(ids, id);
                assert(vs[v as int] == vectors@[v as int]@);
                seg.upsert_point(op_num, id, &vectors[v]);
                self.restore_segment(target, seg, Ghost(cur));
                proof {
                    assert forall|k1: int, k2: int, x: PointIdType|
                        #![trigger seg_holds(self@[k1], x), seg_holds(self@[k2], x)]
                        0 <= k1 < self@.len() && 0 <= k2 < self@.len() && seg_holds(self@[k1], x) && seg_holds(self@[k2], x)
                        implies k1 == k2 by {
                        if k1 != k2 {
                            if k1 == target {
                                assert(seg_holds(cur[k2], x));
                                if x == id {
                                    assert(seg_holds(h0[k2], x));
                                    assert(!holds_any(h0, ids@[j as int]));
                                } else {
                                    assert(seg_holds(cur[k1], x));
                                }
                            } else if k2 == target {
                                assert(seg_holds(cur[k1], x));
                                if x == id {
                                    assert(seg_holds(h0[k1], x));
                                    assert(!holds_any(h0, ids@[j as int]));
                                } else {
                                    assert(seg_holds(cur[k2], x));
                                }
                            } else {
                                assert(seg_holds(cur[k1], x) && seg_holds(cur[k2], x));
                            }
                        }
                    }
                    assert forall|x: PointIdType| #[trigger] seg_holds(self@[target as int], x) implies seg_holds(h0[target as int], x)
                        || exists|j2: int| 0 <= j2 < j + 1 && ids@[j2] == x && !found@[j2] by {
                        if x == id {
                            assert(ids@[j as int] == x && !found@[j as int]);
                        } else {
                            assert(seg_holds(cur[target as int], x));
                        }
                    }
                }
            }
            j += 1;
        }
    }
}

/// The segments after upserting into segment `target` each of the first `n`
/// ids that was not found.
pub open spec fn insert_residual<T>(
    h: HolderModel<T>,
    op: SeqNumberType,
    target: int,
    ids: Seq<PointIdType>,
    vs: Seq<Seq<T>>,
    found: Seq<bool>,
    n: int,
) -> HolderModel<T>
    decreases n,
{
    if n <= 0 {
        h
    } else {
        let p = insert_residual(h, op, target, ids, vs, found, n - 1);
        if found[n - 1] {
            p
        } else {
            p.update(target, seg_upsert(p[target], op, ids[n - 1], vector_for(ids, vs, ids[n - 1])))
        }
    }
}

/// Relies on rand's `thread_rng().gen_range(0..n)`: a position below `n`,
/// drawn at random.
#[verifier::external_body]
fn random_index(n: usize) -> (r: usize)
    requires
        n > 0,
    ensures
        r < n,
{
    rand::thread_rng().gen_range(0..n)
}

} // verus!
