use vstd::prelude::*;
use crate::holder::{
    keeps_records, ActionModel, HolderModel, PointAction, SegmentHolder, apply_ids, count_ids, fields_view, holds_any,
    insert_residual, vectors_view, wipe_all, wipe_count,
};
use crate::payload::{strings_view, PayloadInterface, PayloadKeyType};
use crate::segment::{PointIdType, Record, SeqNumberType, same_ids, seg_holds, seg_record};

verus! {

/// Why an update failed.
#[derive(Debug)]
pub enum UpdateError {
    /// A payload operation named a record that no segment holds.
    NotFound { missed_point_id: PointIdType },
    /// The collection cannot take the update at all.
    ServiceError { error: String },
}

pub type OperationResult<R> = Result<R, UpdateError>;

/// Mutations of whole records.
pub enum PointOps<T> {
    UpsertPoints { collection: String, ids: Vec<PointIdType>, vectors: Vec<Vec<T>> },
    DeletePoints { collection: String, ids: Vec<PointIdType> },
}

/// Mutations of payload.
pub enum PayloadOps {
    SetPayload { collection: String, payload: Vec<(PayloadKeyType, PayloadInterface)>, points: Vec<PointIdType> },
    DeletePayload { collection: String, keys: Vec<PayloadKeyType>, points: Vec<PointIdType> },
    ClearPayload { collection: String, points: Vec<PointIdType> },
    WipePayload { collection: String },
}

/// Any mutation of the collection.
pub enum CollectionUpdateOperations<T> {
    PointOperation(PointOps<T>),
    PayloadOperation(PayloadOps),
}

/// The first id, in order, whose flag is false.
pub open spec fn first_unprocessed(points: Seq<PointIdType>, processed: Seq<bool>) -> Option<PointIdType>
    decreases points.len(),
{
    if points.len() == 0 {
        None
    } else {
        let before = first_unprocessed(points.drop_last(), processed.drop_last());
        if before is Some {
            before
        } else if !processed[points.len() - 1] {
            Some(points.last())
        } else {
            None
        }
    }
}

/// The first id, in order, that no segment holds.
pub open spec fn first_missing<T>(h: HolderModel<T>, points: Seq<PointIdType>) -> Option<PointIdType> {
    first_unprocessed(points, points.map_values(|x: PointIdType| holds_any(h, x)))
}

pub open spec fn all_held<T>(h: HolderModel<T>, ids: Seq<PointIdType>) -> bool {
    forall|j: int| 0 <= j < ids.len() ==> holds_any(h, #[trigger] ids[j])
}

/// The outcome of a payload operation on `points`: the action was done on
/// every record found; the call fails on the first id that was not.
pub open spec fn payload_outcome<T>(
    h0: HolderModel<T>,
    h1: HolderModel<T>,
    op: SeqNumberType,
    points: Seq<PointIdType>,
    a: ActionModel<T>,
    r: OperationResult<usize>,
) -> bool {
    &&& h1 == apply_ids(h0, op, points, a)
    &&& match first_missing(h0, points) {
        Some(id) => r == Err::<usize, UpdateError>(UpdateError::NotFound { missed_point_id: id }),
        None => (r is Ok && r->Ok_0 as nat == count_ids(h0, op, points, a)),
    }
}

/// The outcome of an upsert that puts new records into segment `target`:
/// records that exist are updated where they are, the others are inserted
/// into `target`, and the count is that of the records updated in place.
pub open spec fn upsert_outcome<T>(
    h0: HolderModel<T>,
    h1: HolderModel<T>,
    op: SeqNumberType,
    ids: Seq<PointIdType>,
    vs: Seq<Seq<T>>,
    target: int,
    r: OperationResult<usize>,
) -> bool {
    let a = ActionModel::Upsert(ids, vs);
    let fanned = apply_ids(h0, op, ids, a);
    if all_held(h0, ids) {
        h1 == fanned && (r is Ok && r->Ok_0 as nat == count_ids(h0, op, ids, a))
    } else if h0.len() == 0 {
        h1 == h0 && r is Err && r->Err_0 is ServiceError
    } else {
        &&& h1 == insert_residual(fanned, op, target, ids, vs, ids.map_values(|x: PointIdType| holds_any(h0, x)), ids.len() as int)
        &&& (r is Ok && r->Ok_0 as nat == count_ids(h0, op, ids, a))
    }
}

/// The outcome of an upsert, with new records put into some live segment.
pub open spec fn upsert_outcome_some<T>(
    h0: HolderModel<T>,
    h1: HolderModel<T>,
    op: SeqNumberType,
    ids: Seq<PointIdType>,
    vs: Seq<Seq<T>>,
    r: OperationResult<usize>,
) -> bool {
    (exists|t: int| 0 <= t < h0.len() && #[trigger] upsert_outcome(h0, h1, op, ids, vs, t, r))
    || (h0.len() == 0 && upsert_outcome(h0, h1, op, ids, vs, 0, r))
}

pub open spec fn delete_outcome<T>(
    h0: HolderModel<T>,
    h1: HolderModel<T>,
    op: SeqNumberType,
    ids: Seq<PointIdType>,
    r: OperationResult<usize>,
) -> bool {
    &&& h1 == apply_ids(h0, op, ids, ActionModel::Delete)
    &&& (r is Ok && r->Ok_0 as nat == count_ids(h0, op, ids, ActionModel::Delete))
}

pub open spec fn wipe_outcome<T>(h0: HolderModel<T>, h1: HolderModel<T>, op: SeqNumberType, r: OperationResult<usize>) -> bool {
    &&& h1 == wipe_all(h0, op)
    &&& (r is Ok && r->Ok_0 as nat == wipe_count(h0, op, h0.len() as int))
}

pub open spec fn point_ops_wf<T>(o: PointOps<T>) -> bool {
    match o {
        PointOps::UpsertPoints { ids, vectors, .. } => ids@.len() <= vectors@.len(),
        PointOps::DeletePoints { .. } => true,
    }
}

pub open spec fn point_ops_outcome<T>(h0: HolderModel<T>, h1: HolderModel<T>, op: SeqNumberType, o: PointOps<T>, r: OperationResult<usize>) -> bool {
    match o {
        PointOps::UpsertPoints { ids, vectors, .. } => upsert_outcome_some(h0, h1, op, ids@, vectors_view(vectors@), r),
        PointOps::DeletePoints { ids, .. } => delete_outcome(h0, h1, op, ids@, r),
    }
}

pub open spec fn payload_ops_outcome<T>(h0: HolderModel<T>, h1: HolderModel<T>, op: SeqNumberType, o: PayloadOps, r: OperationResult<usize>) -> bool {
    match o {
        PayloadOps::SetPayload { payload, points, .. } =>
            payload_outcome(h0, h1, op, points@, ActionModel::SetPayload(fields_view(payload@)), r),
        PayloadOps::DeletePayload { keys, points, .. } =>
            payload_outcome(h0, h1, op, points@, ActionModel::DeletePayload(strings_view(keys@)), r),
        PayloadOps::ClearPayload { points, .. } => payload_outcome(h0, h1, op, points@, ActionModel::ClearPayload, r),
        PayloadOps::WipePayload { .. } => wipe_outcome(h0, h1, op, r),
    }
}

/// Applies mutations to the segments of one collection.
pub struct SimpleSegmentUpdater<T> {
    pub segments: SegmentHolder<T>,
}

impl<T> View for SimpleSegmentUpdater<T> {
    type V = HolderModel<T>;

    open spec fn view(&self) -> HolderModel<T> {
        self.segments@
    }
}

impl<T: Copy> SimpleSegmentUpdater<T> {
    pub open spec fn wf(&self) -> bool {
        self.segments.wf()
    }

    pub fn new(segments: SegmentHolder<T>) -> (r: SimpleSegmentUpdater<T>)
        ensures
            r@ == segments@,
    {
        SimpleSegmentUpdater { segments }
    }

    /// The record `id`, from the segment that holds it.
    pub fn get_record(&self, id: PointIdType) -> (r: Option<&Record<T>>)
        requires
            self.wf(),
        ensures
            match r {
                Some(rec) => exists|k: int| 0 <= k < self@.len() && seg_holds(#[trigger] self@[k], id)
                    && rec@ == seg_record(self@[k], id),
                None => !holds_any(self@, id),
            },
    {
        let r = self.segments.get_record(id);
        proof {
            if let Some(rec) = r {
                let k = choose|k: int| 0 <= k < self.segments@.len() && seg_holds(#[trigger] self.segments@[k], id)
                    && rec@ == seg_record(self.segments@[k], id);
                assert(seg_holds(self@[k], id));
            }
        }
        r
    }

    /// Fails on the first point, in order, that was not processed.
    pub fn check_unprocessed_points(points: &Vec<PointIdType>, processed: &Vec<bool>) -> (r: OperationResult<usize>)
        requires
            points@.len() == processed@.len(),
        ensures
            match first_unprocessed(points@, processed@) {
                Some(id) => r == Err::<usize, UpdateError>(UpdateError::NotFound { missed_point_id: id }),
                None => r == Ok::<usize, UpdateError>(points@.len() as usize),
            },
    {
        let mut j: usize = 0;
        while j < points.len()
            invariant
                j <= points.len(),
                points@.len() == processed@.len(),
                first_unprocessed(points@.take(j as int), processed@.take(j as int)) is None,
            decreases points.len() - j,
        {
            assert(points@.take(j + 1).drop_last() =~= points@.take(j as int));
            assert(processed@.take(j + 1).drop_last() =~= processed@.take(j as int));
            if !processed[j] {
                proof { lemma_first_unprocessed_prefix(points@, processed@, j as int + 1); }
                return Err(UpdateError::NotFound { missed_point_id: points[j] });
            }
            j += 1;
        }
        assert(points@.take(j as int) =~= points@);
        assert(processed@.take(j as int) =~= processed@);
        Ok(points.len())
    }
}

impl<T: Copy> SimpleSegmentUpdater<T> {
    /// Deletes the records from every segment that holds them; the count is
    /// that of the records actually removed. An absent id is no error.
    pub fn delete_points(&mut self, op_num: SeqNumberType, ids: &Vec<PointIdType>) -> (r: OperationResult<usize>)
        requires
            old(self).wf(),
        ensures
            final(self).wf(),
            delete_outcome(old(self)@, final(self)@, op_num, ids@, r),
    {
        let (count, _found) = self.segments.apply_points(op_num, ids, &PointAction::Delete);
        Ok(count)
    }

    /// Updates the records that exist where they are and inserts the others
    /// into segment `target`; the count is that of the records updated in place.
    pub fn upsert_points_to(
        &mut self,
        op_num: SeqNumberType,
        ids: &Vec<PointIdType>,
        vectors: &Vec<Vec<T>>,
        target: usize,
    ) -> (r: OperationResult<usize>)
        requires
            old(self).wf(),
            ids@.len() <= vectors@.len(),
            old(self)@.len() > 0 ==> target < old(self)@.len(),
        ensures
            final(self).wf(),
            upsert_outcome(old(self)@, final(self)@, op_num, ids@, vectors_view(vectors@), target as int, r),
    {
        let ghost h0 = self@;
        let action = PointAction::Upsert { ids, vectors };
        let (count, found) = self.segments.apply_points(op_num, ids, &action);
        let ghost h1 = self@;
        proof { lemma_same_holds(h0, h1); }
        let mut all = true;
        let mut j: usize = 0;
        while j < found.len()
            invariant
                j <= found.len(),
                found@.len() == ids@.len(),
                forall|j2: int| 0 <= j2 < ids@.len() ==> found@[j2] == holds_any(h0, #[trigger] ids@[j2]),
                all == forall|j2: int| 0 <= j2 < j ==> holds_any(h0, #[trigger] ids@[j2]),
            decreases found.len() - j,
        {
            assert(found@[j as int] == holds_any(h0, ids@[j as int]));
            if !found[j] {
                all = false;
            }
            j += 1;
        }
        if all {
            return Ok(count);
        }
        if self.segments.num_segments() == 0 {
            assert(self@ =~= h0);
            return Err(UpdateError::ServiceError { error: "No segments exists, expected at least one".to_owned() });
        }
        assert(found@ =~= ids@.map_values(|x: PointIdType| holds_any(h0, x)));
        self.segments.insert_new_points(op_num, target, ids, vectors, &found);
        Ok(count)
    }

    /// Updates the records that exist where they are and inserts the others
    /// into one live segment drawn at random.
    pub fn upsert_points(&mut self, op_num: SeqNumberType, ids: &Vec<PointIdType>, vectors: &Vec<Vec<T>>) -> (r: OperationResult<usize>)
        requires
            old(self).wf(),
            ids@.len() <= vectors@.len(),
        ensures
            final(self).wf(),
            upsert_outcome_some(old(self)@, final(self)@, op_num, ids@, vectors_view(vectors@), r),
    {
        let target = match self.segments.random_segment() {
            Some(k) => k,
            None => 0,
        };
        self.upsert_points_to(op_num, ids, vectors, target)
    }

    /// Does a payload action on each point, then fails on the first point that
    /// no segment held. What was done to the points found stays done.
    fn payload_op<'a>(&mut self, op_num: SeqNumberType, points: &Vec<PointIdType>, action: &PointAction<'a, T>) -> (r: OperationResult<usize>)
        requires
            old(self).wf(),
            keeps_records(action@),
            !(action@ is Upsert),
        ensures
            final(self).wf(),
            payload_outcome(old(self)@, final(self)@, op_num, points@, action@, r),
    {
        let ghost h0 = self@;
        let (count, found) = self.segments.apply_points(op_num, points, action);
        assert(found@ =~= points@.map_values(|x: PointIdType| holds_any(h0, x)));
        match Self::check_unprocessed_points(points, &found) {
            Err(e) => Err(e),
            Ok(_) => Ok(count),
        }
    }

    /// Sets each field of `payload` on each point.
    pub fn set_payload(
        &mut self,
        op_num: SeqNumberType,
        payload: &Vec<(PayloadKeyType, PayloadInterface)>,
        points: &Vec<PointIdType>,
    ) -> (r: OperationResult<usize>)
        requires
            old(self).wf(),
        ensures
            final(self).wf(),
            payload_outcome(old(self)@, final(self)@, op_num, points@, ActionModel::SetPayload(fields_view(payload@)), r),
    {
        self.payload_op(op_num, points, &PointAction::SetPayload { payload })
    }

    /// Removes each of `keys` from each point.
    pub fn delete_payload(
        &mut self,
        op_num: SeqNumberType,
        points: &Vec<PointIdType>,
        keys: &Vec<PayloadKeyType>,
    ) -> (r: OperationResult<usize>)
        requires
            old(self).wf(),
        ensures
            final(self).wf(),
            payload_outcome(old(self)@, final(self)@, op_num, points@, ActionModel::DeletePayload(strings_view(keys@)), r),
    {
        self.payload_op(op_num, points, &PointAction::DeletePayload { keys })
    }

    /// Removes all payload from each point.
    pub fn clear_payload(&mut self, op_num: SeqNumberType, points: &Vec<PointIdType>) -> (r: OperationResult<usize>)
        requires
            old(self).wf(),
        ensures
            final(self).wf(),
            payload_outcome(old(self)@, final(self)@, op_num, points@, ActionModel::ClearPayload, r),
    {
        self.payload_op(op_num, points, &PointAction::ClearPayload)
    }

    /// Removes all payload from every segment.
    pub fn wipe_payload(&mut self, op_num: SeqNumberType) -> (r: OperationResult<usize>)
        requires
            old(self).wf(),
        ensures
            final(self).wf(),
            wipe_outcome(old(self)@, final(self)@, op_num, r),
    {
        Ok(self.segments.apply_segments(op_num))
    }

    pub fn process_point_operation(&mut self, op_num: SeqNumberType, point_operation: &PointOps<T>) -> (r: OperationResult<usize>)
        requires
            old(self).wf(),
            point_ops_wf(*point_operation),
        ensures
            final(self).wf(),
            point_ops_outcome(old(self)@, final(self)@, op_num, *point_operation, r),
    {
        match point_operation {
            PointOps::UpsertPoints { ids, vectors, .. } => self.upsert_points(op_num, ids, vectors),
            PointOps::DeletePoints { ids, .. } => self.delete_points(op_num, ids),
        }
    }

    pub fn process_payload_operation(&mut self, op_num: SeqNumberType, payload_operation: &PayloadOps) -> (r: OperationResult<usize>)
        requires
            old(self).wf(),
        ensures
            final(self).wf(),
            payload_ops_outcome(old(self)@, final(self)@, op_num, *payload_operation, r),
    {
        match payload_operation {
            PayloadOps::SetPayload { payload, points, .. } => self.set_payload(op_num, payload, points),
            PayloadOps::DeletePayload { keys, points, .. } => self.delete_payload(op_num, points, keys),
            PayloadOps::ClearPayload { points, .. } => self.clear_payload(op_num, points),
            PayloadOps::WipePayload { .. } => self.wipe_payload(op_num),
        }
    }

    /// Applies one mutation with its sequence number.
    pub fn update(&mut self, op_num: SeqNumberType, operation: &CollectionUpdateOperations<T>) -> (r: OperationResult<usize>)
        requires
            old(self).wf(),
            *operation matches CollectionUpdateOperations::PointOperation(o) ==> point_ops_wf(o),
        ensures
            final(self).wf(),
            match *operation {
                CollectionUpdateOperations::PointOperation(o) => point_ops_outcome(old(self)@, final(self)@, op_num, o, r),
                CollectionUpdateOperations::PayloadOperation(o) => payload_ops_outcome(old(self)@, final(self)@, op_num, o, r),
            },
    {
        match operation {
            CollectionUpdateOperations::PointOperation(o) => self.process_point_operation(op_num, o),
            CollectionUpdateOperations::PayloadOperation(o) => self.process_payload_operation(op_num, o),
        }
    }
}

/// Segments that hold the same ids, one by one, hold the same ids together.
pub proof fn lemma_same_holds<T>(h0: HolderModel<T>, h1: HolderModel<T>)
    requires
        h0.len() == h1.len(),
        forall|k: int| 0 <= k < h1.len() ==> same_ids(h0[k], #[trigger] h1[k]),
    ensures
        forall|x: PointIdType| holds_any(h0, x) == holds_any(h1, x),
{
    assert forall|x: PointIdType| holds_any(h0, x) == holds_any(h1, x) by {
        if holds_any(h0, x) {
            let k = choose|k: int| 0 <= k < h0.len() && seg_holds(#[trigger] h0[k], x);
            assert(same_ids(h0[k], h1[k]));
            assert(seg_holds(h1[k], x));
        }
        if holds_any(h1, x) {
            let k = choose|k: int| 0 <= k < h1.len() && seg_holds(#[trigger] h1[k], x);
            assert(same_ids(h0[k], h1[k]));
            assert(seg_holds(h0[k], x));
        }
    }
}

/// Once an id is found unprocessed, ids after it do not change the answer.
pub proof fn lemma_first_unprocessed_prefix(points: Seq<PointIdType>, processed: Seq<bool>, n: int)
    requires
        0 <= n <= points.len(),
        points.len() == processed.len(),
        first_unprocessed(points.take(n), processed.take(n)) is Some,
    ensures
        first_unprocessed(points, processed) == first_unprocessed(points.take(n), processed.take(n)),
    decreases points.len() - n,
{
    if n < points.len() {
        assert(points.take(n + 1).drop_last() =~= points.take(n));
        assert(processed.take(n + 1).drop_last() =~= processed.take(n));
        assert(first_unprocessed(points.take(n + 1), processed.take(n + 1))
            == first_unprocessed(points.take(n), processed.take(n)));
        lemma_first_unprocessed_prefix(points, processed, n + 1);
    } else {
        assert(points.take(n) =~= points);
        assert(processed.take(n) =~= processed);
    }
}

} // verus!
