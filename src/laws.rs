use vstd::prelude::*;
use crate::payload::PayloadModel;
use crate::holder::{
    ActionModel, HolderModel, apply_ids, count_ids, holder_wf, holds_any, insert_residual, seg_apply,
    seg_apply_changes, seg_delete_keys, delete_keys_changes, seg_set_all, set_all_changes, step, step_changes, vector_for, wipe_count,
};
use crate::segment::{
    PointIdType, RecordModel, SeqNumberType, clear_changes, delete_changes, delete_key_changes, has_key,
    ids_unique, key_index, keys_unique, lemma_index_of, new_record, record_clear, record_delete_key,
    record_set, record_upsert, same_ids, seg_holds, seg_index, seg_put, seg_record, seg_upsert, seg_wipe,
    seg_wipe_changes, set_changes, set_key, remove_key, seg_wf, PayloadSeq,
};
use crate::updater::{
    all_held, delete_outcome, first_missing, lemma_same_holds, payload_outcome, upsert_outcome,
    wipe_outcome,
};

verus! {

/// Replaying the clearing of a record's payload changes nothing more and
/// reports no change.
pub proof fn lemma_clear_replay<T>(r: RecordModel<T>, op: SeqNumberType)
    ensures
        record_clear(record_clear(r, op), op) == record_clear(r, op),
        !clear_changes(record_clear(r, op), op),
{
}

/// Two upserts of one record end in the same state whichever arrives first,
/// when their sequence numbers differ.
pub proof fn lemma_upserts_commute<T>(r: RecordModel<T>, op1: SeqNumberType, v1: Seq<T>, op2: SeqNumberType, v2: Seq<T>)
    requires
        op1 != op2,
    ensures
        record_upsert(record_upsert(r, op1, v1), op2, v2) == record_upsert(record_upsert(r, op2, v2), op1, v1),
{
}

/// How many of the ids some segment holds.
pub open spec fn count_held<T>(h: HolderModel<T>, ids: Seq<PointIdType>) -> nat
    decreases ids.len(),
{
    if ids.len() == 0 {
        0
    } else {
        count_held(h, ids.drop_last()) + if holds_any(h, ids.last()) { 1nat } else { 0nat }
    }
}

/// Replacing one record leaves the others and the set of ids as they were.
pub proof fn lemma_put_frame<T>(s: Seq<RecordModel<T>>, x: PointIdType, r: RecordModel<T>)
    requires
        ids_unique(s),
        seg_holds(s, x),
        r.id == x,
    ensures
        ids_unique(seg_put(s, x, r)),
        same_ids(s, seg_put(s, x, r)),
        seg_record(seg_put(s, x, r), x) == r,
        forall|y: PointIdType| y != x && seg_holds(s, y) ==> #[trigger] seg_record(seg_put(s, x, r), y) == seg_record(s, y),
{
    let i = seg_index(s, x);
    let t = s.update(i, r);
    assert(t == seg_put(s, x, r));
    assert forall|a: int, b: int| 0 <= a < t.len() && 0 <= b < t.len() && t[a].id == t[b].id implies a == b by {
        assert(t[a].id == s[a].id && t[b].id == s[b].id);
    }
    lemma_index_of(t, i);
    crate::segment::lemma_same_ids(s, t);
    assert forall|y: PointIdType| y != x && seg_holds(s, y) implies #[trigger] seg_record(seg_put(s, x, r), y) == seg_record(s, y) by {
        let j = seg_index(s, y);
        lemma_index_of(s, j);
        lemma_index_of(t, j);
    }
}

/// Putting a record back unchanged leaves the segment as it was.
pub proof fn lemma_put_same<T>(s: Seq<RecordModel<T>>, x: PointIdType)
    requires
        seg_holds(s, x),
    ensures
        seg_put(s, x, seg_record(s, x)) == s,
{
    assert(s.update(seg_index(s, x), s[seg_index(s, x)]) =~= s);
}

/// Appending a record with a new id leaves the others where they were.
pub proof fn lemma_push_frame<T>(s: Seq<RecordModel<T>>, r: RecordModel<T>)
    requires
        ids_unique(s),
        !seg_holds(s, r.id),
    ensures
        ids_unique(s.push(r)),
        forall|y: PointIdType| #[trigger] seg_holds(s.push(r), y) <==> (seg_holds(s, y) || y == r.id),
        seg_record(s.push(r), r.id) == r,
        forall|y: PointIdType| seg_holds(s, y) ==> #[trigger] seg_record(s.push(r), y) == seg_record(s, y),
{
    let t = s.push(r);
    assert forall|a: int, b: int| 0 <= a < t.len() && 0 <= b < t.len() && t[a].id == t[b].id implies a == b by {
        if a < s.len() && b == s.len() {
            assert(seg_holds(s, r.id));
        }
        if b < s.len() && a == s.len() {
            assert(seg_holds(s, r.id));
        }
    }
    assert forall|y: PointIdType| #[trigger] seg_holds(t, y) <==> (seg_holds(s, y) || y == r.id) by {
        if seg_holds(s, y) {
            let k = choose|k: int| 0 <= k < s.len() && s[k].id == y;
            assert(t[k].id == y);
        }
        if y == r.id {
            assert(t[s.len() as int].id == y);
        }
        if seg_holds(t, y) && y != r.id {
            let k = choose|k: int| 0 <= k < t.len() && t[k].id == y;
            assert(s[k].id == y);
        }
    }
    lemma_index_of(t, s.len() as int);
    assert forall|y: PointIdType| seg_holds(s, y) implies #[trigger] seg_record(s.push(r), y) == seg_record(s, y) by {
        let j = seg_index(s, y);
        lemma_index_of(s, j);
        lemma_index_of(t, j);
    }
}

/// The fan-out of an upsert with distinct ids and a sequence number newer
/// than every record it names updates each record it finds, leaves the rest,
/// and counts the ids found.
pub proof fn lemma_fanout_upsert<T>(h0: HolderModel<T>, op: SeqNumberType, ids: Seq<PointIdType>, vs: Seq<Seq<T>>, n: int)
    requires
        forall|k: int| 0 <= k < h0.len() ==> ids_unique(#[trigger] h0[k]),
        ids.no_duplicates(),
        0 <= n <= ids.len(),
        forall|j: int, k: int| 0 <= j < ids.len() && 0 <= k < h0.len() && seg_holds(h0[k], #[trigger] ids[j])
            ==> (#[trigger] seg_record(h0[k], ids[j])).version < op,
    ensures
        apply_ids(h0, op, ids.take(n), ActionModel::Upsert(ids, vs)).len() == h0.len(),
        forall|k: int| 0 <= k < h0.len() ==> ids_unique(#[trigger] apply_ids(h0, op, ids.take(n), ActionModel::Upsert(ids, vs))[k]),
        forall|k: int| 0 <= k < h0.len() ==> same_ids(h0[k], #[trigger] apply_ids(h0, op, ids.take(n), ActionModel::Upsert(ids, vs))[k]),
        forall|k: int, y: PointIdType| 0 <= k < h0.len() && seg_holds(h0[k], y)
            ==> #[trigger] seg_record(apply_ids(h0, op, ids.take(n), ActionModel::Upsert(ids, vs))[k], y)
                == if ids.take(n).contains(y) {
                    record_upsert(seg_record(h0[k], y), op, vector_for(ids, vs, y))
                } else {
                    seg_record(h0[k], y)
                },
        count_ids(h0, op, ids.take(n), ActionModel::Upsert(ids, vs)) == count_held(h0, ids.take(n)),
    decreases n,
{
    let a = ActionModel::Upsert(ids, vs);
    if n == 0 {
        assert(ids.take(0) =~= Seq::<PointIdType>::empty());
    } else {
        lemma_fanout_upsert(h0, op, ids, vs, n - 1);
        let pre = ids.take(n - 1);
        assert(ids.take(n).drop_last() =~= pre);
        let x = ids[n - 1];
        assert(ids.take(n).last() == x);
        let p = apply_ids(h0, op, pre, a);
        let h = apply_ids(h0, op, ids.take(n), a);
        assert(h == step(p, op, x, a));
        assert(!pre.contains(x)) by {
            if pre.contains(x) {
                let j = choose|j: int| 0 <= j < pre.len() && pre[j] == x;
                assert(ids[j] == ids[n - 1]);
            }
        }
        let vf = vector_for(ids, vs, x);
        assert forall|k: int| 0 <= k < h0.len() implies
            ids_unique(#[trigger] h[k]) && same_ids(h0[k], h[k])
            && (forall|y: PointIdType| seg_holds(h0[k], y) ==> #[trigger] seg_record(h[k], y)
                == if ids.take(n).contains(y) {
                    record_upsert(seg_record(h0[k], y), op, vector_for(ids, vs, y))
                } else {
                    seg_record(h0[k], y)
                }) by {
            assert(same_ids(h0[k], p[k]));
            assert forall|y: PointIdType| ids.take(n).contains(y) <==> (pre.contains(y) || y == x) by {
                if ids.take(n).contains(y) {
                    let j = choose|j: int| 0 <= j < n && ids.take(n)[j] == y;
                    if j < n - 1 {
                        assert(pre[j] == y);
                    }
                }
                if pre.contains(y) {
                    let j = choose|j: int| 0 <= j < n - 1 && pre[j] == y;
                    assert(ids.take(n)[j] == y);
                }
                if y == x {
                    assert(ids.take(n)[n - 1] == y);
                }
            }
            if seg_holds(p[k], x) {
                let r0 = seg_record(p[k], x);
                assert(seg_holds(h0[k], x));
                assert(r0 == seg_record(h0[k], x));
                assert(r0.id == x) by {
                    let i = seg_index(p[k], x);
                }
                assert(h[k] == seg_apply(p[k], op, x, a));
                assert(h[k] == seg_put(p[k], x, record_upsert(r0, op, vf)));
                lemma_put_frame(p[k], x, record_upsert(r0, op, vf));
                assert forall|y: PointIdType| seg_holds(h0[k], y) implies #[trigger] seg_record(h[k], y)
                    == if ids.take(n).contains(y) {
                        record_upsert(seg_record(h0[k], y), op, vector_for(ids, vs, y))
                    } else {
                        seg_record(h0[k], y)
                    } by {
                    assert(seg_record(p[k], y) == if pre.contains(y) {
                        record_upsert(seg_record(h0[k], y), op, vector_for(ids, vs, y))
                    } else {
                        seg_record(h0[k], y)
                    });
                }
                crate::segment::lemma_same_ids(h0[k], h0[k]);
                assert forall|y: PointIdType| seg_holds(h0[k], y) <==> seg_holds(h[k], y) by {
                    assert(seg_holds(p[k], y) <==> seg_holds(h[k], y));
                }
            } else {
                assert(h[k] == p[k]);
                assert(!seg_holds(h0[k], x));
            }
        }
        assert(step_changes(p, op, x, a) == holds_any(h0, x)) by {
            if holds_any(h0, x) {
                let k = choose|k: int| 0 <= k < h0.len() && seg_holds(#[trigger] h0[k], x);
                assert(seg_holds(p[k], x));
                assert(seg_record(p[k], x) == seg_record(h0[k], x));
                assert(seg_record(h0[k], x).version < op);
                assert(seg_apply_changes(p[k], op, x, a));
            }
            if step_changes(p, op, x, a) {
                let k = choose|k: int| 0 <= k < p.len() && seg_holds(#[trigger] p[k], x) && seg_apply_changes(p[k], op, x, a);
                assert(seg_holds(h0[k], x));
            }
        }
        assert(ids.take(n).drop_last() == pre);
    }
}

/// The segments after inserting into `target` the first `n` ids that no
/// segment of `h0` holds.
pub open spec fn residual_of<T>(
    h0: HolderModel<T>,
    ha: HolderModel<T>,
    op: SeqNumberType,
    target: int,
    ids: Seq<PointIdType>,
    vs: Seq<Seq<T>>,
    n: int,
) -> HolderModel<T> {
    insert_residual(ha, op, target, ids, vs, ids.map_values(|x: PointIdType| holds_any(h0, x)), n)
}

/// Inserting the ids that no segment held, one after the other, into segment
/// `target` appends each as a new record there and moves nothing else.
pub proof fn lemma_residual<T>(
    h0: HolderModel<T>,
    ha: HolderModel<T>,
    op: SeqNumberType,
    target: int,
    ids: Seq<PointIdType>,
    vs: Seq<Seq<T>>,
    n: int,
)
    requires
        ha.len() == h0.len(),
        forall|k: int| 0 <= k < ha.len() ==> ids_unique(#[trigger] ha[k]),
        forall|k: int| 0 <= k < ha.len() ==> same_ids(h0[k], #[trigger] ha[k]),
        0 <= target < h0.len(),
        0 <= n <= ids.len(),
    ensures
        residual_of(h0, ha, op, target, ids, vs, n).len() == ha.len(),
        forall|k: int| 0 <= k < ha.len() ==> ids_unique(#[trigger] residual_of(h0, ha, op, target, ids, vs, n)[k]),
        forall|k: int, y: PointIdType| 0 <= k < ha.len() && seg_holds(ha[k], y)
            ==> #[trigger] seg_holds(residual_of(h0, ha, op, target, ids, vs, n)[k], y),
        forall|k: int, y: PointIdType| 0 <= k < ha.len() && seg_holds(ha[k], y)
            ==> #[trigger] seg_record(residual_of(h0, ha, op, target, ids, vs, n)[k], y) == seg_record(ha[k], y),
        forall|j: int| 0 <= j < n && !holds_any(h0, #[trigger] ids[j])
            ==> seg_holds(residual_of(h0, ha, op, target, ids, vs, n)[target], ids[j])
                && seg_record(residual_of(h0, ha, op, target, ids, vs, n)[target], ids[j])
                    == new_record(ids[j], op, vector_for(ids, vs, ids[j])),
        forall|k: int, y: PointIdType| 0 <= k < ha.len() && #[trigger] seg_holds(residual_of(h0, ha, op, target, ids, vs, n)[k], y)
            ==> seg_holds(ha[k], y) || (k == target && exists|j: int| 0 <= j < n && ids[j] == y && !holds_any(h0, y)),
    decreases n,
{
    let found = ids.map_values(|x: PointIdType| holds_any(h0, x));
    if n == 0 {
        assert(residual_of(h0, ha, op, target, ids, vs, n) == ha);
    } else {
        lemma_residual(h0, ha, op, target, ids, vs, n - 1);
        let p = residual_of(h0, ha, op, target, ids, vs, n - 1);
        let h = residual_of(h0, ha, op, target, ids, vs, n);
        assert(p == insert_residual(ha, op, target, ids, vs, found, n - 1));
        assert(h == insert_residual(ha, op, target, ids, vs, found, n));
        let x = ids[n - 1];
        if found[n - 1] {
            assert(h == p);
            assert forall|k: int, y: PointIdType| 0 <= k < ha.len() && seg_holds(ha[k], y)
                implies #[trigger] seg_holds(h[k], y) && seg_record(h[k], y) == seg_record(ha[k], y) by {
                assert(seg_record(p[k], y) == seg_record(ha[k], y));
            }
            assert forall|k: int, y: PointIdType| 0 <= k < h.len() && #[trigger] seg_holds(h[k], y)
                implies seg_holds(ha[k], y) || (k == target && exists|j: int| 0 <= j < n && ids[j] == y && !holds_any(h0, y)) by {
                if !seg_holds(ha[k], y) {
                    let j = choose|j: int| 0 <= j < n - 1 && ids[j] == y && !holds_any(h0, y);
                    assert(0 <= j < n && ids[j] == y);
                }
            }
            assert forall|j: int| 0 <= j < n && !holds_any(h0, #[trigger] ids[j])
                implies seg_holds(h[target], ids[j]) && seg_record(h[target], ids[j]) == new_record(ids[j], op, vector_for(ids, vs, ids[j])) by {
                if j == n - 1 {
                    assert(found[n - 1] == holds_any(h0, ids[n - 1]));
                }
            }
        } else {
            assert(!holds_any(h0, x));
            assert(!seg_holds(ha[target], x)) by {
                if seg_holds(ha[target], x) {
                    assert(same_ids(h0[target], ha[target]));
                    assert(seg_holds(h0[target], x));
                }
            }
            let rec = new_record(x, op, vector_for(ids, vs, x));
            if seg_holds(p[target], x) {
                let j = choose|j: int| 0 <= j < n - 1 && ids[j] == x && !holds_any(h0, x);
                assert(seg_record(p[target], ids[j]) == rec);
                lemma_put_same(p[target], x);
                assert(seg_upsert(p[target], op, x, vector_for(ids, vs, x)) == p[target]);
                assert(h =~= p);
                assert forall|j2: int| 0 <= j2 < n && !holds_any(h0, #[trigger] ids[j2])
                    implies seg_holds(h[target], ids[j2]) && seg_record(h[target], ids[j2]) == new_record(ids[j2], op, vector_for(ids, vs, ids[j2])) by {
                    if j2 == n - 1 {
                        assert(ids[j2] == ids[j]);
                    }
                }
                assert forall|k: int, y: PointIdType| 0 <= k < h.len() && #[trigger] seg_holds(h[k], y)
                    implies seg_holds(ha[k], y) || (k == target && exists|j2: int| 0 <= j2 < n && ids[j2] == y && !holds_any(h0, y)) by {
                    if !seg_holds(ha[k], y) {
                        let j2 = choose|j2: int| 0 <= j2 < n - 1 && ids[j2] == y && !holds_any(h0, y);
                        assert(0 <= j2 < n && ids[j2] == y);
                    }
                }
                assert forall|k: int, y: PointIdType| 0 <= k < ha.len() && seg_holds(ha[k], y)
                    implies #[trigger] seg_holds(h[k], y) && seg_record(h[k], y) == seg_record(ha[k], y) by {
                    assert(seg_record(p[k], y) == seg_record(ha[k], y));
                }
            } else {
                assert(seg_upsert(p[target], op, x, vector_for(ids, vs, x)) == p[target].push(rec));
                assert(h == p.update(target, p[target].push(rec)));
                lemma_push_frame(p[target], rec);
                assert forall|j: int| 0 <= j < n && !holds_any(h0, #[trigger] ids[j])
                    implies seg_holds(h[target], ids[j]) && seg_record(h[target], ids[j]) == new_record(ids[j], op, vector_for(ids, vs, ids[j])) by {
                    if j < n - 1 {
                        assert(seg_holds(p[target], ids[j]));
                    }
                }
                assert forall|k: int, y: PointIdType| 0 <= k < h.len() && #[trigger] seg_holds(h[k], y)
                    implies seg_holds(ha[k], y) || (k == target && exists|j: int| 0 <= j < n && ids[j] == y && !holds_any(h0, y)) by {
                    if k == target && y == x {
                        assert(ids[n - 1] == y);
                    } else {
                        assert(seg_holds(p[k], y));
                        if !seg_holds(ha[k], y) {
                            let j = choose|j: int| 0 <= j < n - 1 && ids[j] == y && !holds_any(h0, y);
                            assert(0 <= j < n && ids[j] == y);
                        }
                    }
                }
                assert forall|k: int| 0 <= k < h.len() implies ids_unique(#[trigger] h[k]) by {
                    if k != target {
                        assert(h[k] == p[k]);
                    }
                }
                assert forall|k: int, y: PointIdType| 0 <= k < h.len() && seg_holds(ha[k], y)
                    implies #[trigger] seg_holds(h[k], y) && seg_record(h[k], y) == seg_record(ha[k], y) by {
                    assert(seg_record(p[k], y) == seg_record(ha[k], y));
                    assert(seg_holds(p[k], y));
                }
            }
        }
    }
}

/// An upsert with distinct ids and a sequence number newer than every record
/// it names updates each existing record in the segment that holds it, puts
/// every new one into segment `target` and nowhere else, and returns the
/// number of ids that existed beforehand.
pub proof fn lemma_split_insert<T>(
    h0: HolderModel<T>,
    h1: HolderModel<T>,
    op: SeqNumberType,
    ids: Seq<PointIdType>,
    vs: Seq<Seq<T>>,
    target: int,
    r: crate::updater::OperationResult<usize>,
)
    requires
        holder_wf(h0),
        ids.no_duplicates(),
        ids.len() <= vs.len(),
        0 <= target < h0.len(),
        forall|j: int, k: int| 0 <= j < ids.len() && 0 <= k < h0.len() && seg_holds(h0[k], #[trigger] ids[j])
            ==> (#[trigger] seg_record(h0[k], ids[j])).version < op,
        upsert_outcome(h0, h1, op, ids, vs, target, r),
    ensures
        r is Ok && r->Ok_0 as nat == count_held(h0, ids),
        forall|j: int, k: int| 0 <= j < ids.len() && 0 <= k < h0.len() && seg_holds(h0[k], ids[j])
            ==> #[trigger] seg_holds(h1[k], ids[j]),
        forall|j: int, k: int| 0 <= j < ids.len() && 0 <= k < h0.len() && seg_holds(h0[k], ids[j])
            ==> (#[trigger] seg_record(h1[k], ids[j])).vector == vector_for(ids, vs, ids[j]),
        forall|j: int| 0 <= j < ids.len() && !holds_any(h0, #[trigger] ids[j])
            ==> seg_holds(h1[target], ids[j]) && seg_record(h1[target], ids[j]).vector == vector_for(ids, vs, ids[j]),
        forall|j: int, k: int| 0 <= j < ids.len() && 0 <= k < h1.len() && !holds_any(h0, ids[j])
            && #[trigger] seg_holds(h1[k], ids[j]) ==> k == target,
{
    let a = ActionModel::Upsert(ids, vs);
    assert(ids.take(ids.len() as int) =~= ids);
    lemma_fanout_upsert(h0, op, ids, vs, ids.len() as int);
    let ha = apply_ids(h0, op, ids, a);
    assert forall|j: int, k: int| 0 <= j < ids.len() && 0 <= k < h0.len() && seg_holds(h0[k], #[trigger] ids[j])
        implies seg_holds(ha[k], ids[j]) && (#[trigger] seg_record(ha[k], ids[j])).vector == vector_for(ids, vs, ids[j]) by {
        assert(same_ids(h0[k], ha[k]));
        assert(ids.contains(ids[j]));
        assert(seg_record(h0[k], ids[j]).version < op);
    }
    if !all_held(h0, ids) {
        lemma_residual(h0, ha, op, target, ids, vs, ids.len() as int);
        assert(h1 == residual_of(h0, ha, op, target, ids, vs, ids.len() as int));
        assert forall|j: int, k: int| 0 <= j < ids.len() && 0 <= k < h0.len() && seg_holds(h0[k], ids[j])
            implies #[trigger] seg_holds(h1[k], ids[j]) && seg_record(h1[k], ids[j]).vector == vector_for(ids, vs, ids[j]) by {
            assert(seg_record(ha[k], ids[j]).vector == vector_for(ids, vs, ids[j]));
            assert(seg_holds(ha[k], ids[j]));
            assert(seg_record(h1[k], ids[j]) == seg_record(ha[k], ids[j]));
        }
        assert forall|j: int, k: int| 0 <= j < ids.len() && 0 <= k < h1.len() && !holds_any(h0, ids[j])
            && #[trigger] seg_holds(h1[k], ids[j]) implies k == target by {
            if seg_holds(ha[k], ids[j]) {
                assert(same_ids(h0[k], ha[k]));
                assert(seg_holds(h0[k], ids[j]));
            }
        }
    } else {
        assert(h1 == ha);
        assert forall|j: int, k: int| 0 <= j < ids.len() && 0 <= k < h0.len() && seg_holds(h0[k], ids[j])
            implies #[trigger] seg_holds(h1[k], ids[j]) && seg_record(h1[k], ids[j]).vector == vector_for(ids, vs, ids[j]) by {
            assert(seg_record(ha[k], ids[j]).vector == vector_for(ids, vs, ids[j]));
        }
    }
    assert(count_ids(h0, op, ids.take(ids.len() as int), a) == count_held(h0, ids.take(ids.len() as int)));
    assert(count_ids(h0, op, ids, a) == count_held(h0, ids));
}

/// After the fan-out of an upsert, every record it reached carries a version
/// no older than the upsert, and every other record is as it was.
pub proof fn lemma_fanout_versions<T>(h0: HolderModel<T>, op: SeqNumberType, ids: Seq<PointIdType>, vs: Seq<Seq<T>>, n: int)
    requires
        forall|k: int| 0 <= k < h0.len() ==> ids_unique(#[trigger] h0[k]),
        0 <= n <= ids.len(),
    ensures
        apply_ids(h0, op, ids.take(n), ActionModel::Upsert(ids, vs)).len() == h0.len(),
        forall|k: int| 0 <= k < h0.len() ==> ids_unique(#[trigger] apply_ids(h0, op, ids.take(n), ActionModel::Upsert(ids, vs))[k]),
        forall|k: int| 0 <= k < h0.len() ==> same_ids(h0[k], #[trigger] apply_ids(h0, op, ids.take(n), ActionModel::Upsert(ids, vs))[k]),
        forall|k: int, y: PointIdType| 0 <= k < h0.len() && seg_holds(h0[k], y) && !ids.take(n).contains(y)
            ==> #[trigger] seg_record(apply_ids(h0, op, ids.take(n), ActionModel::Upsert(ids, vs))[k], y) == seg_record(h0[k], y),
        forall|k: int, y: PointIdType| 0 <= k < h0.len() && seg_holds(h0[k], y) && ids.take(n).contains(y)
            ==> (#[trigger] seg_record(apply_ids(h0, op, ids.take(n), ActionModel::Upsert(ids, vs))[k], y)).version >= op,
    decreases n,
{
    let a = ActionModel::Upsert(ids, vs);
    if n == 0 {
        assert(ids.take(0) =~= Seq::<PointIdType>::empty());
    } else {
        lemma_fanout_versions(h0, op, ids, vs, n - 1);
        let pre = ids.take(n - 1);
        assert(ids.take(n).drop_last() =~= pre);
        let x = ids[n - 1];
        assert(ids.take(n).last() == x);
        let p = apply_ids(h0, op, pre, a);
        let h = apply_ids(h0, op, ids.take(n), a);
        assert(h == step(p, op, x, a));
        let vf = vector_for(ids, vs, x);
        assert forall|y: PointIdType| ids.take(n).contains(y) <==> (pre.contains(y) || y == x) by {
            if ids.take(n).contains(y) {
                let j = choose|j: int| 0 <= j < n && ids.take(n)[j] == y;
                if j < n - 1 {
                    assert(pre[j] == y);
                }
            }
            if pre.contains(y) {
                let j = choose|j: int| 0 <= j < n - 1 && pre[j] == y;
                assert(ids.take(n)[j] == y);
            }
            if y == x {
                assert(ids.take(n)[n - 1] == y);
            }
        }
        assert forall|k: int| 0 <= k < h0.len() implies
            ids_unique(#[trigger] h[k]) && same_ids(h0[k], h[k])
            && (forall|y: PointIdType| seg_holds(h0[k], y) && !ids.take(n).contains(y)
                ==> #[trigger] seg_record(h[k], y) == seg_record(h0[k], y))
            && (forall|y: PointIdType| seg_holds(h0[k], y) && ids.take(n).contains(y)
                ==> (#[trigger] seg_record(h[k], y)).version >= op) by {
            assert(same_ids(h0[k], p[k]));
            if seg_holds(p[k], x) {
                let r0 = seg_record(p[k], x);
                assert(r0.id == x) by {
                    let i = seg_index(p[k], x);
                }
                assert(h[k] == seg_put(p[k], x, record_upsert(r0, op, vf)));
                lemma_put_frame(p[k], x, record_upsert(r0, op, vf));
                assert forall|y: PointIdType| seg_holds(h0[k], y) && !ids.take(n).contains(y)
                    implies #[trigger] seg_record(h[k], y) == seg_record(h0[k], y) by {
                    assert(seg_record(p[k], y) == seg_record(h0[k], y));
                }
                assert forall|y: PointIdType| seg_holds(h0[k], y) && ids.take(n).contains(y)
                    implies (#[trigger] seg_record(h[k], y)).version >= op by {
                    if y != x {
                        assert(seg_record(h[k], y) == seg_record(p[k], y));
                        assert(pre.contains(y));
                        assert(seg_record(p[k], y).version >= op);
                    }
                }
                assert forall|y: PointIdType| seg_holds(h0[k], y) <==> seg_holds(h[k], y) by {
                    assert(seg_holds(p[k], y) <==> seg_holds(h[k], y));
                }
            } else {
                assert(h[k] == p[k]);
                assert(!seg_holds(h0[k], x));
                assert forall|y: PointIdType| seg_holds(h0[k], y) && ids.take(n).contains(y)
                    implies (#[trigger] seg_record(h[k], y)).version >= op by {
                    assert(y != x);
                    assert(pre.contains(y));
                    assert(seg_record(p[k], y).version >= op);
                }
                assert forall|y: PointIdType| seg_holds(h0[k], y) && !ids.take(n).contains(y)
                    implies #[trigger] seg_record(h[k], y) == seg_record(h0[k], y) by {
                    assert(seg_record(p[k], y) == seg_record(h0[k], y));
                }
            }
        }
    }
}

/// An upsert whose ids are all held by records no older than it changes
/// nothing and counts nothing.
pub proof fn lemma_upsert_noop<T>(h: HolderModel<T>, op: SeqNumberType, ids: Seq<PointIdType>, vs: Seq<Seq<T>>, n: int)
    requires
        forall|k: int| 0 <= k < h.len() ==> ids_unique(#[trigger] h[k]),
        0 <= n <= ids.len(),
        forall|j: int, k: int| 0 <= j < ids.len() && 0 <= k < h.len() && seg_holds(h[k], #[trigger] ids[j])
            ==> (#[trigger] seg_record(h[k], ids[j])).version >= op,
    ensures
        apply_ids(h, op, ids.take(n), ActionModel::Upsert(ids, vs)) == h,
        count_ids(h, op, ids.take(n), ActionModel::Upsert(ids, vs)) == 0,
    decreases n,
{
    let a = ActionModel::Upsert(ids, vs);
    if n == 0 {
        assert(ids.take(0) =~= Seq::<PointIdType>::empty());
    } else {
        lemma_fanout_noop_step(h, op, ids, vs, n);
    }
}

proof fn lemma_fanout_noop_step<T>(h: HolderModel<T>, op: SeqNumberType, ids: Seq<PointIdType>, vs: Seq<Seq<T>>, n: int)
    requires
        forall|k: int| 0 <= k < h.len() ==> ids_unique(#[trigger] h[k]),
        0 < n <= ids.len(),
        forall|j: int, k: int| 0 <= j < ids.len() && 0 <= k < h.len() && seg_holds(h[k], #[trigger] ids[j])
            ==> (#[trigger] seg_record(h[k], ids[j])).version >= op,
    ensures
        apply_ids(h, op, ids.take(n), ActionModel::Upsert(ids, vs)) == h,
        count_ids(h, op, ids.take(n), ActionModel::Upsert(ids, vs)) == 0,
    decreases n, 0int,
{
    let a = ActionModel::Upsert(ids, vs);
    lemma_upsert_noop(h, op, ids, vs, n - 1);
    let pre = ids.take(n - 1);
    assert(ids.take(n).drop_last() =~= pre);
    let x = ids[n - 1];
    assert(ids.take(n).last() == x);
    let vf = vector_for(ids, vs, x);
    assert forall|k: int| 0 <= k < h.len() implies #[trigger] step(h, op, x, a)[k] == h[k] by {
        if seg_holds(h[k], x) {
            assert(seg_record(h[k], x).version >= op);
            assert(record_upsert(seg_record(h[k], x), op, vf) == seg_record(h[k], x));
            lemma_put_same(h[k], x);
        }
    }
    assert(step(h, op, x, a) =~= h);
    assert(!step_changes(h, op, x, a)) by {
        if step_changes(h, op, x, a) {
            let k = choose|k: int| 0 <= k < h.len() && seg_holds(#[trigger] h[k], x) && seg_apply_changes(h[k], op, x, a);
            assert(seg_record(h[k], x).version >= op);
        }
    }
}

/// Applying the same upsert twice leaves the state of the first application
/// and the second reports no change.
pub proof fn lemma_upsert_idempotent<T>(
    h0: HolderModel<T>,
    h1: HolderModel<T>,
    h2: HolderModel<T>,
    op: SeqNumberType,
    ids: Seq<PointIdType>,
    vs: Seq<Seq<T>>,
    target: int,
    r1: crate::updater::OperationResult<usize>,
    r2: crate::updater::OperationResult<usize>,
)
    requires
        holder_wf(h0),
        ids.len() <= vs.len(),
        h0.len() > 0 ==> 0 <= target < h0.len(),
        upsert_outcome(h0, h1, op, ids, vs, target, r1),
        upsert_outcome(h1, h2, op, ids, vs, target, r2),
    ensures
        h2 == h1,
        r2 is Ok ==> r2->Ok_0 == 0,
        r1 is Err ==> r2 is Err,
{
    let a = ActionModel::Upsert(ids, vs);
    assert(ids.take(ids.len() as int) =~= ids);
    assert forall|k: int| 0 <= k < h0.len() implies ids_unique(#[trigger] h0[k]) by {
        assert(crate::segment::seg_wf(h0[k]));
    }
    lemma_fanout_versions(h0, op, ids, vs, ids.len() as int);
    let ha = apply_ids(h0, op, ids, a);
    if all_held(h0, ids) {
        assert(h1 == ha);
        assert forall|j: int, k: int| 0 <= j < ids.len() && 0 <= k < h1.len() && seg_holds(h1[k], #[trigger] ids[j])
            implies (#[trigger] seg_record(h1[k], ids[j])).version >= op by {
            assert(same_ids(h0[k], ha[k]));
            assert(ids.contains(ids[j]));
        }
        assert(all_held(h1, ids)) by {
            assert forall|j: int| 0 <= j < ids.len() implies holds_any(h1, #[trigger] ids[j]) by {
                assert(holds_any(h0, ids[j]));
                let k = choose|k: int| 0 <= k < h0.len() && seg_holds(#[trigger] h0[k], ids[j]);
                assert(same_ids(h0[k], ha[k]));
                assert(seg_holds(h1[k], ids[j]));
            }
        }
        lemma_upsert_noop(h1, op, ids, vs, ids.len() as int);
    } else if h0.len() == 0 {
        assert(h1 == h0);
    } else {
        lemma_residual(h0, ha, op, target, ids, vs, ids.len() as int);
        assert(h1 == residual_of(h0, ha, op, target, ids, vs, ids.len() as int));
        assert forall|j: int, k: int| 0 <= j < ids.len() && 0 <= k < h1.len() && seg_holds(h1[k], #[trigger] ids[j])
            implies (#[trigger] seg_record(h1[k], ids[j])).version >= op by {
            let y = ids[j];
            if seg_holds(ha[k], y) {
                assert(seg_record(h1[k], y) == seg_record(ha[k], y));
                assert(same_ids(h0[k], ha[k]));
                assert(ids.contains(y));
            } else {
                assert(k == target);
                assert(!holds_any(h0, y)) by {
                    let j2 = choose|j2: int| 0 <= j2 < ids.len() && ids[j2] == y && !holds_any(h0, y);
                }
            }
        }
        assert(all_held(h1, ids)) by {
            assert forall|j: int| 0 <= j < ids.len() implies holds_any(h1, #[trigger] ids[j]) by {
                if holds_any(h0, ids[j]) {
                    let k = choose|k: int| 0 <= k < h0.len() && seg_holds(#[trigger] h0[k], ids[j]);
                    assert(same_ids(h0[k], ha[k]));
                    assert(seg_holds(h1[k], ids[j]));
                } else {
                    assert(seg_holds(h1[target], ids[j]));
                }
            }
        }
        lemma_upsert_noop(h1, op, ids, vs, ids.len() as int);
    }
}

/// Removing one record leaves the others as they were.
pub proof fn lemma_remove_frame<T>(s: Seq<RecordModel<T>>, x: PointIdType)
    requires
        ids_unique(s),
        seg_holds(s, x),
    ensures
        ids_unique(s.remove(seg_index(s, x))),
        forall|y: PointIdType| #[trigger] seg_holds(s.remove(seg_index(s, x)), y) <==> (seg_holds(s, y) && y != x),
        forall|y: PointIdType| seg_holds(s.remove(seg_index(s, x)), y)
            ==> #[trigger] seg_record(s.remove(seg_index(s, x)), y) == seg_record(s, y),
{
    let i = seg_index(s, x);
    let t = s.remove(i);
    lemma_index_of(s, i);
    assert forall|a: int, b: int| 0 <= a < t.len() && 0 <= b < t.len() && t[a].id == t[b].id implies a == b by {
        let a2 = if a < i { a } else { a + 1 };
        let b2 = if b < i { b } else { b + 1 };
        assert(s[a2].id == s[b2].id);
    }
    assert forall|y: PointIdType| #[trigger] seg_holds(t, y) <==> (seg_holds(s, y) && y != x) by {
        if seg_holds(t, y) {
            let a = choose|a: int| 0 <= a < t.len() && t[a].id == y;
            let a2 = if a < i { a } else { a + 1 };
            assert(s[a2].id == y);
            assert(a2 != i);
        }
        if seg_holds(s, y) && y != x {
            let a = choose|a: int| 0 <= a < s.len() && s[a].id == y;
            assert(a != i);
            let a2 = if a < i { a } else { a - 1 };
            assert(t[a2].id == y);
        }
    }
    assert forall|y: PointIdType| seg_holds(t, y) implies #[trigger] seg_record(t, y) == seg_record(s, y) by {
        let a = seg_index(t, y);
        lemma_index_of(t, a);
        let a2 = if a < i { a } else { a + 1 };
        assert(s[a2] == t[a]);
        lemma_index_of(s, a2);
    }
}

/// After the fan-out of a deletion, records are only ever removed, and each
/// one that it named and that is still there is newer than the deletion.
pub proof fn lemma_fanout_delete<T>(h0: HolderModel<T>, op: SeqNumberType, ids: Seq<PointIdType>, n: int)
    requires
        forall|k: int| 0 <= k < h0.len() ==> ids_unique(#[trigger] h0[k]),
        0 <= n <= ids.len(),
    ensures
        apply_ids(h0, op, ids.take(n), ActionModel::Delete).len() == h0.len(),
        forall|k: int| 0 <= k < h0.len() ==> ids_unique(#[trigger] apply_ids(h0, op, ids.take(n), ActionModel::Delete)[k]),
        forall|k: int, y: PointIdType| 0 <= k < h0.len() && #[trigger] seg_holds(apply_ids(h0, op, ids.take(n), ActionModel::Delete)[k], y)
            ==> seg_holds(h0[k], y),
        forall|k: int, y: PointIdType| 0 <= k < h0.len() && seg_holds(apply_ids(h0, op, ids.take(n), ActionModel::Delete)[k], y)
            ==> #[trigger] seg_record(apply_ids(h0, op, ids.take(n), ActionModel::Delete)[k], y) == seg_record(h0[k], y),
        forall|k: int, y: PointIdType| 0 <= k < h0.len() && ids.take(n).contains(y)
            && seg_holds(apply_ids(h0, op, ids.take(n), ActionModel::Delete)[k], y)
            ==> (#[trigger] seg_record(apply_ids(h0, op, ids.take(n), ActionModel::Delete)[k], y)).version > op,
    decreases n,
{
    let a = ActionModel::<T>::Delete;
    if n == 0 {
        assert(ids.take(0) =~= Seq::<PointIdType>::empty());
    } else {
        lemma_fanout_delete(h0, op, ids, n - 1);
        let pre = ids.take(n - 1);
        assert(ids.take(n).drop_last() =~= pre);
        let x = ids[n - 1];
        assert(ids.take(n).last() == x);
        let p = apply_ids(h0, op, pre, a);
        let h = apply_ids(h0, op, ids.take(n), a);
        assert(h == step(p, op, x, a));
        assert forall|y: PointIdType| ids.take(n).contains(y) <==> (pre.contains(y) || y == x) by {
            if ids.take(n).contains(y) {
                let j = choose|j: int| 0 <= j < n && ids.take(n)[j] == y;
                if j < n - 1 {
                    assert(pre[j] == y);
                }
            }
            if pre.contains(y) {
                let j = choose|j: int| 0 <= j < n - 1 && pre[j] == y;
                assert(ids.take(n)[j] == y);
            }
            if y == x {
                assert(ids.take(n)[n - 1] == y);
            }
        }
        assert forall|k: int| 0 <= k < h0.len() implies
            ids_unique(#[trigger] h[k])
            && (forall|y: PointIdType| #[trigger] seg_holds(h[k], y) ==> seg_holds(p[k], y) && seg_record(h[k], y) == seg_record(p[k], y))
            && (forall|y: PointIdType| ids.take(n).contains(y) && seg_holds(h[k], y) ==> (#[trigger] seg_record(h[k], y)).version > op) by {
            if seg_holds(p[k], x) && delete_changes(seg_record(p[k], x), op) {
                assert(h[k] == p[k].remove(seg_index(p[k], x)));
                lemma_remove_frame(p[k], x);
                assert forall|y: PointIdType| ids.take(n).contains(y) && seg_holds(h[k], y)
                    implies (#[trigger] seg_record(h[k], y)).version > op by {
                    assert(y != x);
                    assert(pre.contains(y));
                    assert(seg_record(p[k], y).version > op);
                }
            } else {
                assert(h[k] == p[k]);
                assert forall|y: PointIdType| ids.take(n).contains(y) && seg_holds(h[k], y)
                    implies (#[trigger] seg_record(h[k], y)).version > op by {
                    if y != x {
                        assert(pre.contains(y));
                        assert(seg_record(p[k], y).version > op);
                    }
                }
            }
        }
        assert forall|k: int, y: PointIdType| 0 <= k < h0.len() && seg_holds(h[k], y)
            implies #[trigger] seg_record(h[k], y) == seg_record(h0[k], y) && seg_holds(h0[k], y) by {
            assert(seg_holds(p[k], y) && seg_record(h[k], y) == seg_record(p[k], y));
        }
    }
}

/// A deletion whose ids are absent or held by records newer than it changes
/// nothing and counts nothing.
pub proof fn lemma_delete_noop<T>(h: HolderModel<T>, op: SeqNumberType, ids: Seq<PointIdType>, n: int)
    requires
        0 <= n <= ids.len(),
        forall|j: int, k: int| 0 <= j < ids.len() && 0 <= k < h.len() && seg_holds(h[k], #[trigger] ids[j])
            ==> (#[trigger] seg_record(h[k], ids[j])).version > op,
    ensures
        apply_ids(h, op, ids.take(n), ActionModel::Delete) == h,
        count_ids(h, op, ids.take(n), ActionModel::Delete) == 0,
    decreases n,
{
    let a = ActionModel::<T>::Delete;
    if n == 0 {
        assert(ids.take(0) =~= Seq::<PointIdType>::empty());
    } else {
        lemma_delete_noop(h, op, ids, n - 1);
        let pre = ids.take(n - 1);
        assert(ids.take(n).drop_last() =~= pre);
        let x = ids[n - 1];
        assert(ids.take(n).last() == x);
        assert forall|k: int| 0 <= k < h.len() implies #[trigger] step(h, op, x, a)[k] == h[k] by {
            if seg_holds(h[k], x) {
                assert(seg_record(h[k], x).version > op);
            }
        }
        assert(step(h, op, x, a) =~= h);
        assert(!step_changes(h, op, x, a)) by {
            if step_changes(h, op, x, a) {
                let k = choose|k: int| 0 <= k < h.len() && seg_holds(#[trigger] h[k], x) && seg_apply_changes(h[k], op, x, a);
                assert(seg_record(h[k], x).version > op);
            }
        }
    }
}

/// Applying the same deletion twice leaves the state of the first
/// application and the second reports no change.
pub proof fn lemma_delete_idempotent<T>(
    h0: HolderModel<T>,
    h1: HolderModel<T>,
    h2: HolderModel<T>,
    op: SeqNumberType,
    ids: Seq<PointIdType>,
    r1: crate::updater::OperationResult<usize>,
    r2: crate::updater::OperationResult<usize>,
)
    requires
        holder_wf(h0),
        delete_outcome(h0, h1, op, ids, r1),
        delete_outcome(h1, h2, op, ids, r2),
    ensures
        h2 == h1,
        r2 == Ok::<usize, crate::updater::UpdateError>(0),
{
    assert(ids.take(ids.len() as int) =~= ids);
    assert forall|k: int| 0 <= k < h0.len() implies ids_unique(#[trigger] h0[k]) by {
        assert(crate::segment::seg_wf(h0[k]));
    }
    lemma_fanout_delete(h0, op, ids, ids.len() as int);
    assert forall|j: int, k: int| 0 <= j < ids.len() && 0 <= k < h1.len() && seg_holds(h1[k], #[trigger] ids[j])
        implies (#[trigger] seg_record(h1[k], ids[j])).version > op by {
        assert(ids.contains(ids[j]));
    }
    lemma_delete_noop(h1, op, ids, ids.len() as int);
}

/// No segment of a wiped set reports a change when wiped again.
pub proof fn lemma_wipe_count_zero<T>(h: HolderModel<T>, op: SeqNumberType, n: int)
    requires
        0 <= n <= h.len(),
        forall|k: int| 0 <= k < h.len() ==> !seg_wipe_changes(#[trigger] h[k], op),
    ensures
        wipe_count(h, op, n) == 0,
    decreases n,
{
    if n > 0 {
        lemma_wipe_count_zero(h, op, n - 1);
    }
}

/// Wiping payload twice with the same sequence number leaves the state of
/// the first wipe and the second reports no change.
pub proof fn lemma_wipe_idempotent<T>(
    h0: HolderModel<T>,
    h1: HolderModel<T>,
    h2: HolderModel<T>,
    op: SeqNumberType,
    r1: crate::updater::OperationResult<usize>,
    r2: crate::updater::OperationResult<usize>,
)
    requires
        wipe_outcome(h0, h1, op, r1),
        wipe_outcome(h1, h2, op, r2),
    ensures
        h2 == h1,
        r2 == Ok::<usize, crate::updater::UpdateError>(0),
{
    assert forall|k: int| 0 <= k < h1.len() implies #[trigger] h2[k] == h1[k] && !seg_wipe_changes(h1[k], op) by {
        let s = h0[k];
        assert forall|i: int| 0 <= i < s.len() implies #[trigger] seg_wipe(seg_wipe(s, op), op)[i] == seg_wipe(s, op)[i] by {
            lemma_clear_replay(s[i], op);
        }
        assert(seg_wipe(seg_wipe(s, op), op) =~= seg_wipe(s, op));
        if seg_wipe_changes(h1[k], op) {
            let i = choose|i: int| 0 <= i < h1[k].len() && clear_changes(h1[k][i], op);
            lemma_clear_replay(s[i], op);
        }
    }
    assert(h2 =~= h1);
    lemma_wipe_count_zero(h1, op, h1.len() as int);
}

/// After the fan-out of a payload clearing, every record it reached has
/// nothing more to clear at that sequence number, and every other record is
/// as it was.
pub proof fn lemma_fanout_clear<T>(h0: HolderModel<T>, op: SeqNumberType, ids: Seq<PointIdType>, n: int)
    requires
        forall|k: int| 0 <= k < h0.len() ==> ids_unique(#[trigger] h0[k]),
        0 <= n <= ids.len(),
    ensures
        apply_ids(h0, op, ids.take(n), ActionModel::ClearPayload).len() == h0.len(),
        forall|k: int| 0 <= k < h0.len() ==> ids_unique(#[trigger] apply_ids(h0, op, ids.take(n), ActionModel::ClearPayload)[k]),
        forall|k: int| 0 <= k < h0.len() ==> same_ids(h0[k], #[trigger] apply_ids(h0, op, ids.take(n), ActionModel::ClearPayload)[k]),
        forall|k: int, y: PointIdType| 0 <= k < h0.len() && seg_holds(h0[k], y) && ids.take(n).contains(y)
            ==> !clear_changes(#[trigger] seg_record(apply_ids(h0, op, ids.take(n), ActionModel::ClearPayload)[k], y), op),
        forall|k: int, y: PointIdType| 0 <= k < h0.len() && seg_holds(h0[k], y) && !ids.take(n).contains(y)
            ==> #[trigger] seg_record(apply_ids(h0, op, ids.take(n), ActionModel::ClearPayload)[k], y) == seg_record(h0[k], y),
    decreases n,
{
    let a = ActionModel::<T>::ClearPayload;
    if n == 0 {
        assert(ids.take(0) =~= Seq::<PointIdType>::empty());
    } else {
        lemma_fanout_clear(h0, op, ids, n - 1);
        let pre = ids.take(n - 1);
        assert(ids.take(n).drop_last() =~= pre);
        let x = ids[n - 1];
        assert(ids.take(n).last() == x);
        let p = apply_ids(h0, op, pre, a);
        let h = apply_ids(h0, op, ids.take(n), a);
        assert(h == step(p, op, x, a));
        assert forall|y: PointIdType| ids.take(n).contains(y) <==> (pre.contains(y) || y == x) by {
            if ids.take(n).contains(y) {
                let j = choose|j: int| 0 <= j < n && ids.take(n)[j] == y;
                if j < n - 1 {
                    assert(pre[j] == y);
                }
            }
            if pre.contains(y) {
                let j = choose|j: int| 0 <= j < n - 1 && pre[j] == y;
                assert(ids.take(n)[j] == y);
            }
            if y == x {
                assert(ids.take(n)[n - 1] == y);
            }
        }
        assert forall|k: int| 0 <= k < h0.len() implies
            ids_unique(#[trigger] h[k]) && same_ids(h0[k], h[k])
            && (forall|y: PointIdType| seg_holds(h0[k], y) && ids.take(n).contains(y)
                ==> !clear_changes(#[trigger] seg_record(h[k], y), op))
            && (forall|y: PointIdType| seg_holds(h0[k], y) && !ids.take(n).contains(y)
                ==> #[trigger] seg_record(h[k], y) == seg_record(h0[k], y)) by {
            assert(same_ids(h0[k], p[k]));
            if seg_holds(p[k], x) {
                let r0 = seg_record(p[k], x);
                assert(r0.id == x) by {
                    let i = seg_index(p[k], x);
                }
                assert(h[k] == seg_put(p[k], x, record_clear(r0, op)));
                lemma_put_frame(p[k], x, record_clear(r0, op));
                lemma_clear_replay(r0, op);
                assert forall|y: PointIdType| seg_holds(h0[k], y) && ids.take(n).contains(y)
                    implies !clear_changes(#[trigger] seg_record(h[k], y), op) by {
                    if y != x {
                        assert(seg_record(h[k], y) == seg_record(p[k], y));
                        assert(pre.contains(y));
                    }
                }
                assert forall|y: PointIdType| seg_holds(h0[k], y) && !ids.take(n).contains(y)
                    implies #[trigger] seg_record(h[k], y) == seg_record(h0[k], y) by {
                    assert(seg_record(p[k], y) == seg_record(h0[k], y));
                }
                assert forall|y: PointIdType| seg_holds(h0[k], y) <==> seg_holds(h[k], y) by {
                    assert(seg_holds(p[k], y) <==> seg_holds(h[k], y));
                }
            } else {
                assert(h[k] == p[k]);
                assert(!seg_holds(h0[k], x));
                assert forall|y: PointIdType| seg_holds(h0[k], y) && ids.take(n).contains(y)
                    implies !clear_changes(#[trigger] seg_record(h[k], y), op) by {
                    assert(y != x);
                    assert(pre.contains(y));
                }
                assert forall|y: PointIdType| seg_holds(h0[k], y) && !ids.take(n).contains(y)
                    implies #[trigger] seg_record(h[k], y) == seg_record(h0[k], y) by {
                    assert(seg_record(p[k], y) == seg_record(h0[k], y));
                }
            }
        }
    }
}

/// A payload clearing whose records have nothing to clear changes nothing
/// and counts nothing.
pub proof fn lemma_clear_noop<T>(h: HolderModel<T>, op: SeqNumberType, ids: Seq<PointIdType>, n: int)
    requires
        forall|k: int| 0 <= k < h.len() ==> ids_unique(#[trigger] h[k]),
        0 <= n <= ids.len(),
        forall|j: int, k: int| 0 <= j < ids.len() && 0 <= k < h.len() && seg_holds(h[k], #[trigger] ids[j])
            ==> !clear_changes(#[trigger] seg_record(h[k], ids[j]), op),
    ensures
        apply_ids(h, op, ids.take(n), ActionModel::ClearPayload) == h,
        count_ids(h, op, ids.take(n), ActionModel::ClearPayload) == 0,
    decreases n,
{
    let a = ActionModel::<T>::ClearPayload;
    if n == 0 {
        assert(ids.take(0) =~= Seq::<PointIdType>::empty());
    } else {
        lemma_clear_noop(h, op, ids, n - 1);
        let pre = ids.take(n - 1);
        assert(ids.take(n).drop_last() =~= pre);
        let x = ids[n - 1];
        assert(ids.take(n).last() == x);
        assert forall|k: int| 0 <= k < h.len() implies #[trigger] step(h, op, x, a)[k] == h[k] by {
            if seg_holds(h[k], x) {
                assert(!clear_changes(seg_record(h[k], x), op));
                lemma_put_same(h[k], x);
            }
        }
        assert(step(h, op, x, a) =~= h);
        assert(!step_changes(h, op, x, a)) by {
            if step_changes(h, op, x, a) {
                let k = choose|k: int| 0 <= k < h.len() && seg_holds(#[trigger] h[k], x) && seg_apply_changes(h[k], op, x, a);
                assert(!clear_changes(seg_record(h[k], x), op));
            }
        }
    }
}

/// Clearing the payload of the same points twice with the same sequence
/// number leaves the state of the first call; the second fails as the first
/// did, or reports no change.
pub proof fn lemma_clear_idempotent<T>(
    h0: HolderModel<T>,
    h1: HolderModel<T>,
    h2: HolderModel<T>,
    op: SeqNumberType,
    points: Seq<PointIdType>,
    r1: crate::updater::OperationResult<usize>,
    r2: crate::updater::OperationResult<usize>,
)
    requires
        holder_wf(h0),
        payload_outcome(h0, h1, op, points, ActionModel::ClearPayload, r1),
        payload_outcome(h1, h2, op, points, ActionModel::ClearPayload, r2),
    ensures
        h2 == h1,
        r1 is Err ==> r2 == r1,
        r1 is Ok ==> r2 == Ok::<usize, crate::updater::UpdateError>(0),
{
    assert(points.take(points.len() as int) =~= points);
    assert forall|k: int| 0 <= k < h0.len() implies ids_unique(#[trigger] h0[k]) by {
        assert(crate::segment::seg_wf(h0[k]));
    }
    lemma_fanout_clear(h0, op, points, points.len() as int);
    assert forall|j: int, k: int| 0 <= j < points.len() && 0 <= k < h1.len() && seg_holds(h1[k], #[trigger] points[j])
        implies !clear_changes(#[trigger] seg_record(h1[k], points[j]), op) by {
        assert(same_ids(h0[k], h1[k]));
        assert(points.contains(points[j]));
    }
    lemma_clear_noop(h1, op, points, points.len() as int);
    lemma_same_holds(h0, h1);
    assert(points.map_values(|x: PointIdType| holds_any(h0, x)) =~= points.map_values(|x: PointIdType| holds_any(h1, x)));
    assert(first_missing(h0, points) == first_missing(h1, points));
}

/// A record after removing each of `ks` in turn.
pub open spec fn record_delete_keys<T>(r: RecordModel<T>, op: SeqNumberType, ks: Seq<Seq<char>>) -> RecordModel<T>
    decreases ks.len(),
{
    if ks.len() == 0 {
        r
    } else {
        record_delete_key(record_delete_keys(r, op, ks.drop_last()), op, ks.last())
    }
}

/// The per-key results of removing each of `ks` in turn, combined with AND.
pub open spec fn record_delete_keys_changes<T>(r: RecordModel<T>, op: SeqNumberType, ks: Seq<Seq<char>>) -> bool
    decreases ks.len(),
{
    if ks.len() == 0 {
        true
    } else {
        delete_key_changes(record_delete_keys(r, op, ks.drop_last()), op, ks.last())
            && record_delete_keys_changes(r, op, ks.drop_last())
    }
}

/// Replacing a record twice is replacing it with the second.
pub proof fn lemma_put_twice<T>(s: Seq<RecordModel<T>>, x: PointIdType, r1: RecordModel<T>, r2: RecordModel<T>)
    requires
        ids_unique(s),
        seg_holds(s, x),
        r1.id == x,
    ensures
        seg_put(seg_put(s, x, r1), x, r2) == seg_put(s, x, r2),
{
    let i = seg_index(s, x);
    lemma_index_of(s, i);
    let t = s.update(i, r1);
    assert(ids_unique(t)) by {
        assert forall|a: int, b: int| 0 <= a < t.len() && 0 <= b < t.len() && t[a].id == t[b].id implies a == b by {
            assert(t[a].id == s[a].id && t[b].id == s[b].id);
        }
    }
    lemma_index_of(t, i);
    assert(t.update(i, r2) =~= s.update(i, r2));
}

/// Removing keys one by one from a record held by a segment is replacing
/// that record by the record with the keys removed.
pub proof fn lemma_delete_keys_put<T>(s: Seq<RecordModel<T>>, op: SeqNumberType, x: PointIdType, ks: Seq<Seq<char>>)
    requires
        ids_unique(s),
        seg_holds(s, x),
    ensures
        record_delete_keys(seg_record(s, x), op, ks).id == x,
        seg_delete_keys(s, op, x, ks) == seg_put(s, x, record_delete_keys(seg_record(s, x), op, ks)),
        delete_keys_changes(s, op, x, ks) == record_delete_keys_changes(seg_record(s, x), op, ks),
    decreases ks.len(),
{
    let r = seg_record(s, x);
    let i = seg_index(s, x);
    lemma_index_of(s, i);
    if ks.len() == 0 {
        lemma_put_same(s, x);
    } else {
        lemma_delete_keys_put(s, op, x, ks.drop_last());
        let rp = record_delete_keys(r, op, ks.drop_last());
        let p = seg_put(s, x, rp);
        lemma_put_frame(s, x, rp);
        lemma_put_twice(s, x, rp, record_delete_key(rp, op, ks.last()));
    }
}

/// Removing one key keeps the other keys and the uniqueness of keys.
pub proof fn lemma_remove_key(p: PayloadSeq, k: Seq<char>)
    requires
        keys_unique(p),
    ensures
        keys_unique(remove_key(p, k)),
        forall|k2: Seq<char>| #[trigger] has_key(remove_key(p, k), k2) <==> (has_key(p, k2) && k2 != k),
{
    if has_key(p, k) {
        let i = key_index(p, k);
        let q = p.remove(i);
        assert forall|a: int, b: int| 0 <= a < q.len() && 0 <= b < q.len() && q[a].0 == q[b].0 implies a == b by {
            let a2 = if a < i { a } else { a + 1 };
            let b2 = if b < i { b } else { b + 1 };
            assert(p[a2].0 == p[b2].0);
        }
        assert forall|k2: Seq<char>| #[trigger] has_key(q, k2) <==> (has_key(p, k2) && k2 != k) by {
            if has_key(q, k2) {
                let a = choose|a: int| 0 <= a < q.len() && q[a].0 == k2;
                let a2 = if a < i { a } else { a + 1 };
                assert(p[a2].0 == k2);
                assert(a2 != i);
            }
            if has_key(p, k2) && k2 != k {
                let a = choose|a: int| 0 <= a < p.len() && p[a].0 == k2;
                assert(a != i);
                let a2 = if a < i { a } else { a - 1 };
                assert(q[a2].0 == k2);
            }
        }
    }
}

/// Whether removing `ks` again would find nothing to do on this record.
pub open spec fn keys_gone<T>(r: RecordModel<T>, op: SeqNumberType, ks: Seq<Seq<char>>) -> bool {
    op < r.version || forall|i: int| 0 <= i < ks.len() ==> !has_key(r.payload, #[trigger] ks[i])
}

/// After removing `ks` from a record, none of them is left, unless the
/// removal was older than the record.
pub proof fn lemma_delete_keys_gone<T>(r: RecordModel<T>, op: SeqNumberType, ks: Seq<Seq<char>>)
    requires
        keys_unique(r.payload),
    ensures
        keys_unique(record_delete_keys(r, op, ks).payload),
        keys_gone(record_delete_keys(r, op, ks), op, ks),
        op < r.version ==> record_delete_keys(r, op, ks) == r,
        op >= r.version ==> record_delete_keys(r, op, ks).version <= op,
    decreases ks.len(),
{
    if ks.len() > 0 {
        let pre = ks.drop_last();
        lemma_delete_keys_gone(r, op, pre);
        let rp = record_delete_keys(r, op, pre);
        let k = ks.last();
        lemma_remove_key(rp.payload, k);
        let r1 = record_delete_keys(r, op, ks);
        if op >= r.version {
            assert forall|i: int| 0 <= i < ks.len() implies !has_key(r1.payload, #[trigger] ks[i]) by {
                if i < ks.len() - 1 {
                    assert(pre[i] == ks[i]);
                    assert(!has_key(rp.payload, pre[i]));
                }
            }
        }
    }
}

/// Removing `ks` from a record that has none of them changes nothing.
pub proof fn lemma_delete_keys_noop<T>(r: RecordModel<T>, op: SeqNumberType, ks: Seq<Seq<char>>, n: int)
    requires
        keys_gone(r, op, ks),
        0 <= n <= ks.len(),
    ensures
        record_delete_keys(r, op, ks.take(n)) == r,
        n > 0 ==> !record_delete_keys_changes(r, op, ks.take(n)),
    decreases n,
{
    if n == 0 {
        assert(ks.take(0) =~= Seq::<Seq<char>>::empty());
    } else {
        lemma_delete_keys_noop(r, op, ks, n - 1);
        assert(ks.take(n).drop_last() =~= ks.take(n - 1));
        assert(ks.take(n).last() == ks[n - 1]);
    }
}

/// After the fan-out of a key removal, no record it reached still has any
/// of the keys, unless the removal was older than the record; every record
/// keeps its place.
pub proof fn lemma_fanout_delete_keys<T>(h0: HolderModel<T>, op: SeqNumberType, ids: Seq<PointIdType>, ks: Seq<Seq<char>>, n: int)
    requires
        forall|k: int| 0 <= k < h0.len() ==> seg_wf(#[trigger] h0[k]),
        0 <= n <= ids.len(),
    ensures
        apply_ids(h0, op, ids.take(n), ActionModel::DeletePayload(ks)).len() == h0.len(),
        forall|k: int| 0 <= k < h0.len() ==> seg_wf(#[trigger] apply_ids(h0, op, ids.take(n), ActionModel::DeletePayload(ks))[k]),
        forall|k: int| 0 <= k < h0.len() ==> same_ids(h0[k], #[trigger] apply_ids(h0, op, ids.take(n), ActionModel::DeletePayload(ks))[k]),
        forall|k: int, y: PointIdType| 0 <= k < h0.len() && seg_holds(h0[k], y) && ids.take(n).contains(y)
            ==> keys_gone(#[trigger] seg_record(apply_ids(h0, op, ids.take(n), ActionModel::DeletePayload(ks))[k], y), op, ks),
    decreases n,
{
    let a = ActionModel::<T>::DeletePayload(ks);
    if n == 0 {
        assert(ids.take(0) =~= Seq::<PointIdType>::empty());
    } else {
        lemma_fanout_delete_keys(h0, op, ids, ks, n - 1);
        let pre = ids.take(n - 1);
        assert(ids.take(n).drop_last() =~= pre);
        let x = ids[n - 1];
        assert(ids.take(n).last() == x);
        let p = apply_ids(h0, op, pre, a);
        let h = apply_ids(h0, op, ids.take(n), a);
        assert(h == step(p, op, x, a));
        assert forall|y: PointIdType| ids.take(n).contains(y) <==> (pre.contains(y) || y == x) by {
            if ids.take(n).contains(y) {
                let j = choose|j: int| 0 <= j < n && ids.take(n)[j] == y;
                if j < n - 1 {
                    assert(pre[j] == y);
                }
            }
            if pre.contains(y) {
                let j = choose|j: int| 0 <= j < n - 1 && pre[j] == y;
                assert(ids.take(n)[j] == y);
            }
            if y == x {
                assert(ids.take(n)[n - 1] == y);
            }
        }
        assert forall|k: int| 0 <= k < h0.len() implies
            seg_wf(#[trigger] h[k]) && same_ids(h0[k], h[k])
            && (forall|y: PointIdType| seg_holds(h0[k], y) && ids.take(n).contains(y)
                ==> keys_gone(#[trigger] seg_record(h[k], y), op, ks)) by {
            assert(same_ids(h0[k], p[k]));
            if seg_holds(p[k], x) {
                let i = seg_index(p[k], x);
                let r0 = seg_record(p[k], x);
                assert(keys_unique(r0.payload));
                lemma_delete_keys_put(p[k], op, x, ks);
                let r1 = record_delete_keys(r0, op, ks);
                lemma_delete_keys_gone(r0, op, ks);
                lemma_put_frame(p[k], x, r1);
                crate::segment::lemma_wf_update(p[k], i, r1);
                assert(h[k] == seg_put(p[k], x, r1));
                assert forall|y: PointIdType| seg_holds(h0[k], y) && ids.take(n).contains(y)
                    implies keys_gone(#[trigger] seg_record(h[k], y), op, ks) by {
                    if y != x {
                        assert(seg_record(h[k], y) == seg_record(p[k], y));
                        assert(pre.contains(y));
                    }
                }
                assert forall|y: PointIdType| seg_holds(h0[k], y) <==> seg_holds(h[k], y) by {
                    assert(seg_holds(p[k], y) <==> seg_holds(h[k], y));
                }
            } else {
                assert(h[k] == p[k]);
                assert(!seg_holds(h0[k], x));
                assert forall|y: PointIdType| seg_holds(h0[k], y) && ids.take(n).contains(y)
                    implies keys_gone(#[trigger] seg_record(h[k], y), op, ks) by {
                    assert(y != x);
                    assert(pre.contains(y));
                }
            }
        }
    }
}

/// A key removal that finds none of its keys, or only records newer than
/// itself, changes nothing and counts nothing.
pub proof fn lemma_delete_keys_noop_all<T>(h: HolderModel<T>, op: SeqNumberType, ids: Seq<PointIdType>, ks: Seq<Seq<char>>, n: int)
    requires
        forall|k: int| 0 <= k < h.len() ==> ids_unique(#[trigger] h[k]),
        ks.len() > 0,
        0 <= n <= ids.len(),
        forall|j: int, k: int| 0 <= j < ids.len() && 0 <= k < h.len() && seg_holds(h[k], #[trigger] ids[j])
            ==> keys_gone(#[trigger] seg_record(h[k], ids[j]), op, ks),
    ensures
        apply_ids(h, op, ids.take(n), ActionModel::DeletePayload(ks)) == h,
        count_ids(h, op, ids.take(n), ActionModel::DeletePayload(ks)) == 0,
    decreases n,
{
    let a = ActionModel::<T>::DeletePayload(ks);
    if n == 0 {
        assert(ids.take(0) =~= Seq::<PointIdType>::empty());
    } else {
        lemma_delete_keys_noop_all(h, op, ids, ks, n - 1);
        let pre = ids.take(n - 1);
        assert(ids.take(n).drop_last() =~= pre);
        let x = ids[n - 1];
        assert(ids.take(n).last() == x);
        assert(ks.take(ks.len() as int) =~= ks);
        assert forall|k: int| 0 <= k < h.len() implies #[trigger] step(h, op, x, a)[k] == h[k]
            && (seg_holds(h[k], x) ==> !seg_apply_changes(h[k], op, x, a)) by {
            if seg_holds(h[k], x) {
                let r0 = seg_record(h[k], x);
                assert(keys_gone(r0, op, ks));
                lemma_delete_keys_put(h[k], op, x, ks);
                lemma_delete_keys_noop(r0, op, ks, ks.len() as int);
                lemma_put_same(h[k], x);
            }
        }
        assert(step(h, op, x, a) =~= h);
        assert(!step_changes(h, op, x, a)) by {
            if step_changes(h, op, x, a) {
                let k = choose|k: int| 0 <= k < h.len() && seg_holds(#[trigger] h[k], x) && seg_apply_changes(h[k], op, x, a);
                assert(step(h, op, x, a)[k] == h[k]);
            }
        }
    }
}

/// Removing the same payload keys from the same points twice with the same
/// sequence number leaves the state of the first call; the second fails as
/// the first did, or reports no change. (With no keys at all, every point
/// found reports a change each time.)
pub proof fn lemma_delete_payload_idempotent<T>(
    h0: HolderModel<T>,
    h1: HolderModel<T>,
    h2: HolderModel<T>,
    op: SeqNumberType,
    points: Seq<PointIdType>,
    ks: Seq<Seq<char>>,
    r1: crate::updater::OperationResult<usize>,
    r2: crate::updater::OperationResult<usize>,
)
    requires
        holder_wf(h0),
        ks.len() > 0,
        payload_outcome(h0, h1, op, points, ActionModel::DeletePayload(ks), r1),
        payload_outcome(h1, h2, op, points, ActionModel::DeletePayload(ks), r2),
    ensures
        h2 == h1,
        r1 is Err ==> r2 == r1,
        r1 is Ok ==> r2 == Ok::<usize, crate::updater::UpdateError>(0),
{
    assert(points.take(points.len() as int) =~= points);
    lemma_fanout_delete_keys(h0, op, points, ks, points.len() as int);
    assert forall|k: int| 0 <= k < h1.len() implies ids_unique(#[trigger] h1[k]) by {
        assert(seg_wf(h1[k]));
    }
    assert forall|j: int, k: int| 0 <= j < points.len() && 0 <= k < h1.len() && seg_holds(h1[k], #[trigger] points[j])
        implies keys_gone(#[trigger] seg_record(h1[k], points[j]), op, ks) by {
        assert(same_ids(h0[k], h1[k]));
        assert(points.contains(points[j]));
    }
    lemma_delete_keys_noop_all(h1, op, points, ks, points.len() as int);
    lemma_same_holds(h0, h1);
    assert(points.map_values(|x: PointIdType| holds_any(h0, x)) =~= points.map_values(|x: PointIdType| holds_any(h1, x)));
    assert(first_missing(h0, points) == first_missing(h1, points));
}

/// A record after setting each field of `f` in turn.
pub open spec fn record_set_all<T>(r: RecordModel<T>, op: SeqNumberType, f: PayloadSeq) -> RecordModel<T>
    decreases f.len(),
{
    if f.len() == 0 {
        r
    } else {
        record_set(record_set_all(r, op, f.drop_last()), op, f.last().0, f.last().1)
    }
}

/// The per-field results of setting each field of `f` in turn, combined with AND.
pub open spec fn record_set_all_changes<T>(r: RecordModel<T>, op: SeqNumberType, f: PayloadSeq) -> bool
    decreases f.len(),
{
    if f.len() == 0 {
        true
    } else {
        set_changes(record_set_all(r, op, f.drop_last()), op, f.last().0, f.last().1)
            && record_set_all_changes(r, op, f.drop_last())
    }
}

/// Setting fields one by one on a record held by a segment is replacing that
/// record by the record with the fields set.
pub proof fn lemma_set_all_put<T>(s: Seq<RecordModel<T>>, op: SeqNumberType, x: PointIdType, f: PayloadSeq)
    requires
        ids_unique(s),
        seg_holds(s, x),
    ensures
        record_set_all(seg_record(s, x), op, f).id == x,
        seg_set_all(s, op, x, f) == seg_put(s, x, record_set_all(seg_record(s, x), op, f)),
        set_all_changes(s, op, x, f) == record_set_all_changes(seg_record(s, x), op, f),
    decreases f.len(),
{
    let r = seg_record(s, x);
    let i = seg_index(s, x);
    lemma_index_of(s, i);
    if f.len() == 0 {
        lemma_put_same(s, x);
    } else {
        lemma_set_all_put(s, op, x, f.drop_last());
        let rp = record_set_all(r, op, f.drop_last());
        lemma_put_frame(s, x, rp);
        lemma_put_twice(s, x, rp, record_set(rp, op, f.last().0, f.last().1));
    }
}

/// Setting one field keeps every entry of another key and the uniqueness of keys.
pub proof fn lemma_set_key(p: PayloadSeq, k: Seq<char>, v: PayloadModel)
    requires
        keys_unique(p),
    ensures
        keys_unique(set_key(p, k, v)),
        set_key(p, k, v).contains((k, v)),
        forall|e: (Seq<char>, PayloadModel)| p.contains(e) && e.0 != k ==> #[trigger] set_key(p, k, v).contains(e),
{
    let q = set_key(p, k, v);
    if has_key(p, k) {
        let i = key_index(p, k);
        assert(q[i] == (k, v));
        assert forall|a: int, b: int| 0 <= a < q.len() && 0 <= b < q.len() && q[a].0 == q[b].0 implies a == b by {
            assert(q[a].0 == p[a].0 && q[b].0 == p[b].0);
        }
        assert forall|e: (Seq<char>, PayloadModel)| p.contains(e) && e.0 != k implies #[trigger] q.contains(e) by {
            let a = choose|a: int| 0 <= a < p.len() && p[a] == e;
            assert(a != i);
            assert(q[a] == e);
        }
    } else {
        assert(q[p.len() as int] == (k, v));
        assert forall|a: int, b: int| 0 <= a < q.len() && 0 <= b < q.len() && q[a].0 == q[b].0 implies a == b by {
            if a < p.len() && b == p.len() {
                assert(p[a].0 == k);
            }
            if b < p.len() && a == p.len() {
                assert(p[b].0 == k);
            }
        }
        assert forall|e: (Seq<char>, PayloadModel)| p.contains(e) && e.0 != k implies #[trigger] q.contains(e) by {
            let a = choose|a: int| 0 <= a < p.len() && p[a] == e;
            assert(q[a] == e);
        }
    }
}

/// No two fields of `f` have the same key.
pub open spec fn field_keys_distinct(f: PayloadSeq) -> bool {
    forall|i: int, j: int| 0 <= i < f.len() && 0 <= j < f.len() && f[i].0 == f[j].0 ==> i == j
}

/// Whether setting `f` again would find nothing to do on this record.
pub open spec fn fields_set<T>(r: RecordModel<T>, op: SeqNumberType, f: PayloadSeq) -> bool {
    op < r.version || forall|i: int| 0 <= i < f.len() ==> r.payload.contains(#[trigger] f[i])
}

/// After setting `f` with distinct keys on a record, it holds every field of
/// `f`, unless the mutation was older than the record.
pub proof fn lemma_set_all_done<T>(r: RecordModel<T>, op: SeqNumberType, f: PayloadSeq)
    requires
        keys_unique(r.payload),
        field_keys_distinct(f),
    ensures
        keys_unique(record_set_all(r, op, f).payload),
        fields_set(record_set_all(r, op, f), op, f),
        op < r.version ==> record_set_all(r, op, f) == r,
        op >= r.version ==> record_set_all(r, op, f).version <= op,
    decreases f.len(),
{
    if f.len() > 0 {
        let pre = f.drop_last();
        assert(field_keys_distinct(pre)) by {
            assert forall|i: int, j: int| 0 <= i < pre.len() && 0 <= j < pre.len() && pre[i].0 == pre[j].0 implies i == j by {
                assert(f[i].0 == f[j].0);
            }
        }
        lemma_set_all_done(r, op, pre);
        let rp = record_set_all(r, op, pre);
        let (k, v) = f.last();
        lemma_set_key(rp.payload, k, v);
        let r1 = record_set_all(r, op, f);
        if op >= r.version {
            assert forall|i: int| 0 <= i < f.len() implies r1.payload.contains(#[trigger] f[i]) by {
                if i < f.len() - 1 {
                    assert(pre[i] == f[i]);
                    assert(rp.payload.contains(pre[i]));
                    assert(f[i].0 != k);
                }
            }
        }
    }
}

/// Setting `f` on a record that already holds all of it changes nothing.
pub proof fn lemma_set_all_noop<T>(r: RecordModel<T>, op: SeqNumberType, f: PayloadSeq, n: int)
    requires
        fields_set(r, op, f),
        0 <= n <= f.len(),
    ensures
        record_set_all(r, op, f.take(n)) == r,
        n > 0 ==> !record_set_all_changes(r, op, f.take(n)),
    decreases n,
{
    if n == 0 {
        assert(f.take(0) =~= Seq::<(Seq<char>, PayloadModel)>::empty());
    } else {
        lemma_set_all_noop(r, op, f, n - 1);
        assert(f.take(n).drop_last() =~= f.take(n - 1));
        assert(f.take(n).last() == f[n - 1]);
    }
}

/// After the fan-out of a payload setting with distinct keys, every record it
/// reached holds all the fields, unless the mutation was older than the
/// record; every record keeps its place.
pub proof fn lemma_fanout_set<T>(h0: HolderModel<T>, op: SeqNumberType, ids: Seq<PointIdType>, f: PayloadSeq, n: int)
    requires
        forall|k: int| 0 <= k < h0.len() ==> seg_wf(#[trigger] h0[k]),
        field_keys_distinct(f),
        0 <= n <= ids.len(),
    ensures
        apply_ids(h0, op, ids.take(n), ActionModel::SetPayload(f)).len() == h0.len(),
        forall|k: int| 0 <= k < h0.len() ==> seg_wf(#[trigger] apply_ids(h0, op, ids.take(n), ActionModel::SetPayload(f))[k]),
        forall|k: int| 0 <= k < h0.len() ==> same_ids(h0[k], #[trigger] apply_ids(h0, op, ids.take(n), ActionModel::SetPayload(f))[k]),
        forall|k: int, y: PointIdType| 0 <= k < h0.len() && seg_holds(h0[k], y) && ids.take(n).contains(y)
            ==> fields_set(#[trigger] seg_record(apply_ids(h0, op, ids.take(n), ActionModel::SetPayload(f))[k], y), op, f),
    decreases n,
{
    let a = ActionModel::<T>::SetPayload(f);
    if n == 0 {
        assert(ids.take(0) =~= Seq::<PointIdType>::empty());
    } else {
        lemma_fanout_set(h0, op, ids, f, n - 1);
        let pre = ids.take(n - 1);
        assert(ids.take(n).drop_last() =~= pre);
        let x = ids[n - 1];
        assert(ids.take(n).last() == x);
        let p = apply_ids(h0, op, pre, a);
        let h = apply_ids(h0, op, ids.take(n), a);
        assert(h == step(p, op, x, a));
        assert forall|y: PointIdType| ids.take(n).contains(y) <==> (pre.contains(y) || y == x) by {
            if ids.take(n).contains(y) {
                let j = choose|j: int| 0 <= j < n && ids.take(n)[j] == y;
                if j < n - 1 {
                    assert(pre[j] == y);
                }
            }
            if pre.contains(y) {
                let j = choose|j: int| 0 <= j < n - 1 && pre[j] == y;
                assert(ids.take(n)[j] == y);
            }
            if y == x {
                assert(ids.take(n)[n - 1] == y);
            }
        }
        assert forall|k: int| 0 <= k < h0.len() implies
            seg_wf(#[trigger] h[k]) && same_ids(h0[k], h[k])
            && (forall|y: PointIdType| seg_holds(h0[k], y) && ids.take(n).contains(y)
                ==> fields_set(#[trigger] seg_record(h[k], y), op, f)) by {
            assert(same_ids(h0[k], p[k]));
            if seg_holds(p[k], x) {
                let i = seg_index(p[k], x);
                let r0 = seg_record(p[k], x);
                assert(keys_unique(r0.payload));
                lemma_set_all_put(p[k], op, x, f);
                let r1 = record_set_all(r0, op, f);
                lemma_set_all_done(r0, op, f);
                lemma_put_frame(p[k], x, r1);
                crate::segment::lemma_wf_update(p[k], i, r1);
                assert(h[k] == seg_put(p[k], x, r1));
                assert forall|y: PointIdType| seg_holds(h0[k], y) && ids.take(n).contains(y)
                    implies fields_set(#[trigger] seg_record(h[k], y), op, f) by {
                    if y != x {
                        assert(seg_record(h[k], y) == seg_record(p[k], y));
                        assert(pre.contains(y));
                    }
                }
                assert forall|y: PointIdType| seg_holds(h0[k], y) <==> seg_holds(h[k], y) by {
                    assert(seg_holds(p[k], y) <==> seg_holds(h[k], y));
                }
            } else {
                assert(h[k] == p[k]);
                assert(!seg_holds(h0[k], x));
                assert forall|y: PointIdType| seg_holds(h0[k], y) && ids.take(n).contains(y)
                    implies fields_set(#[trigger] seg_record(h[k], y), op, f) by {
                    assert(y != x);
                    assert(pre.contains(y));
                }
            }
        }
    }
}

/// A payload setting whose records already hold all its fields, or are newer
/// than it, changes nothing and counts nothing.
pub proof fn lemma_set_noop_all<T>(h: HolderModel<T>, op: SeqNumberType, ids: Seq<PointIdType>, f: PayloadSeq, n: int)
    requires
        forall|k: int| 0 <= k < h.len() ==> ids_unique(#[trigger] h[k]),
        f.len() > 0,
        0 <= n <= ids.len(),
        forall|j: int, k: int| 0 <= j < ids.len() && 0 <= k < h.len() && seg_holds(h[k], #[trigger] ids[j])
            ==> fields_set(#[trigger] seg_record(h[k], ids[j]), op, f),
    ensures
        apply_ids(h, op, ids.take(n), ActionModel::SetPayload(f)) == h,
        count_ids(h, op, ids.take(n), ActionModel::SetPayload(f)) == 0,
    decreases n,
{
    let a = ActionModel::<T>::SetPayload(f);
    if n == 0 {
        assert(ids.take(0) =~= Seq::<PointIdType>::empty());
    } else {
        lemma_set_noop_all(h, op, ids, f, n - 1);
        let pre = ids.take(n - 1);
        assert(ids.take(n).drop_last() =~= pre);
        let x = ids[n - 1];
        assert(ids.take(n).last() == x);
        assert(f.take(f.len() as int) =~= f);
        assert forall|k: int| 0 <= k < h.len() implies #[trigger] step(h, op, x, a)[k] == h[k]
            && (seg_holds(h[k], x) ==> !seg_apply_changes(h[k], op, x, a)) by {
            if seg_holds(h[k], x) {
                let r0 = seg_record(h[k], x);
                assert(fields_set(r0, op, f));
                lemma_set_all_put(h[k], op, x, f);
                lemma_set_all_noop(r0, op, f, f.len() as int);
                lemma_put_same(h[k], x);
            }
        }
        assert(step(h, op, x, a) =~= h);
        assert(!step_changes(h, op, x, a)) by {
            if step_changes(h, op, x, a) {
                let k = choose|k: int| 0 <= k < h.len() && seg_holds(#[trigger] h[k], x) && seg_apply_changes(h[k], op, x, a);
                assert(step(h, op, x, a)[k] == h[k]);
            }
        }
    }
}

/// Setting the same payload, with distinct keys, on the same points twice
/// with the same sequence number leaves the state of the first call; the
/// second fails as the first did, or reports no change.
pub proof fn lemma_set_payload_idempotent<T>(
    h0: HolderModel<T>,
    h1: HolderModel<T>,
    h2: HolderModel<T>,
    op: SeqNumberType,
    points: Seq<PointIdType>,
    f: PayloadSeq,
    r1: crate::updater::OperationResult<usize>,
    r2: crate::updater::OperationResult<usize>,
)
    requires
        holder_wf(h0),
        f.len() > 0,
        field_keys_distinct(f),
        payload_outcome(h0, h1, op, points, ActionModel::SetPayload(f), r1),
        payload_outcome(h1, h2, op, points, ActionModel::SetPayload(f), r2),
    ensures
        h2 == h1,
        r1 is Err ==> r2 == r1,
        r1 is Ok ==> r2 == Ok::<usize, crate::updater::UpdateError>(0),
{
    assert(points.take(points.len() as int) =~= points);
    lemma_fanout_set(h0, op, points, f, points.len() as int);
    assert forall|k: int| 0 <= k < h1.len() implies ids_unique(#[trigger] h1[k]) by {
        assert(seg_wf(h1[k]));
    }
    assert forall|j: int, k: int| 0 <= j < points.len() && 0 <= k < h1.len() && seg_holds(h1[k], #[trigger] points[j])
        implies fields_set(#[trigger] seg_record(h1[k], points[j]), op, f) by {
        assert(same_ids(h0[k], h1[k]));
        assert(points.contains(points[j]));
    }
    lemma_set_noop_all(h1, op, points, f, points.len() as int);
    lemma_same_holds(h0, h1);
    assert(points.map_values(|x: PointIdType| holds_any(h0, x)) =~= points.map_values(|x: PointIdType| holds_any(h1, x)));
    assert(first_missing(h0, points) == first_missing(h1, points));
}

} // verus!
