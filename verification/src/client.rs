//! Client-side presentation of replicated state: the one-time creation hook
//! for records first observed, and the per-tick mirroring of record
//! positions into visual transforms.

use vstd::prelude::*;
use crate::server::{distinct_ids, ids, views_of, PlayerRecord, RecordView};

verus! {

/// The client's own identity: the connection id it picked for its session.
pub struct MySelf(pub u64);

/// The ids whose creation hook must fire on a tick that observes `records`:
/// those not seen on any earlier tick, in record order.
pub open spec fn new_ids(seen: Seq<u64>, records: Seq<RecordView>) -> Seq<u64> {
    ids(records).filter(|id: u64| !seen.contains(id))
}

/// Whether an id already has a record in the table.
fn contains_id(v: &Vec<u64>, x: u64) -> (r: bool)
    ensures
        r == v@.contains(x),
{
    let n = v.len();
    for i in 0..n
        invariant
            n == v@.len(),
            forall|t: int| 0 <= t < i ==> v@[t] != x,
    {
        if v[i] == x {
            return true;
        }
    }
    false
}

/// Runs the one-time creation hook bookkeeping for a tick that observes
/// `records`: returns the ids of the records first observed this tick, in
/// record order, and marks exactly those as seen. Against the same `seen`
/// set a record id fires at most once over its lifetime.
pub fn handle_create_event(seen: &mut Vec<u64>, records: &Vec<PlayerRecord>) -> (created: Vec<u64>)
    requires
        distinct_ids(views_of(records@)),
    ensures
        created@ == new_ids(old(seen)@, views_of(records@)),
        final(seen)@ == old(seen)@ + created@,
{
    let ghost orig_seen = seen@;
    let mut created: Vec<u64> = Vec::new();
    let n = records.len();
    for j in 0..n
        invariant
            n == records@.len(),
            distinct_ids(views_of(records@)),
            created@ == new_ids(orig_seen, views_of(records@.take(j as int))),
            seen@ == orig_seen + created@,
    {
        proof {
            assert(views_of(records@.take(j as int + 1)) =~= views_of(records@).take(j as int + 1));
            assert(views_of(records@.take(j as int)) =~= views_of(records@).take(j as int));
            lemma_new_ids_take_step(orig_seen, views_of(records@), j as int);
        }
        let id = records[j].id.0;
        if !contains_id(seen, id) {
            proof {
                assert(!orig_seen.contains(id)) by {
                    if orig_seen.contains(id) {
                        let v = choose|v: int| 0 <= v < orig_seen.len() && orig_seen[v] == id;
                        assert((orig_seen + created@)[v] == id);
                    }
                }
            }
            created.push(id);
            seen.push(id);
            proof {
                assert(seen@ =~= orig_seen + created@);
            }
        } else {
            proof {
                assert(orig_seen.contains(id)) by {
                    let cur = orig_seen + created@;
                    let w = choose|w: int| 0 <= w < cur.len() && cur[w] == id;
                    if w >= orig_seen.len() {
                        assert(created@[w - orig_seen.len()] == id);
                        let prefix = ids(views_of(records@).take(j as int));
                        lemma_filter_members(prefix, |i: u64| !orig_seen.contains(i));
                        assert(prefix.contains(id));
                        let t = choose|t: int| 0 <= t < prefix.len() && prefix[t] == id;
                        assert(views_of(records@)[t].id == id);
                        assert(views_of(records@)[j as int].id == id);
                    } else {
                        assert(orig_seen[w] == id);
                    }
                }
            }
        }
    }
    proof {
        assert(records@.take(n as int) =~= records@);
    }
    created
}

/// Mirrors replicated state for rendering: the visual transform of every
/// locally known record is set to that record's position, one transform per
/// record, in record order.
pub fn update_pc(records: &Vec<PlayerRecord>) -> (transforms: Vec<(i64, i64, i64)>)
    ensures
        transforms@.len() == records@.len(),
        forall|t: int|
            0 <= t < records@.len() ==> transforms@[t] == records@[t].character.position,
{
    let mut transforms: Vec<(i64, i64, i64)> = Vec::new();
    let n = records.len();
    for j in 0..n
        invariant
            n == records@.len(),
            transforms@.len() == j,
            forall|t: int| 0 <= t < j ==> transforms@[t] == records@[t].character.position,
    {
        transforms.push(records[j].character.position);
    }
    transforms
}

/// Scanning one more record either fires its hook (when its id is unseen) or
/// passes it over: the step a table scan takes.
proof fn lemma_new_ids_take_step(seen: Seq<u64>, records: Seq<RecordView>, j: int)
    requires
        0 <= j < records.len(),
    ensures
        new_ids(seen, records.take(j + 1)) == if !seen.contains(records[j].id) {
            new_ids(seen, records.take(j)).push(records[j].id)
        } else {
            new_ids(seen, records.take(j))
        },
{
    let pred = |id: u64| !seen.contains(id);
    let single = seq![records[j].id];
    assert(ids(records.take(j + 1)) =~= ids(records.take(j)) + single);
    Seq::<u64>::filter_distributes_over_add(ids(records.take(j)), single, pred);
    assert(single.filter(pred) == if pred(records[j].id) {
        single
    } else {
        Seq::<u64>::empty()
    }) by {
        reveal_with_fuel(Seq::filter, 2);
        assert(single.drop_last() =~= Seq::<u64>::empty());
        assert(single.last() == records[j].id);
        assert(Seq::<u64>::empty().push(records[j].id) =~= single);
    }
    if pred(records[j].id) {
        assert(ids(records.take(j)).filter(pred) + single =~= ids(records.take(j)).filter(
            pred,
        ).push(records[j].id));
    } else {
        assert(ids(records.take(j)).filter(pred) + Seq::<u64>::empty() =~= ids(
            records.take(j),
        ).filter(pred));
    }
}

/// Every element a filter keeps was in the sequence it filtered.
proof fn lemma_filter_members(q: Seq<u64>, pred: spec_fn(u64) -> bool)
    ensures
        forall|i: int| 0 <= i < q.filter(pred).len() ==> q.contains(#[trigger] q.filter(pred)[i]),
    decreases q.len(),
{
    reveal(Seq::filter);
    if q.len() != 0 {
        lemma_filter_members(q.drop_last(), pred);
        assert forall|i: int|
            0 <= i < q.filter(pred).len() implies q.contains(#[trigger] q.filter(pred)[i]) by {
            let f = q.filter(pred);
            let fp = q.drop_last().filter(pred);
            if i < fp.len() {
                assert(fp[i] == f[i]);
                let w = choose|w: int| 0 <= w < q.drop_last().len() && q.drop_last()[w] == fp[i];
                assert(q[w] == f[i]);
            } else {
                assert(f[i] == q.last());
                assert(q[q.len() - 1] == q.last());
            }
        }
    }
}

/// The creation hook fires at most once per record lifetime: once the ids a
/// tick created are marked seen, another tick observing the same records
/// creates nothing.
pub proof fn lemma_create_hook_once(seen: Seq<u64>, records: Seq<RecordView>)
    ensures
        new_ids(seen + new_ids(seen, records), records).len() == 0,
{
    broadcast use vstd::seq_lib::group_filter_ensures;

    let q = ids(records);
    let first = new_ids(seen, records);
    let seen2 = seen + first;
    let f2 = new_ids(seen2, records);
    if f2.len() > 0 {
        lemma_filter_members(q, |id: u64| !seen2.contains(id));
        let x = f2[0];
        assert(!seen2.contains(x));
        assert(q.contains(x));
        let w = choose|w: int| 0 <= w < q.len() && q[w] == x;
        assert(!seen.contains(x)) by {
            if seen.contains(x) {
                let v = choose|v: int| 0 <= v < seen.len() && seen[v] == x;
                assert(seen2[v] == x);
            }
        }
        assert(first.contains(x));
        let u = choose|u: int| 0 <= u < first.len() && first[u] == x;
        assert(seen2[seen.len() + u] == x);
    }
}

} // verus!
