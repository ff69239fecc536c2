use vstd::prelude::*;
use crate::store::{
    EntityStore, EntityRecord, BodyState, ColliderState, ColliderParent, EntityModel,
    ColliderModel, BodyModel, has_entity, index_of, ent, has_body_handle, body_index_of,
    ids_unique, store_wf, lemma_ent_at, lemma_body_at, lemma_view_seq_update, same_logs, MODIFIED,
};
use crate::tracker::{ModificationTracker, TrackerModel, lemma_push_contains, lemma_set_flag, merged_unique, newly_flagged_bodies, newly_flagged_colliders, flag_seq, detached, cleanup_target};

verus! {

/// The engine handle of the body carried by the nearest ancestor of entity
/// `id` (the entity itself counts), following at most `fuel` parent links.
/// `None` when the chain ends, leaves the store, or runs out of fuel.
pub open spec fn ancestor_body(s: Seq<EntityModel>, id: u64, fuel: nat) -> Option<u64>
    decreases fuel,
{
    if !has_entity(s, id) {
        None
    } else {
        let e = ent(s, id);
        if e.body is Some {
            Some(e.body->0.handle)
        } else if e.parent is Some {
            if fuel == 0 {
                None
            } else {
                ancestor_body(s, e.parent->0, (fuel - 1) as nat)
            }
        } else {
            None
        }
    }
}

/// Whether one attachment pass creates a relation for this record: it has a
/// collider, no relation yet, and an ancestor carrying a body.
pub open spec fn attach_qualifies(s: Seq<EntityModel>, i: int) -> bool {
    &&& s[i].collider is Some
    &&& s[i].collider->0.parent is None
    &&& ancestor_body(s, s[i].id, s.len() as nat) is Some
}

/// One record after one attachment pass over the store `s`.
pub open spec fn attach_record(s: Seq<EntityModel>, r: EntityModel) -> EntityModel {
    if r.collider is Some && r.collider->0.parent is None && ancestor_body(
        s,
        r.id,
        s.len() as nat,
    ) is Some {
        let c = r.collider->0;
        EntityModel {
            id: r.id,
            parent: r.parent,
            body: r.body,
            collider: Some(
                ColliderModel {
                    handle: c.handle,
                    changes: c.changes,
                    bf_data: c.bf_data,
                    pos: c.pos,
                    parent: Some(
                        ColliderParent {
                            handle: ancestor_body(s, r.id, s.len() as nat)->0,
                            pos_wrt_parent: c.pos,
                        },
                    ),
                    parent_added: true,
                },
            ),
        }
    } else {
        r
    }
}

/// The whole store after one attachment pass.
pub open spec fn attach_spec(s: Seq<EntityModel>) -> Seq<EntityModel> {
    Seq::new(s.len(), |i: int| attach_record(s, s[i]))
}

impl EntityStore {
    /// Walks the ancestor chain of `start` (itself included) looking for the
    /// nearest entity that carries a body, following at most as many parent
    /// links as there are entities; returns that body's engine handle.
    pub fn find_ancestor_body(&self, start: u64) -> (r: Option<u64>)
        requires
            self.wf(),
        ensures
            r == ancestor_body(self@.entities, start, self@.entities.len() as nat),
    {
        let ghost s = self@.entities;
        let mut fuel: usize = self.entities.len();
        let mut cur: u64 = start;
        loop
            invariant
                self.wf(),
                s == self@.entities,
                fuel <= self@.entities.len(),
                ancestor_body(s, start, s.len() as nat) == ancestor_body(s, cur, fuel as nat),
            decreases fuel,
        {
            match self.find(cur) {
                None => {
                    return None;
                },
                Some(i) => {
                    proof {
                        lemma_ent_at(s, i as int);
                        assert(ent(s, cur) == s[i as int]);
                    }
                    match &self.entities[i].body {
                        Some(b) => {
                            return Some(b.handle);
                        },
                        None => {},
                    }
                    match self.entities[i].parent {
                        Some(p) => {
                            if fuel == 0 {
                                return None;
                            }
                            fuel = fuel - 1;
                            cur = p;
                        },
                        None => {
                            return None;
                        },
                    }
                },
            }
        }
    }
}

/// Attachment pass: every collider entity without an attachment relation
/// whose ancestor chain (the entity itself first) reaches an entity carrying
/// a body gets a relation recording that body's engine handle and the
/// collider's local position; entities whose chain finds no body are left
/// untouched and scanned again on a later pass.
pub fn attach_bodies_and_colliders(store: &mut EntityStore)
    requires
        old(store).wf(),
    ensures
        final(store).wf(),
        final(store)@.entities =~= attach_spec(old(store)@.entities),
        same_logs(final(store)@, old(store)@),
{
    let ghost s = store@.entities;
    let n = store.entities.len();
    let mut pending: Vec<(usize, u64)> = Vec::new();
    let mut k: usize = 0;
    while k < n
        invariant
            k <= n,
            store.wf(),
            s == store@.entities,
            n == store.entities.len(),
            forall|m: int|
                0 <= m < pending@.len() ==> (#[trigger] pending@[m].0 as int) < k && attach_qualifies(
                    s,
                    pending@[m].0 as int,
                ) && Some(pending@[m].1) == ancestor_body(s, s[pending@[m].0 as int].id, s.len() as nat),
            forall|a: int, b: int|
                0 <= a < b < pending@.len() ==> pending@[a].0 != pending@[b].0,
            forall|i: int|
                0 <= i < k && attach_qualifies(s, i) ==> exists|m: int|
                    0 <= m < pending@.len() && (#[trigger] pending@[m].0 as int) == i,
        decreases n - k,
    {
        let qualifies: bool = match &store.entities[k].collider {
            Some(c) => c.parent.is_none(),
            None => false,
        };
        if qualifies {
            match store.find_ancestor_body(store.entities[k].id) {
                Some(h) => {
                    let ghost pending_pre = pending@;
                    pending.push((k, h));
                    proof {
                        assert(pending@ == pending_pre.push((k, h)));
                        assert(attach_qualifies(s, k as int));
                        assert forall|i: int|
                            0 <= i < k + 1 && attach_qualifies(s, i) implies exists|m: int|
                            0 <= m < pending@.len() && (#[trigger] pending@[m].0 as int) == i by {
                            if i == k {
                                assert(pending@[pending@.len() - 1].0 as int == i);
                            } else {
                                let m = choose|m: int|
                                    0 <= m < pending_pre.len() && (#[trigger] pending_pre[m].0
                                        as int) == i;
                                assert(pending@[m].0 as int == i);
                            }
                        }
                    }
                },
                None => {
                    proof {
                        assert(!attach_qualifies(s, k as int));
                    }
                },
            }
        } else {
            proof {
                assert(!attach_qualifies(s, k as int));
            }
        }
        k = k + 1;
    }
    let np = pending.len();
    let mut m: usize = 0;
    while m < np
        invariant
            m <= np,
            np == pending.len(),
            s.len() == store.entities.len(),
            store_wf(s),
            forall|q: int|
                0 <= q < pending@.len() ==> (#[trigger] pending@[q].0 as int) < s.len()
                    && attach_qualifies(s, pending@[q].0 as int) && Some(pending@[q].1)
                    == ancestor_body(s, s[pending@[q].0 as int].id, s.len() as nat),
            forall|a: int, b: int|
                0 <= a < b < pending@.len() ==> pending@[a].0 != pending@[b].0,
            forall|i: int|
                0 <= i < s.len() && attach_qualifies(s, i) ==> exists|q: int|
                    0 <= q < pending@.len() && (#[trigger] pending@[q].0 as int) == i,
            forall|i: int|
                0 <= i < s.len() ==> #[trigger] store@.entities[i] == if exists|q: int|
                    0 <= q < m && (#[trigger] pending@[q].0 as int) == i {
                    attach_record(s, s[i])
                } else {
                    s[i]
                },
            same_logs(store@, old(store)@),
            store.wf(),
        decreases np - m,
    {
        let (i, h) = pending[m];
        proof {
            assert(pending@[m as int].0 == i && pending@[m as int].1 == h);
            assert(attach_qualifies(s, i as int));
            assert forall|q: int| 0 <= q < m implies (#[trigger] pending@[q].0 as int) != i as int
                by {}
            assert(store@.entities[i as int] == s[i as int]);
        }
        let ghost pre_exec = store.entities@;
        let rec = store.entities.remove(i);
        let EntityRecord { id, parent, body, collider } = rec;
        match collider {
            Some(c0) => {
                let newrec = EntityRecord {
                    id,
                    parent,
                    body,
                    collider: Some(
                        ColliderState {
                            handle: c0.handle,
                            changes: c0.changes,
                            bf_data: c0.bf_data,
                            pos: c0.pos,
                            parent: Some(ColliderParent { handle: h, pos_wrt_parent: c0.pos }),
                            parent_added: true,
                        },
                    ),
                };
                let ghost newmodel = newrec@;
                store.entities.insert(i, newrec);
                proof {
                    lemma_view_seq_update(pre_exec, i as int, store.entities[i as int]);
                    assert(newmodel == attach_record(s, s[i as int]));
                    assert forall|i2: int|
                        0 <= i2 < s.len() implies #[trigger] store@.entities[i2] == (if exists|
                        q: int,
                    |
                        0 <= q < m + 1 && (#[trigger] pending@[q].0 as int) == i2 {
                        attach_record(s, s[i2])
                    } else {
                        s[i2]
                    }) by {
                        if i2 == i as int {
                            assert(pending@[m as int].0 as int == i2);
                        } else {
                            if exists|q: int|
                                0 <= q < m + 1 && (#[trigger] pending@[q].0 as int) == i2 {
                                let q = choose|q: int|
                                    0 <= q < m + 1 && (#[trigger] pending@[q].0 as int) == i2;
                                assert(q < m);
                                assert(exists|q2: int|
                                    0 <= q2 < m && (#[trigger] pending@[q2].0 as int) == i2);
                            }
                        }
                    }
                    crate::store::lemma_wf_update(
                        store@.entities.update(i as int, s[i as int]),
                        i as int,
                        newmodel,
                    );
                    assert forall|a: int, b: int|
                        0 <= a < b < store@.entities.len() implies store@.entities[a].id
                        != store@.entities[b].id by {
                        assert(store@.entities[a].id == s[a].id && store@.entities[b].id
                            == s[b].id);
                    }
                    assert forall|a: int, b: int|
                        0 <= a < b < store@.entities.len() && store@.entities[a].body is Some
                            && store@.entities[b].body is Some implies store@.entities[a].body->0.handle
                        != store@.entities[b].body->0.handle by {
                        assert(store@.entities[a].body == s[a].body && store@.entities[b].body
                            == s[b].body);
                    }
                    assert forall|a: int, b: int|
                        0 <= a < b < store@.entities.len() && store@.entities[a].collider is Some
                            && store@.entities[b].collider is Some implies store@.entities[a].collider->0.handle
                        != store@.entities[b].collider->0.handle by {
                        assert(store@.entities[a].collider is Some ==> store@.entities[a].collider->0.handle
                            == s[a].collider->0.handle);
                        assert(store@.entities[b].collider is Some ==> store@.entities[b].collider->0.handle
                            == s[b].collider->0.handle);
                    }
                }
            },
            None => {
                proof {
                    assert(false);
                }
                store.entities.insert(i, EntityRecord { id, parent, body, collider: None });
            },
        }
        m = m + 1;
    }
    proof {
        assert forall|i: int| 0 <= i < s.len() implies store@.entities[i] == attach_record(
            s,
            s[i],
        ) by {
            if attach_qualifies(s, i) {
                let q = choose|q: int|
                    0 <= q < pending@.len() && (#[trigger] pending@[q].0 as int) == i;
                assert(exists|q2: int| 0 <= q2 < np && (#[trigger] pending@[q2].0 as int) == i);
            } else {
                assert(attach_record(s, s[i]) == s[i]);
            }
        }
        assert(store@.entities =~= attach_spec(s));
    }
}


/// Whether the record at `i` is ready for the finalize pass: it carries a
/// collider whose attachment relation was newly established and whose parent
/// body is present in the store.
pub open spec fn fproc(s: Seq<EntityModel>, i: int) -> bool {
    &&& 0 <= i < s.len()
    &&& s[i].collider is Some
    &&& s[i].collider->0.parent_added
    &&& s[i].collider->0.parent is Some
    &&& has_body_handle(s, s[i].collider->0.parent->0.handle)
}

/// Whether the record at `i` carries a newly established relation whose
/// parent body has meanwhile left the store; the relation's added flag is
/// consumed and the record is otherwise skipped.
pub open spec fn fdangling(s: Seq<EntityModel>, i: int) -> bool {
    &&& 0 <= i < s.len()
    &&& s[i].collider is Some
    &&& s[i].collider->0.parent_added
    &&& s[i].collider->0.parent is Some
    &&& !has_body_handle(s, s[i].collider->0.parent->0.handle)
}

/// The parent body handle of the record at `i`.
pub open spec fn ftarget(s: Seq<EntityModel>, i: int) -> u64 {
    s[i].collider->0.parent->0.handle
}

/// The collider handle of the record at `i`.
pub open spec fn fchandle(s: Seq<EntityModel>, i: int) -> u64 {
    s[i].collider->0.handle
}

/// The collider of record `r` reset to fresh change and broad-phase state,
/// with its added flag consumed.
pub open spec fn freset(r: EntityModel) -> Option<ColliderModel> {
    Some(
        ColliderModel {
            handle: r.collider->0.handle,
            changes: 0,
            bf_data: 0,
            pos: r.collider->0.pos,
            parent: r.collider->0.parent,
            parent_added: false,
        },
    )
}

/// The collider of record `r` with only the added flag consumed.
pub open spec fn fconsumed(r: EntityModel) -> Option<ColliderModel> {
    Some(
        ColliderModel {
            handle: r.collider->0.handle,
            changes: r.collider->0.changes,
            bf_data: r.collider->0.bf_data,
            pos: r.collider->0.pos,
            parent: r.collider->0.parent,
            parent_added: false,
        },
    )
}

/// The collider handles among the first `n` records that the finalize pass
/// attaches to the body with handle `h`, in record order.
pub open spec fn newly_attached(s: Seq<EntityModel>, n: int, h: u64) -> Seq<u64>
    decreases n,
{
    if n <= 0 {
        Seq::empty()
    } else {
        let rest = newly_attached(s, n - 1, h);
        if fproc(s, n - 1) && ftarget(s, n - 1) == h {
            rest.push(fchandle(s, n - 1))
        } else {
            rest
        }
    }
}

/// Whether the body with handle `h` was unflagged before the finalize pass.
pub open spec fn body_unflagged(s: Seq<EntityModel>, h: u64) -> bool {
    s[body_index_of(s, h)].body->0.changes & MODIFIED == 0
}

/// The body handles that the finalize pass over the first `n` records newly
/// records as modified: the first attachment to a body that was not already
/// flagged records its handle, later attachments to the same body do not.
pub open spec fn newly_modified(s: Seq<EntityModel>, n: int) -> Seq<u64>
    decreases n,
{
    if n <= 0 {
        Seq::empty()
    } else {
        let rest = newly_modified(s, n - 1);
        if fproc(s, n - 1) && body_unflagged(s, ftarget(s, n - 1)) && newly_attached(
            s,
            n - 1,
            ftarget(s, n - 1),
        ).len() == 0 {
            rest.push(ftarget(s, n - 1))
        } else {
            rest
        }
    }
}

/// The body-to-colliders entry for `h` before the finalize pass, or empty.
pub open spec fn bc_base(t: TrackerModel, h: u64) -> Seq<u64> {
    if t.body_colliders.contains_key(h) {
        t.body_colliders[h]
    } else {
        Seq::empty()
    }
}

/// Finalize pass: every collider whose attachment relation was newly
/// established is registered with its parent body. The tracker first records
/// the body as modified (unless it already was), then records the collider
/// under the body in the body-to-colliders map and the reverse link in the
/// collider-to-parent map; the collider's change and broad-phase state is
/// reset to fresh, its added flag is consumed, and the body gains the
/// collider in its engine-side collider list and is flagged modified. A
/// relation whose parent body has left the store is skipped, its added flag
/// consumed.
#[verifier::rlimit(60)]
pub fn finalize_collider_attach_to_bodies(
    store: &mut EntityStore,
    modification_tracker: &mut ModificationTracker,
)
    requires
        old(store).wf(),
    ensures
        final(store).wf(),
        final(store)@.entities.len() == old(store)@.entities.len(),
        same_logs(final(store)@, old(store)@),
        forall|i: int|
            0 <= i < old(store)@.entities.len() ==> (#[trigger] final(store)@.entities[i].id == old(
                store,
            )@.entities[i].id && final(store)@.entities[i].parent == old(
                store,
            )@.entities[i].parent),
        forall|i: int|
            0 <= i < old(store)@.entities.len() ==> #[trigger] final(store)@.entities[i].collider
                == (if fproc(old(store)@.entities, i) {
                freset(old(store)@.entities[i])
            } else if fdangling(old(store)@.entities, i) {
                fconsumed(old(store)@.entities[i])
            } else {
                old(store)@.entities[i].collider
            }),
        forall|i: int|
            0 <= i < old(store)@.entities.len() ==> ((#[trigger] final(store)@.entities[i].body
                is Some <==> old(store)@.entities[i].body is Some) && (old(
                store,
            )@.entities[i].body is Some ==> final(store)@.entities[i].body->0.handle == old(
                store,
            )@.entities[i].body->0.handle && final(store)@.entities[i].body->0.pos == old(
                store,
            )@.entities[i].body->0.pos)),
        forall|i: int|
            0 <= i < old(store)@.entities.len() && old(store)@.entities[i].body is Some
                ==> #[trigger] final(store)@.entities[i].body->0.colliders == old(
                store,
            )@.entities[i].body->0.colliders + newly_attached(
                old(store)@.entities,
                old(store)@.entities.len() as int,
                old(store)@.entities[i].body->0.handle,
            ),
        forall|i: int|
            0 <= i < old(store)@.entities.len() && old(store)@.entities[i].body is Some
                ==> #[trigger] final(store)@.entities[i].body->0.changes == (if newly_attached(
                old(store)@.entities,
                old(store)@.entities.len() as int,
                old(store)@.entities[i].body->0.handle,
            ).len() > 0 {
                old(store)@.entities[i].body->0.changes | MODIFIED
            } else {
                old(store)@.entities[i].body->0.changes
            }),
        final(modification_tracker)@.modified_bodies == old(modification_tracker)@.modified_bodies
            + newly_modified(old(store)@.entities, old(store)@.entities.len() as int),
        final(modification_tracker)@.modified_colliders == old(
            modification_tracker,
        )@.modified_colliders,
        final(modification_tracker)@.removed_bodies == old(modification_tracker)@.removed_bodies,
        final(modification_tracker)@.removed_colliders == old(
            modification_tracker,
        )@.removed_colliders,
        forall|h: u64|
            #[trigger] final(modification_tracker)@.body_colliders.contains_key(h) <==> (old(
                modification_tracker,
            )@.body_colliders.contains_key(h) || newly_attached(
                old(store)@.entities,
                old(store)@.entities.len() as int,
                h,
            ).len() > 0),
        forall|h: u64|
            final(modification_tracker)@.body_colliders.contains_key(h)
                ==> #[trigger] final(modification_tracker)@.body_colliders[h] == bc_base(
                old(modification_tracker)@,
                h,
            ) + newly_attached(old(store)@.entities, old(store)@.entities.len() as int, h),
        forall|c: u64|
            #[trigger] final(modification_tracker)@.colliders_parent.contains_key(c) <==> (old(
                modification_tracker,
            )@.colliders_parent.contains_key(c) || (exists|i: int|
                fproc(old(store)@.entities, i) && fchandle(old(store)@.entities, i) == c)),
        forall|i: int|
            fproc(old(store)@.entities, i) ==> final(modification_tracker)@.colliders_parent.contains_key(#[trigger] fchandle(old(store)@.entities, i)) && final(modification_tracker)@.colliders_parent[fchandle(old(store)@.entities, i)] == ftarget(
                old(store)@.entities,
                i,
            ),
        forall|c: u64|
            #[trigger] old(modification_tracker)@.colliders_parent.contains_key(c) && !(exists|
                i: int,
            | fproc(old(store)@.entities, i) && fchandle(old(store)@.entities, i) == c) ==> final(modification_tracker)@.colliders_parent.contains_key(c) && final(modification_tracker)@.colliders_parent[c]
                == old(modification_tracker)@.colliders_parent[c],
{
    let ghost s0 = store@.entities;
    let ghost t0 = modification_tracker@;
    let n = store.entities.len();
    let mut k: usize = 0;
    while k < n
        invariant
            k <= n,
            n == s0.len(),
            store_wf(s0),
            s0 == old(store)@.entities,
            t0 == old(modification_tracker)@,
            store@.entities.len() == s0.len(),
            store.wf(),
            same_logs(store@, old(store)@),
            forall|i: int|
                0 <= i < s0.len() ==> (#[trigger] store@.entities[i].id == s0[i].id
                    && store@.entities[i].parent == s0[i].parent),
            forall|i: int|
                k <= i < s0.len() ==> #[trigger] store@.entities[i].collider == s0[i].collider,
            forall|i: int|
                0 <= i < k ==> #[trigger] store@.entities[i].collider == (if fproc(s0, i) {
                    freset(s0[i])
                } else if fdangling(s0, i) {
                    fconsumed(s0[i])
                } else {
                    s0[i].collider
                }),
            forall|i: int|
                0 <= i < s0.len() ==> ((#[trigger] store@.entities[i].body is Some <==> s0[i].body
                    is Some) && (s0[i].body is Some ==> store@.entities[i].body->0.handle
                    == s0[i].body->0.handle && store@.entities[i].body->0.pos
                    == s0[i].body->0.pos)),
            forall|i: int|
                0 <= i < s0.len() && s0[i].body is Some
                    ==> #[trigger] store@.entities[i].body->0.colliders == s0[i].body->0.colliders
                    + newly_attached(s0, k as int, s0[i].body->0.handle),
            forall|i: int|
                0 <= i < s0.len() && s0[i].body is Some
                    ==> #[trigger] store@.entities[i].body->0.changes == (if newly_attached(
                    s0,
                    k as int,
                    s0[i].body->0.handle,
                ).len() > 0 {
                    s0[i].body->0.changes | MODIFIED
                } else {
                    s0[i].body->0.changes
                }),
            modification_tracker@.modified_bodies == t0.modified_bodies + newly_modified(
                s0,
                k as int,
            ),
            modification_tracker@.modified_colliders == t0.modified_colliders,
            modification_tracker@.removed_bodies == t0.removed_bodies,
            modification_tracker@.removed_colliders == t0.removed_colliders,
            forall|h: u64|
                #[trigger] modification_tracker@.body_colliders.contains_key(h) <==> (
                t0.body_colliders.contains_key(h) || newly_attached(s0, k as int, h).len() > 0),
            forall|h: u64|
                modification_tracker@.body_colliders.contains_key(h)
                    ==> #[trigger] modification_tracker@.body_colliders[h] == bc_base(t0, h)
                    + newly_attached(s0, k as int, h),
            forall|c: u64|
                #[trigger] modification_tracker@.colliders_parent.contains_key(c) <==> (
                t0.colliders_parent.contains_key(c) || (exists|i: int|
                    0 <= i < k && fproc(s0, i) && #[trigger] fchandle(s0, i) == c)),
            forall|i: int|
                0 <= i < k && fproc(s0, i) ==> modification_tracker@.colliders_parent.contains_key(
                    #[trigger] fchandle(s0, i),
                ) && modification_tracker@.colliders_parent[fchandle(s0, i)] == ftarget(s0, i),
            forall|c: u64|
                #[trigger] t0.colliders_parent.contains_key(c) && !(exists|i: int|
                    0 <= i < k && fproc(s0, i) && #[trigger] fchandle(s0, i) == c)
                    ==> modification_tracker@.colliders_parent.contains_key(c)
                    && modification_tracker@.colliders_parent[c] == t0.colliders_parent[c],
        decreases n - k,
    {
        let mut relevant: bool = false;
        let mut c_h: u64 = 0;
        let mut p_h: u64 = 0;
        match &store.entities[k].collider {
            Some(cs) => {
                if cs.parent_added {
                    match &cs.parent {
                        Some(p) => {
                            relevant = true;
                            c_h = cs.handle;
                            p_h = p.handle;
                        },
                        None => {},
                    }
                }
            },
            None => {},
        }
        proof {
            assert(store@.entities[k as int].collider == s0[k as int].collider);
            if relevant {
                assert(s0[k as int].collider is Some && s0[k as int].collider->0.parent_added
                    && s0[k as int].collider->0.parent is Some && fchandle(s0, k as int) == c_h
                    && ftarget(s0, k as int) == p_h);
            } else {
                assert(!fproc(s0, k as int) && !fdangling(s0, k as int));
                assert(newly_attached(s0, k as int + 1, p_h) == newly_attached(s0, k as int, p_h));
                assert(newly_modified(s0, k as int + 1) == newly_modified(s0, k as int));
                assert forall|h: u64|
                    #[trigger] newly_attached(s0, k as int + 1, h) == newly_attached(
                        s0,
                        k as int,
                        h,
                    ) by {}
                assert forall|c: u64|
                    #[trigger] modification_tracker@.colliders_parent.contains_key(c) <==> (
                t0.colliders_parent.contains_key(c) || (exists|i: int|
                    0 <= i < k + 1 && fproc(s0, i) && #[trigger] fchandle(s0, i) == c)) by {
                    if exists|i: int|
                        0 <= i < k + 1 && fproc(s0, i) && #[trigger] fchandle(s0, i) == c {
                        let i = choose|i: int|
                            0 <= i < k + 1 && fproc(s0, i) && #[trigger] fchandle(s0, i) == c;
                        assert(i < k);
                        assert(exists|i2: int|
                            0 <= i2 < k && fproc(s0, i2) && #[trigger] fchandle(s0, i2) == c);
                    }
                    if exists|i: int| 0 <= i < k && fproc(s0, i) && #[trigger] fchandle(s0, i)
                        == c {
                        let i = choose|i: int|
                            0 <= i < k && fproc(s0, i) && #[trigger] fchandle(s0, i) == c;
                        assert(0 <= i < k + 1 && fproc(s0, i) && fchandle(s0, i) == c);
                    }
                }
                assert forall|c: u64|
                    #[trigger] t0.colliders_parent.contains_key(c) && !(exists|i: int|
                        0 <= i < k + 1 && fproc(s0, i) && #[trigger] fchandle(s0, i) == c)
                        implies modification_tracker@.colliders_parent.contains_key(c)
                        && modification_tracker@.colliders_parent[c] == t0.colliders_parent[c] by {
                    assert(!(exists|i: int|
                        0 <= i < k && fproc(s0, i) && #[trigger] fchandle(s0, i) == c)) by {
                        if exists|i: int| 0 <= i < k && fproc(s0, i) && #[trigger] fchandle(s0, i)
                            == c {
                            let i = choose|i: int|
                                0 <= i < k && fproc(s0, i) && #[trigger] fchandle(s0, i) == c;
                            assert(0 <= i < k + 1 && fproc(s0, i) && fchandle(s0, i) == c);
                        }
                    }
                }
            }
        }
        if relevant {
            match store.find_body(p_h) {
                None => {
                    proof {
                        if has_body_handle(s0, p_h) {
                            let bi = body_index_of(s0, p_h);
                            assert(s0[bi].body is Some && s0[bi].body->0.handle == p_h);
                            assert(store@.entities[bi].body is Some
                                && store@.entities[bi].body->0.handle == p_h);
                            assert(false);
                        }
                        assert(fdangling(s0, k as int) && !fproc(s0, k as int));
                        assert forall|h: u64|
                            #[trigger] newly_attached(s0, k as int + 1, h) == newly_attached(
                                s0,
                                k as int,
                                h,
                            ) by {}
                        assert(newly_modified(s0, k as int + 1) == newly_modified(s0, k as int));
                        assert forall|c: u64|
                            #[trigger] modification_tracker@.colliders_parent.contains_key(c) <==> (
                        t0.colliders_parent.contains_key(c) || (exists|i: int|
                            0 <= i < k + 1 && fproc(s0, i) && #[trigger] fchandle(s0, i) == c)) by {
                            if exists|i: int|
                                0 <= i < k + 1 && fproc(s0, i) && #[trigger] fchandle(s0, i) == c {
                                let i = choose|i: int|
                                    0 <= i < k + 1 && fproc(s0, i) && #[trigger] fchandle(s0, i)
                                        == c;
                                assert(i < k);
                                assert(exists|i2: int|
                                    0 <= i2 < k && fproc(s0, i2) && #[trigger] fchandle(s0, i2)
                                        == c);
                            }
                            if exists|i: int|
                                0 <= i < k && fproc(s0, i) && #[trigger] fchandle(s0, i) == c {
                                let i = choose|i: int|
                                    0 <= i < k && fproc(s0, i) && #[trigger] fchandle(s0, i) == c;
                                assert(0 <= i < k + 1 && fproc(s0, i) && fchandle(s0, i) == c);
                            }
                        }
                        assert forall|c: u64|
                            #[trigger] t0.colliders_parent.contains_key(c) && !(exists|i: int|
                                0 <= i < k + 1 && fproc(s0, i) && #[trigger] fchandle(s0, i) == c)
                                implies modification_tracker@.colliders_parent.contains_key(c)
                                && modification_tracker@.colliders_parent[c]
                                == t0.colliders_parent[c] by {
                            assert(!(exists|i: int|
                                0 <= i < k && fproc(s0, i) && #[trigger] fchandle(s0, i) == c)) by {
                                if exists|i: int|
                                    0 <= i < k && fproc(s0, i) && #[trigger] fchandle(s0, i) == c {
                                    let i = choose|i: int|
                                        0 <= i < k && fproc(s0, i) && #[trigger] fchandle(s0, i)
                                            == c;
                                    assert(0 <= i < k + 1 && fproc(s0, i) && fchandle(s0, i) == c);
                                }
                            }
                        }
                    }
                    let ghost pre_exec = store.entities@;
                    let rec = store.entities.remove(k);
                    let EntityRecord { id, parent, body, collider } = rec;
                    match collider {
                        Some(c0) => {
                            let newrec = EntityRecord {
                                id,
                                parent,
                                body,
                                collider: Some(
                                    ColliderState {
                                        handle: c0.handle,
                                        changes: c0.changes,
                                        bf_data: c0.bf_data,
                                        pos: c0.pos,
                                        parent: c0.parent,
                                        parent_added: false,
                                    },
                                ),
                            };
                            let ghost newmodel = newrec@;
                            store.entities.insert(k, newrec);
                            proof {
                                lemma_view_seq_update(
                                    pre_exec,
                                    k as int,
                                    store.entities[k as int],
                                );
                                assert(newmodel.collider == fconsumed(s0[k as int]));
                                assert forall|a: int, b: int|
                                    0 <= a < b < store@.entities.len() implies store@.entities[a].id
                                    != store@.entities[b].id by {
                                    assert(store@.entities[a].id == s0[a].id
                                        && store@.entities[b].id == s0[b].id);
                                }
                                assert forall|a: int, b: int|
                                    0 <= a < b < store@.entities.len() && store@.entities[a].body
                                        is Some && store@.entities[b].body is Some implies store@.entities[a].body->0.handle
                                    != store@.entities[b].body->0.handle by {
                                    assert(store@.entities[a].body is Some ==> store@.entities[a].body->0.handle
                                        == s0[a].body->0.handle);
                                    assert(store@.entities[b].body is Some ==> store@.entities[b].body->0.handle
                                        == s0[b].body->0.handle);
                                }
                                assert forall|a: int, b: int|
                                    0 <= a < b < store@.entities.len() && store@.entities[a].collider
                                        is Some && store@.entities[b].collider is Some implies store@.entities[a].collider->0.handle
                                    != store@.entities[b].collider->0.handle by {
                                    assert(store@.entities[a].collider is Some
                                        ==> store@.entities[a].collider->0.handle
                                        == s0[a].collider->0.handle);
                                    assert(store@.entities[b].collider is Some
                                        ==> store@.entities[b].collider->0.handle
                                        == s0[b].collider->0.handle);
                                }
                            }
                        },
                        None => {
                            proof {
                                assert(false);
                            }
                            store.entities.insert(
                                k,
                                EntityRecord { id, parent, body, collider: None },
                            );
                        },
                    }
                },
                Some(j) => {
                    proof {
                        assert(store@.entities[j as int].body is Some
                            && store@.entities[j as int].body->0.handle == p_h);
                        assert(s0[j as int].body is Some && s0[j as int].body->0.handle == p_h);
                        lemma_body_at(s0, j as int);
                        assert(fproc(s0, k as int));
                        assert(newly_attached(s0, k as int + 1, p_h) == newly_attached(
                            s0,
                            k as int,
                            p_h,
                        ).push(c_h));
                        assert forall|h: u64|
                            h != p_h implies #[trigger] newly_attached(s0, k as int + 1, h)
                            == newly_attached(s0, k as int, h) by {}
                    }
                    let was_unflagged: bool = match &store.entities[j].body {
                        Some(b) => b.changes & MODIFIED == 0,
                        None => false,
                    };
                    proof {
                        if newly_attached(s0, k as int, p_h).len() > 0 {
                            assert(store@.entities[j as int].body->0.changes == (s0[j as int].body->0.changes
                                | MODIFIED));
                            lemma_set_flag(s0[j as int].body->0.changes);
                            assert(!was_unflagged);
                            assert(newly_modified(s0, k as int + 1) == newly_modified(
                                s0,
                                k as int,
                            ));
                        } else {
                            assert(store@.entities[j as int].body->0.changes == s0[j as int].body->0.changes);
                            assert(was_unflagged == body_unflagged(s0, p_h));
                            if was_unflagged {
                                assert(newly_modified(s0, k as int + 1) == newly_modified(
                                    s0,
                                    k as int,
                                ).push(p_h));
                            } else {
                                assert(newly_modified(s0, k as int + 1) == newly_modified(
                                    s0,
                                    k as int,
                                ));
                            }
                        }
                    }
                    let ghost bc_pre = modification_tracker@.body_colliders;
                    let ghost cp_entry = modification_tracker@.colliders_parent;
                    if was_unflagged {
                        modification_tracker.modified_bodies.push(p_h);
                    }
                    proof {
                        assert(modification_tracker@.body_colliders == bc_pre);
                    }
                    let mut cur: Vec<u64> = match modification_tracker.body_colliders.remove(&p_h) {
                        Some(v) => v,
                        None => Vec::new(),
                    };
                    let ghost cur_pre = cur@;
                    proof {
                        if bc_pre.contains_key(p_h) {
                            assert(cur_pre == bc_pre[p_h]);
                        } else {
                            assert(cur_pre =~= Seq::<u64>::empty());
                            assert(cur_pre == bc_base(t0, p_h) + newly_attached(
                                s0,
                                k as int,
                                p_h,
                            ));
                        }
                    }
                    cur.push(c_h);
                    let ghost cur_view = cur@;
                    modification_tracker.body_colliders.insert(p_h, cur);
                    proof {
                        assert(modification_tracker@.body_colliders =~= bc_pre.remove(p_h).insert(
                            p_h,
                            cur_view,
                        ));
                        assert(cur_view == bc_base(t0, p_h) + newly_attached(
                            s0,
                            k as int + 1,
                            p_h,
                        )) by {
                            assert(cur_pre == bc_base(t0, p_h) + newly_attached(s0, k as int, p_h));
                            assert((bc_base(t0, p_h) + newly_attached(s0, k as int, p_h)).push(c_h)
                                =~= bc_base(t0, p_h) + newly_attached(s0, k as int, p_h).push(
                                c_h,
                            ));
                        }
                        assert forall|h: u64|
                            #[trigger] modification_tracker@.body_colliders.contains_key(h) <==> (
                        t0.body_colliders.contains_key(h) || newly_attached(
                            s0,
                            k as int + 1,
                            h,
                        ).len() > 0) by {
                            if h == p_h {
                                assert(newly_attached(s0, k as int + 1, p_h).len() > 0);
                            } else {
                                assert(modification_tracker@.body_colliders.contains_key(h)
                                    == bc_pre.contains_key(h));
                            }
                        }
                        assert forall|h: u64|
                            modification_tracker@.body_colliders.contains_key(h) implies
                            #[trigger] modification_tracker@.body_colliders[h] == bc_base(t0, h)
                            + newly_attached(s0, k as int + 1, h) by {
                            if h != p_h {
                                assert(modification_tracker@.body_colliders[h] == bc_pre[h]);
                            }
                        }
                    }
                    let ghost cp_pre = cp_entry;
                    proof {
                        assert(modification_tracker@.colliders_parent == cp_entry);
                    }
                    modification_tracker.colliders_parent.insert(c_h, p_h);
                    proof {
                        assert(modification_tracker@.colliders_parent == cp_pre.insert(c_h, p_h));
                        assert forall|c: u64|
                            #[trigger] modification_tracker@.colliders_parent.contains_key(c) <==> (
                        t0.colliders_parent.contains_key(c) || (exists|i: int|
                            0 <= i < k + 1 && fproc(s0, i) && #[trigger] fchandle(s0, i) == c)) by {
                            if c == c_h {
                                assert(0 <= (k as int) < k + 1 && fproc(s0, k as int) && fchandle(
                                    s0,
                                    k as int,
                                ) == c);
                            } else {
                                if exists|i: int|
                                    0 <= i < k + 1 && fproc(s0, i) && #[trigger] fchandle(s0, i)
                                        == c {
                                    let i = choose|i: int|
                                        0 <= i < k + 1 && fproc(s0, i) && #[trigger] fchandle(
                                            s0,
                                            i,
                                        ) == c;
                                    assert(i < k);
                                    assert(exists|i2: int|
                                        0 <= i2 < k && fproc(s0, i2) && #[trigger] fchandle(
                                            s0,
                                            i2,
                                        ) == c);
                                }
                                if exists|i: int|
                                    0 <= i < k && fproc(s0, i) && #[trigger] fchandle(s0, i) == c {
                                    let i = choose|i: int|
                                        0 <= i < k && fproc(s0, i) && #[trigger] fchandle(s0, i)
                                            == c;
                                    assert(0 <= i < k + 1 && fproc(s0, i) && fchandle(s0, i) == c);
                                }
                            }
                        }
                        assert forall|i: int|
                            0 <= i < k + 1 && fproc(s0, i) implies
                            modification_tracker@.colliders_parent.contains_key(
                                #[trigger] fchandle(s0, i),
                            ) && modification_tracker@.colliders_parent[fchandle(s0, i)] == ftarget(
                            s0,
                            i,
                        ) by {
                            if i < k {
                                if fchandle(s0, i) == c_h {
                                    assert(s0[i].collider is Some && s0[k as int].collider is Some);
                                    assert(i != k as int);
                                    assert(false);
                                }
                                assert(modification_tracker@.colliders_parent[fchandle(s0, i)]
                                    == cp_pre[fchandle(s0, i)]);
                            }
                        }
                        assert forall|c: u64|
                            #[trigger] t0.colliders_parent.contains_key(c) && !(exists|i: int|
                                0 <= i < k + 1 && fproc(s0, i) && #[trigger] fchandle(s0, i) == c)
                                implies modification_tracker@.colliders_parent.contains_key(c)
                                && modification_tracker@.colliders_parent[c]
                                == t0.colliders_parent[c] by {
                            assert(c != c_h) by {
                                if c == c_h {
                                    assert(0 <= (k as int) < k + 1 && fproc(s0, k as int) && fchandle(
                                        s0,
                                        k as int,
                                    ) == c);
                                }
                            }
                            assert(!(exists|i: int|
                                0 <= i < k && fproc(s0, i) && #[trigger] fchandle(s0, i) == c)) by {
                                if exists|i: int|
                                    0 <= i < k && fproc(s0, i) && #[trigger] fchandle(s0, i) == c {
                                    let i = choose|i: int|
                                        0 <= i < k && fproc(s0, i) && #[trigger] fchandle(s0, i)
                                            == c;
                                    assert(0 <= i < k + 1 && fproc(s0, i) && fchandle(s0, i) == c);
                                }
                            }
                        }
                    }
                    // reset the collider's state on record k
                    let ghost pre_exec = store.entities@;
                    let rec = store.entities.remove(k);
                    let EntityRecord { id, parent, body, collider } = rec;
                    let newrec = match collider {
                        Some(c0) => EntityRecord {
                            id,
                            parent,
                            body,
                            collider: Some(
                                ColliderState {
                                    handle: c0.handle,
                                    changes: 0,
                                    bf_data: 0,
                                    pos: c0.pos,
                                    parent: c0.parent,
                                    parent_added: false,
                                },
                            ),
                        },
                        None => {
                            proof {
                                assert(false);
                            }
                            EntityRecord { id, parent, body, collider: None }
                        },
                    };
                    let ghost mid_model = newrec@;
                    store.entities.insert(k, newrec);
                    proof {
                        lemma_view_seq_update(pre_exec, k as int, store.entities[k as int]);
                        assert(mid_model.collider == freset(s0[k as int]));
                    }
                    // register the collider with the body on record j
                    let ghost pre_exec2 = store.entities@;
                    let ghost bodyj = store@.entities[j as int].body;
                    proof {
                        assert(bodyj->0.colliders == s0[j as int].body->0.colliders
                            + newly_attached(s0, k as int, p_h));
                        assert(bodyj->0.changes == (if newly_attached(s0, k as int, p_h).len() > 0 {
                            s0[j as int].body->0.changes | MODIFIED
                        } else {
                            s0[j as int].body->0.changes
                        }));
                    }
                    let recb = store.entities.remove(j);
                    let EntityRecord { id: idb, parent: parentb, body: bodyb, collider: colliderb }
                        = recb;
                    let newrecb = match bodyb {
                        Some(b0) => {
                            let mut cols = b0.colliders;
                            cols.push(c_h);
                            EntityRecord {
                                id: idb,
                                parent: parentb,
                                body: Some(
                                    BodyState {
                                        handle: b0.handle,
                                        changes: b0.changes | MODIFIED,
                                        pos: b0.pos,
                                        colliders: cols,
                                    },
                                ),
                                collider: colliderb,
                            }
                        },
                        None => {
                            proof {
                                assert(false);
                            }
                            EntityRecord { id: idb, parent: parentb, body: None, collider: colliderb }
                        },
                    };
                    let ghost post_model = newrecb@;
                    store.entities.insert(j, newrecb);
                    proof {
                        lemma_view_seq_update(pre_exec2, j as int, store.entities[j as int]);
                        lemma_set_flag(s0[j as int].body->0.changes);
                        assert(post_model.body->0.colliders == bodyj->0.colliders.push(c_h));
                        assert(post_model.body->0.colliders == s0[j as int].body->0.colliders
                            + newly_attached(s0, k as int + 1, p_h)) by {
                            assert((s0[j as int].body->0.colliders + newly_attached(
                                s0,
                                k as int,
                                p_h,
                            )).push(c_h) =~= s0[j as int].body->0.colliders + newly_attached(
                                s0,
                                k as int,
                                p_h,
                            ).push(c_h));
                        }
                        assert(post_model.body->0.changes == (bodyj->0.changes | MODIFIED));
                        assert(post_model.body->0.changes == (s0[j as int].body->0.changes
                            | MODIFIED));
                        assert forall|a: int, b: int|
                            0 <= a < b < store@.entities.len() implies store@.entities[a].id
                            != store@.entities[b].id by {
                            assert(store@.entities[a].id == s0[a].id && store@.entities[b].id
                                == s0[b].id);
                        }
                        assert forall|a: int, b: int|
                            0 <= a < b < store@.entities.len() && store@.entities[a].body is Some
                                && store@.entities[b].body is Some implies store@.entities[a].body->0.handle
                            != store@.entities[b].body->0.handle by {
                            assert(store@.entities[a].body is Some ==> store@.entities[a].body->0.handle
                                == s0[a].body->0.handle);
                            assert(store@.entities[b].body is Some ==> store@.entities[b].body->0.handle
                                == s0[b].body->0.handle);
                        }
                        assert forall|a: int, b: int|
                            0 <= a < b < store@.entities.len() && store@.entities[a].collider
                                is Some && store@.entities[b].collider is Some implies store@.entities[a].collider->0.handle
                            != store@.entities[b].collider->0.handle by {
                            assert(store@.entities[a].collider is Some ==> store@.entities[a].collider->0.handle
                                == s0[a].collider->0.handle);
                            assert(store@.entities[b].collider is Some ==> store@.entities[b].collider->0.handle
                                == s0[b].collider->0.handle);
                        }
                    }
                },
            }
        }
        k = k + 1;
    }
    proof {
        assert(newly_modified(s0, n as int) == newly_modified(s0, s0.len() as int));
    }
}

/// Detection pass run before a step: consumes the store's removal signals
/// into the tracker's removed sets, then its mutation signals into the
/// tracker's modified sets, flagging each newly modified object.
pub fn prepare_step(store: &mut EntityStore, modification_tracker: &mut ModificationTracker)
    requires
        old(store).wf(),
    ensures
        final(store).wf(),
        final(store)@.entities =~= flag_seq(
            old(store)@.entities,
            newly_flagged_bodies(
                old(store)@.entities,
                old(store)@.dirty_body_log,
                old(store)@.dirty_body_log.len() as int,
            ),
            newly_flagged_colliders(
                old(store)@.entities,
                old(store)@.dirty_collider_log,
                old(store)@.dirty_collider_log.len() as int,
            ),
        ),
        final(store)@.removed_body_log =~= Seq::<u64>::empty(),
        final(store)@.removed_collider_log =~= Seq::<u64>::empty(),
        final(store)@.dirty_body_log =~= Seq::<u64>::empty(),
        final(store)@.dirty_collider_log =~= Seq::<u64>::empty(),
        final(modification_tracker)@.removed_bodies == merged_unique(
            old(modification_tracker)@.removed_bodies,
            old(store)@.removed_body_log,
            old(store)@.removed_body_log.len() as int,
        ),
        final(modification_tracker)@.removed_colliders == merged_unique(
            old(modification_tracker)@.removed_colliders,
            old(store)@.removed_collider_log,
            old(store)@.removed_collider_log.len() as int,
        ),
        final(modification_tracker)@.modified_bodies == old(modification_tracker)@.modified_bodies
            + newly_flagged_bodies(
            old(store)@.entities,
            old(store)@.dirty_body_log,
            old(store)@.dirty_body_log.len() as int,
        ),
        final(modification_tracker)@.modified_colliders == old(
            modification_tracker,
        )@.modified_colliders + newly_flagged_colliders(
            old(store)@.entities,
            old(store)@.dirty_collider_log,
            old(store)@.dirty_collider_log.len() as int,
        ),
        final(modification_tracker)@.body_colliders == old(modification_tracker)@.body_colliders,
        final(modification_tracker)@.colliders_parent == old(
            modification_tracker,
        )@.colliders_parent,
{
    modification_tracker.detect_removals(store);
    modification_tracker.detect_modifications(store);
}

/// Late detection pass: consumes any removal signals raised since the last
/// look, so that the next step propagates them.
pub fn collect_removals(store: &mut EntityStore, modification_tracker: &mut ModificationTracker)
    ensures
        final(store)@.entities == old(store)@.entities,
        final(store)@.dirty_body_log == old(store)@.dirty_body_log,
        final(store)@.dirty_collider_log == old(store)@.dirty_collider_log,
        final(store)@.removed_body_log =~= Seq::<u64>::empty(),
        final(store)@.removed_collider_log =~= Seq::<u64>::empty(),
        final(modification_tracker)@.removed_bodies == merged_unique(
            old(modification_tracker)@.removed_bodies,
            old(store)@.removed_body_log,
            old(store)@.removed_body_log.len() as int,
        ),
        final(modification_tracker)@.removed_colliders == merged_unique(
            old(modification_tracker)@.removed_colliders,
            old(store)@.removed_collider_log,
            old(store)@.removed_collider_log.len() as int,
        ),
        final(modification_tracker)@.modified_bodies == old(modification_tracker)@.modified_bodies,
        final(modification_tracker)@.modified_colliders == old(
            modification_tracker,
        )@.modified_colliders,
        final(modification_tracker)@.body_colliders == old(modification_tracker)@.body_colliders,
        final(modification_tracker)@.colliders_parent == old(
            modification_tracker,
        )@.colliders_parent,
{
    modification_tracker.detect_removals(store);
}

/// The tracked deltas that one step hands to the physics engine: the bodies
/// and colliders modified this frame, and the colliders and bodies removed
/// since the last step.
pub struct StepOutputs {
    pub modified_bodies: Vec<u64>,
    pub modified_colliders: Vec<u64>,
    pub removed_colliders: Vec<u64>,
    pub removed_bodies: Vec<u64>,
}

/// One simulation step over the store's mirror state. Tracked removals are
/// propagated into the attachment maps; the four tracked delta collections
/// are drained into the returned engine inputs; entities whose collider was
/// detached by a removed body lose their collider components; every change
/// flag is reset, mirroring the engine's consumption of the deltas; and the
/// tracker's delta collections end empty, whatever they held before.
#[verifier::rlimit(60)]
pub fn step_world(store: &mut EntityStore, modification_tracker: &mut ModificationTracker) -> (outputs:
    StepOutputs)
    requires
        old(store).wf(),
    ensures
        final(store).wf(),
        final(modification_tracker)@.modified_bodies =~= Seq::<u64>::empty(),
        final(modification_tracker)@.modified_colliders =~= Seq::<u64>::empty(),
        final(modification_tracker)@.removed_bodies =~= Seq::<u64>::empty(),
        final(modification_tracker)@.removed_colliders =~= Seq::<u64>::empty(),
        outputs.modified_bodies@ == old(modification_tracker)@.modified_bodies,
        outputs.modified_colliders@ == old(modification_tracker)@.modified_colliders,
        outputs.removed_bodies@ == old(modification_tracker)@.removed_bodies,
        forall|c: u64|
            #[trigger] outputs.removed_colliders@.contains(c) <==> (old(
                modification_tracker,
            )@.removed_colliders.contains(c) || detached(old(modification_tracker)@, c)),
        forall|h: u64|
            old(modification_tracker)@.removed_bodies.contains(h) ==> !(#[trigger] final(modification_tracker)@.body_colliders.contains_key(h)),
        forall|h: u64|
            #[trigger] final(modification_tracker)@.body_colliders.contains_key(h) ==> old(
                modification_tracker,
            )@.body_colliders.contains_key(h) && final(modification_tracker)@.body_colliders[h]
                == old(modification_tracker)@.body_colliders[h],
        forall|c: u64|
            detached(old(modification_tracker)@, c) ==> !(#[trigger] final(modification_tracker)@.colliders_parent.contains_key(c)),
        forall|c: u64|
            #[trigger] final(modification_tracker)@.colliders_parent.contains_key(c) ==> old(
                modification_tracker,
            )@.colliders_parent.contains_key(c) && final(modification_tracker)@.colliders_parent[c]
                == old(modification_tracker)@.colliders_parent[c],
        final(store)@.entities.len() == old(store)@.entities.len(),
        forall|i: int|
            0 <= i < old(store)@.entities.len() ==> (#[trigger] final(store)@.entities[i].id == old(
                store,
            )@.entities[i].id && final(store)@.entities[i].parent == old(
                store,
            )@.entities[i].parent),
        forall|i: int|
            0 <= i < old(store)@.entities.len() ==> ((#[trigger] final(store)@.entities[i].body
                is Some <==> old(store)@.entities[i].body is Some) && (old(
                store,
            )@.entities[i].body is Some ==> final(store)@.entities[i].body == Some(
                BodyModel {
                    changes: 0,
                    handle: old(store)@.entities[i].body->0.handle,
                    pos: old(store)@.entities[i].body->0.pos,
                    colliders: old(store)@.entities[i].body->0.colliders,
                },
            ))),
        forall|i: int|
            0 <= i < old(store)@.entities.len() ==> #[trigger] final(store)@.entities[i].collider
                == (if old(store)@.entities[i].collider is Some {
                if detached(old(modification_tracker)@, old(store)@.entities[i].collider->0.handle) {
                    None
                } else {
                    Some(
                        ColliderModel {
                            changes: 0,
                            handle: old(store)@.entities[i].collider->0.handle,
                            bf_data: old(store)@.entities[i].collider->0.bf_data,
                            pos: old(store)@.entities[i].collider->0.pos,
                            parent: old(store)@.entities[i].collider->0.parent,
                            parent_added: old(store)@.entities[i].collider->0.parent_added,
                        },
                    )
                }
            } else {
                None
            }),
{
    let ghost s0 = store@.entities;
    let ghost t0 = modification_tracker@;
    let cleanup = modification_tracker.propagate_removals(store);
    let ghost t_after = modification_tracker@;
    let mut out_mb: Vec<u64> = Vec::new();
    let mut out_mc: Vec<u64> = Vec::new();
    let mut out_rc: Vec<u64> = Vec::new();
    let mut out_rb: Vec<u64> = Vec::new();
    core::mem::swap(&mut modification_tracker.modified_bodies, &mut out_mb);
    core::mem::swap(&mut modification_tracker.modified_colliders, &mut out_mc);
    core::mem::swap(&mut modification_tracker.removed_colliders, &mut out_rc);
    core::mem::swap(&mut modification_tracker.removed_bodies, &mut out_rb);
    // strip the collider components of the entities whose collider was
    // detached by a removed body
    let nc = cleanup.len();
    let mut m: usize = 0;
    while m < nc
        invariant
            m <= nc,
            nc == cleanup.len(),
            store@.entities.len() == s0.len(),
            store.wf(),
            store_wf(s0),
            same_logs(store@, old(store)@),
            forall|x: u64| #[trigger] cleanup@.contains(x) ==> cleanup_target(t0, s0, x),
            forall|i: int|
                0 <= i < s0.len() && s0[i].collider is Some && detached(
                    t0,
                    #[trigger] s0[i].collider->0.handle,
                ) ==> cleanup@.contains(s0[i].id),
            forall|i: int|
                0 <= i < s0.len() ==> (#[trigger] store@.entities[i].id == s0[i].id
                    && store@.entities[i].parent == s0[i].parent && store@.entities[i].body
                    == s0[i].body),
            forall|i: int|
                0 <= i < s0.len() ==> #[trigger] store@.entities[i].collider == (if s0[i].collider
                    is Some && (exists|q: int| 0 <= q < m && #[trigger] cleanup@[q] == s0[i].id) {
                    None
                } else {
                    s0[i].collider
                }),
        decreases nc - m,
    {
        let e = cleanup[m];
        proof {
            assert(cleanup@[m as int] == e);
        }
        match store.find(e) {
            None => {
                proof {
                    assert forall|i: int|
                        0 <= i < s0.len() implies #[trigger] store@.entities[i].collider == (if s0[i].collider
                        is Some && (exists|q: int|
                        0 <= q < m + 1 && #[trigger] cleanup@[q] == s0[i].id) {
                        None
                    } else {
                        s0[i].collider
                    }) by {
                        if s0[i].collider is Some && (exists|q: int|
                            0 <= q < m + 1 && #[trigger] cleanup@[q] == s0[i].id) {
                            let q = choose|q: int|
                                0 <= q < m + 1 && #[trigger] cleanup@[q] == s0[i].id;
                            if q == m {
                                assert(s0[i].id == e);
                                assert(store@.entities[i].id == e);
                                assert(has_entity(store@.entities, e));
                                assert(false);
                            }
                            assert(exists|q2: int|
                                0 <= q2 < m && #[trigger] cleanup@[q2] == s0[i].id);
                        }
                    }
                }
            },
            Some(i) => {
                let ghost pre_exec = store.entities@;
                let rec = store.entities.remove(i);
                let EntityRecord { id, parent, body, collider } = rec;
                let newrec = EntityRecord { id, parent, body, collider: None };
                let ghost newmodel = newrec@;
                store.entities.insert(i, newrec);
                proof {
                    lemma_view_seq_update(pre_exec, i as int, store.entities[i as int]);
                    assert forall|i2: int|
                        0 <= i2 < s0.len() implies #[trigger] store@.entities[i2].collider == (if s0[i2].collider
                        is Some && (exists|q: int|
                        0 <= q < m + 1 && #[trigger] cleanup@[q] == s0[i2].id) {
                        None
                    } else {
                        s0[i2].collider
                    }) by {
                        if i2 == i as int {
                            if s0[i2].collider is Some {
                                assert(cleanup@[m as int] == s0[i2].id);
                                assert(exists|q: int|
                                    0 <= q < m + 1 && #[trigger] cleanup@[q] == s0[i2].id);
                            }
                        } else {
                            if s0[i2].collider is Some && (exists|q: int|
                                0 <= q < m + 1 && #[trigger] cleanup@[q] == s0[i2].id) {
                                let q = choose|q: int|
                                    0 <= q < m + 1 && #[trigger] cleanup@[q] == s0[i2].id;
                                if q == m {
                                    assert(s0[i2].id == e && s0[i as int].id == e);
                                    assert(false);
                                }
                                assert(exists|q2: int|
                                    0 <= q2 < m && #[trigger] cleanup@[q2] == s0[i2].id);
                            }
                        }
                    }
                    assert forall|a: int, b: int|
                        0 <= a < b < store@.entities.len() implies store@.entities[a].id
                        != store@.entities[b].id by {
                        assert(store@.entities[a].id == s0[a].id && store@.entities[b].id
                            == s0[b].id);
                    }
                    assert forall|a: int, b: int|
                        0 <= a < b < store@.entities.len() && store@.entities[a].body is Some
                            && store@.entities[b].body is Some implies store@.entities[a].body->0.handle
                        != store@.entities[b].body->0.handle by {
                        assert(store@.entities[a].body == s0[a].body && store@.entities[b].body
                            == s0[b].body);
                    }
                    assert forall|a: int, b: int|
                        0 <= a < b < store@.entities.len() && store@.entities[a].collider is Some
                            && store@.entities[b].collider is Some implies store@.entities[a].collider->0.handle
                        != store@.entities[b].collider->0.handle by {
                        assert(store@.entities[a].collider is Some ==> store@.entities[a].collider
                            == s0[a].collider);
                        assert(store@.entities[b].collider is Some ==> store@.entities[b].collider
                            == s0[b].collider);
                    }
                }
            },
        }
        m = m + 1;
    }
    let ghost s_mid = store@.entities;
    // reset every change flag: the engine has consumed this frame's deltas
    let ne = store.entities.len();
    let mut z: usize = 0;
    while z < ne
        invariant
            z <= ne,
            ne == store.entities.len(),
            store@.entities.len() == s_mid.len(),
            store.wf(),
            same_logs(store@, old(store)@),
            forall|i: int|
                z <= i < s_mid.len() ==> #[trigger] store@.entities[i] == s_mid[i],
            forall|i: int|
                0 <= i < z ==> (#[trigger] store@.entities[i].id == s_mid[i].id
                    && store@.entities[i].parent == s_mid[i].parent),
            forall|i: int|
                0 <= i < z ==> ((#[trigger] store@.entities[i].body is Some <==> s_mid[i].body
                    is Some) && (s_mid[i].body is Some ==> store@.entities[i].body == Some(
                    BodyModel {
                        changes: 0,
                        handle: s_mid[i].body->0.handle,
                        pos: s_mid[i].body->0.pos,
                        colliders: s_mid[i].body->0.colliders,
                    },
                ))),
            forall|i: int|
                0 <= i < z ==> #[trigger] store@.entities[i].collider == (if s_mid[i].collider
                    is Some {
                    Some(
                        ColliderModel {
                            changes: 0,
                            handle: s_mid[i].collider->0.handle,
                            bf_data: s_mid[i].collider->0.bf_data,
                            pos: s_mid[i].collider->0.pos,
                            parent: s_mid[i].collider->0.parent,
                            parent_added: s_mid[i].collider->0.parent_added,
                        },
                    )
                } else {
                    None
                }),
        decreases ne - z,
    {
        let ghost pre_exec = store.entities@;
        let ghost prev_view = store@.entities;
        let rec = store.entities.remove(z);
        let EntityRecord { id, parent, body, collider } = rec;
        let body2 = match body {
            Some(b0) => Some(
                BodyState { handle: b0.handle, changes: 0, pos: b0.pos, colliders: b0.colliders },
            ),
            None => None,
        };
        let collider2 = match collider {
            Some(c0) => Some(
                ColliderState {
                    handle: c0.handle,
                    changes: 0,
                    bf_data: c0.bf_data,
                    pos: c0.pos,
                    parent: c0.parent,
                    parent_added: c0.parent_added,
                },
            ),
            None => None,
        };
        let newrec = EntityRecord { id, parent, body: body2, collider: collider2 };
        let ghost newmodel = newrec@;
        store.entities.insert(z, newrec);
        proof {
            lemma_view_seq_update(pre_exec, z as int, store.entities[z as int]);
            assert(prev_view[z as int] == s_mid[z as int]);
            assert(store@.entities =~= prev_view.update(z as int, newmodel));
            assert(newmodel.id == s_mid[z as int].id && newmodel.parent == s_mid[z as int].parent);
            assert(newmodel.body is Some <==> s_mid[z as int].body is Some);
            assert(s_mid[z as int].body is Some ==> newmodel.body == Some(
                BodyModel {
                    changes: 0,
                    handle: s_mid[z as int].body->0.handle,
                    pos: s_mid[z as int].body->0.pos,
                    colliders: s_mid[z as int].body->0.colliders,
                },
            ));
            assert(newmodel.collider == (if s_mid[z as int].collider is Some {
                Some(
                    ColliderModel {
                        changes: 0,
                        handle: s_mid[z as int].collider->0.handle,
                        bf_data: s_mid[z as int].collider->0.bf_data,
                        pos: s_mid[z as int].collider->0.pos,
                        parent: s_mid[z as int].collider->0.parent,
                        parent_added: s_mid[z as int].collider->0.parent_added,
                    },
                )
            } else {
                None
            }));
            assert forall|a: int, b: int|
                0 <= a < b < store@.entities.len() implies store@.entities[a].id
                != store@.entities[b].id by {
                assert(store@.entities[a].id == s_mid[a].id && store@.entities[b].id
                    == s_mid[b].id);
            }
            assert forall|a: int, b: int|
                0 <= a < b < store@.entities.len() && store@.entities[a].body is Some
                    && store@.entities[b].body is Some implies store@.entities[a].body->0.handle
                != store@.entities[b].body->0.handle by {
                assert(store@.entities[a].body is Some ==> store@.entities[a].body->0.handle
                    == s_mid[a].body->0.handle);
                assert(store@.entities[b].body is Some ==> store@.entities[b].body->0.handle
                    == s_mid[b].body->0.handle);
            }
            assert forall|a: int, b: int|
                0 <= a < b < store@.entities.len() && store@.entities[a].collider is Some
                    && store@.entities[b].collider is Some implies store@.entities[a].collider->0.handle
                != store@.entities[b].collider->0.handle by {
                assert(store@.entities[a].collider is Some ==> store@.entities[a].collider->0.handle
                    == s_mid[a].collider->0.handle);
                assert(store@.entities[b].collider is Some ==> store@.entities[b].collider->0.handle
                    == s_mid[b].collider->0.handle);
            }
        }
        z = z + 1;
    }
    proof {
        assert forall|i: int|
            0 <= i < s0.len() implies ((#[trigger] store@.entities[i].body is Some <==> s0[i].body
                is Some) && (s0[i].body is Some ==> store@.entities[i].body == Some(
                BodyModel {
                    changes: 0,
                    handle: s0[i].body->0.handle,
                    pos: s0[i].body->0.pos,
                    colliders: s0[i].body->0.colliders,
                },
            ))) by {
            assert(store@.entities[i].id == s_mid[i].id);
            assert(s_mid[i].id == s0[i].id);
            assert(s_mid[i].body == s0[i].body);
        }
        assert forall|i: int|
            0 <= i < s0.len() implies (#[trigger] store@.entities[i].id == s0[i].id
                && store@.entities[i].parent == s0[i].parent) by {
            assert(store@.entities[i].id == s_mid[i].id && store@.entities[i].parent
                == s_mid[i].parent);
            assert(s_mid[i].id == s0[i].id);
            assert(s_mid[i].parent == s0[i].parent);
        }
    }
    modification_tracker.clear_modified_and_removed();
    proof {
        assert forall|i: int|
            0 <= i < s0.len() implies #[trigger] store@.entities[i].collider == (if s0[i].collider
            is Some {
            if detached(t0, s0[i].collider->0.handle) {
                None
            } else {
                Some(
                    ColliderModel {
                        changes: 0,
                        handle: s0[i].collider->0.handle,
                        bf_data: s0[i].collider->0.bf_data,
                        pos: s0[i].collider->0.pos,
                        parent: s0[i].collider->0.parent,
                        parent_added: s0[i].collider->0.parent_added,
                    },
                )
            }
        } else {
            None
        }) by {
            if s0[i].collider is Some {
                if detached(t0, s0[i].collider->0.handle) {
                    assert(cleanup@.contains(s0[i].id));
                    let q = choose|q: int| 0 <= q < cleanup@.len() && cleanup@[q] == s0[i].id;
                    assert(exists|q2: int| 0 <= q2 < nc && #[trigger] cleanup@[q2] == s0[i].id);
                    assert(s_mid[i].collider is None);
                } else {
                    if exists|q: int| 0 <= q < nc && #[trigger] cleanup@[q] == s0[i].id {
                        let q = choose|q: int| 0 <= q < nc && #[trigger] cleanup@[q] == s0[i].id;
                        assert(cleanup@.contains(s0[i].id));
                        assert(cleanup_target(t0, s0, s0[i].id));
                        let i2 = choose|i2: int|
                            0 <= i2 < s0.len() && #[trigger] s0[i2].id == s0[i].id && s0[i2].collider
                                is Some && detached(t0, s0[i2].collider->0.handle);
                        assert(i2 == i);
                        assert(false);
                    }
                    assert(s_mid[i].collider == s0[i].collider);
                }
            }
        }
    }
    proof {
        assert(out_mb@ == t_after.modified_bodies);
        assert(out_mc@ == t_after.modified_colliders);
        assert(out_rc@ == t_after.removed_colliders);
        assert(out_rb@ == t_after.removed_bodies);
        assert(modification_tracker@.body_colliders == t_after.body_colliders);
        assert(modification_tracker@.colliders_parent == t_after.colliders_parent);
        assert forall|c: u64|
            #[trigger] out_rc@.contains(c) implies t0.removed_colliders.contains(c) || detached(
                t0,
                c,
            ) by {
            assert(t_after.removed_colliders.contains(c));
        }
        assert forall|c: u64|
            t0.removed_colliders.contains(c) || detached(t0, c) implies #[trigger] out_rc@.contains(
                c,
            ) by {
            assert(t_after.removed_colliders.contains(c));
        }
        assert forall|h: u64|
            t0.removed_bodies.contains(h) implies !(
            #[trigger] modification_tracker@.body_colliders.contains_key(h)) by {
            if t_after.body_colliders.contains_key(h) {
                assert(false);
            }
        }
        assert forall|h: u64|
            #[trigger] modification_tracker@.body_colliders.contains_key(h) implies
            t0.body_colliders.contains_key(h) && modification_tracker@.body_colliders[h]
            == t0.body_colliders[h] by {
            assert(t_after.body_colliders.contains_key(h));
        }
        assert forall|c: u64|
            detached(t0, c) implies !(
            #[trigger] modification_tracker@.colliders_parent.contains_key(c)) by {
            if t_after.colliders_parent.contains_key(c) {
                assert(false);
            }
        }
        assert forall|c: u64|
            #[trigger] modification_tracker@.colliders_parent.contains_key(c) implies
            t0.colliders_parent.contains_key(c) && modification_tracker@.colliders_parent[c]
            == t0.colliders_parent[c] by {
            assert(t_after.colliders_parent.contains_key(c));
        }
    }
    StepOutputs {
        modified_bodies: out_mb,
        modified_colliders: out_mc,
        removed_colliders: out_rc,
        removed_bodies: out_rb,
    }
}

} // verus!
