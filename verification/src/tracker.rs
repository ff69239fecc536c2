use vstd::prelude::*;
use std::collections::HashMap;
use crate::store::{EntityStore, EntityRecord, BodyState, ColliderState, EntityModel, BodyModel, ColliderModel, with_body, with_collider, has_body_handle, has_collider_handle, body_index_of, collider_index_of, body_handles_unique, collider_handles_unique, store_wf, lemma_body_at, lemma_collider_at, lemma_view_seq_update, MODIFIED};

verus! {

broadcast use vstd::std_specs::hash::group_hash_axioms;

/// The mathematical contents of a body-to-colliders table.
pub open spec fn bc_view(m: Map<u64, Vec<u64>>) -> Map<u64, Seq<u64>> {
    Map::new(|x: u64| m.contains_key(x), |x: u64| m[x]@)
}

/// Mathematical model of the modification tracker.
pub ghost struct TrackerModel {
    pub modified_bodies: Seq<u64>,
    pub modified_colliders: Seq<u64>,
    pub removed_bodies: Seq<u64>,
    pub removed_colliders: Seq<u64>,
    pub body_colliders: Map<u64, Seq<u64>>,
    pub colliders_parent: Map<u64, u64>,
}

/// Frame-local bookkeeping: which physics objects changed or were removed
/// since the last simulation step, plus the body-to-colliders and
/// collider-to-parent-body maps maintained across steps.
pub struct ModificationTracker {
    pub modified_bodies: Vec<u64>,
    pub modified_colliders: Vec<u64>,
    pub removed_bodies: Vec<u64>,
    pub removed_colliders: Vec<u64>,
    pub body_colliders: HashMap<u64, Vec<u64>>,
    pub colliders_parent: HashMap<u64, u64>,
}

impl View for ModificationTracker {
    type V = TrackerModel;

    open spec fn view(&self) -> TrackerModel {
        TrackerModel {
            modified_bodies: self.modified_bodies@,
            modified_colliders: self.modified_colliders@,
            removed_bodies: self.removed_bodies@,
            removed_colliders: self.removed_colliders@,
            body_colliders: bc_view(self.body_colliders@),
            colliders_parent: self.colliders_parent@,
        }
    }
}

/// No element of the sequence occurs twice.
pub open spec fn no_dups(s: Seq<u64>) -> bool {
    forall|i: int, j: int| 0 <= i < j < s.len() ==> s[i] != s[j]
}

/// How many times `x` occurs in `s`.
pub open spec fn cnt(s: Seq<u64>, x: u64) -> nat
    decreases s.len(),
{
    if s.len() == 0 {
        0
    } else {
        cnt(s.drop_last(), x) + if s.last() == x {
            1nat
        } else {
            0nat
        }
    }
}

/// `acc` extended, in order, with those of the first `n` entries of `log`
/// that are not yet present.
pub open spec fn merged_unique(acc: Seq<u64>, log: Seq<u64>, n: int) -> Seq<u64>
    decreases n,
{
    if n <= 0 {
        acc
    } else {
        let rest = merged_unique(acc, log, n - 1);
        if rest.contains(log[n - 1]) {
            rest
        } else {
            rest.push(log[n - 1])
        }
    }
}

/// Appending one element to a sequence adds exactly that element.
pub proof fn lemma_push_contains(s: Seq<u64>, v: u64, x: u64)
    ensures
        s.push(v).contains(x) <==> s.contains(x) || x == v,
{
    assert(s.push(v)[s.len() as int] == v);
    if s.contains(x) {
        let w = choose|w: int| 0 <= w < s.len() && s[w] == x;
        assert(s.push(v)[w] == x);
    }
    if s.push(v).contains(x) && x != v {
        let w = choose|w: int| 0 <= w < s.push(v).len() && s.push(v)[w] == x;
        assert(s[w] == x);
    }
}

impl ModificationTracker {
    /// An empty tracker: nothing modified, nothing removed, no attachments.
    pub fn new() -> (t: ModificationTracker)
        ensures
            t@.modified_bodies =~= Seq::<u64>::empty(),
            t@.modified_colliders =~= Seq::<u64>::empty(),
            t@.removed_bodies =~= Seq::<u64>::empty(),
            t@.removed_colliders =~= Seq::<u64>::empty(),
            t@.body_colliders =~= Map::<u64, Seq<u64>>::empty(),
            t@.colliders_parent =~= Map::<u64, u64>::empty(),
    {
        ModificationTracker {
            modified_bodies: Vec::new(),
            modified_colliders: Vec::new(),
            removed_bodies: Vec::new(),
            removed_colliders: Vec::new(),
            body_colliders: HashMap::new(),
            colliders_parent: HashMap::new(),
        }
    }

    /// Resets the four tracked delta collections to empty. The attachment
    /// maps are kept: they persist across steps. Calling this twice in a row
    /// is a no-op.
    pub fn clear_modified_and_removed(&mut self)
        ensures
            final(self)@.modified_bodies =~= Seq::<u64>::empty(),
            final(self)@.modified_colliders =~= Seq::<u64>::empty(),
            final(self)@.removed_bodies =~= Seq::<u64>::empty(),
            final(self)@.removed_colliders =~= Seq::<u64>::empty(),
            final(self)@.body_colliders == old(self)@.body_colliders,
            final(self)@.colliders_parent == old(self)@.colliders_parent,
    {
        self.modified_bodies.clear();
        self.modified_colliders.clear();
        self.removed_bodies.clear();
        self.removed_colliders.clear();
    }
}

/// Whether `x` occurs in the vector.
pub(crate) fn vec_contains(v: &Vec<u64>, x: u64) -> (b: bool)
    ensures
        b == v@.contains(x),
{
    let n = v.len();
    let mut i: usize = 0;
    while i < n
        invariant
            i <= n,
            n == v.len(),
            forall|j: int| 0 <= j < i ==> v@[j] != x,
        decreases n - i,
    {
        if v[i] == x {
            proof {
                assert(v@[i as int] == x);
            }
            return true;
        }
        i = i + 1;
    }
    proof {
        if v@.contains(x) {
            let w = choose|w: int| 0 <= w < v@.len() && v@[w] == x;
            assert(v@[w] != x);
        }
    }
    false
}

impl ModificationTracker {
    /// Consumes the store's removal signals, recording each removed body or
    /// collider handle (once) in the tracker's removed sets. The entity
    /// records themselves are untouched; only the signal is drained.
    pub fn detect_removals(&mut self, store: &mut EntityStore)
        ensures
            final(store)@.entities == old(store)@.entities,
            final(store)@.dirty_body_log == old(store)@.dirty_body_log,
            final(store)@.dirty_collider_log == old(store)@.dirty_collider_log,
            final(store)@.removed_body_log =~= Seq::<u64>::empty(),
            final(store)@.removed_collider_log =~= Seq::<u64>::empty(),
            final(self)@.removed_bodies == merged_unique(
                old(self)@.removed_bodies,
                old(store)@.removed_body_log,
                old(store)@.removed_body_log.len() as int,
            ),
            final(self)@.removed_colliders == merged_unique(
                old(self)@.removed_colliders,
                old(store)@.removed_collider_log,
                old(store)@.removed_collider_log.len() as int,
            ),
            final(self)@.modified_bodies == old(self)@.modified_bodies,
            final(self)@.modified_colliders == old(self)@.modified_colliders,
            final(self)@.body_colliders == old(self)@.body_colliders,
            final(self)@.colliders_parent == old(self)@.colliders_parent,
    {
        let nb = store.removed_body_log.len();
        let mut k: usize = 0;
        while k < nb
            invariant
                k <= nb,
                nb == store.removed_body_log.len(),
                store == old(store),
                self.removed_bodies@ == merged_unique(
                    old(self)@.removed_bodies,
                    old(store)@.removed_body_log,
                    k as int,
                ),
                self.modified_bodies == old(self).modified_bodies,
                self.modified_colliders == old(self).modified_colliders,
                self.removed_colliders == old(self).removed_colliders,
                self.body_colliders == old(self).body_colliders,
                self.colliders_parent == old(self).colliders_parent,
            decreases nb - k,
        {
            let h = store.removed_body_log[k];
            if !vec_contains(&self.removed_bodies, h) {
                self.removed_bodies.push(h);
            }
            k = k + 1;
        }
        store.removed_body_log.clear();
        let nc = store.removed_collider_log.len();
        let mut k2: usize = 0;
        while k2 < nc
            invariant
                k2 <= nc,
                nc == store.removed_collider_log.len(),
                store.entities == old(store).entities,
                store.dirty_body_log == old(store).dirty_body_log,
                store.dirty_collider_log == old(store).dirty_collider_log,
                store.removed_body_log@ =~= Seq::<u64>::empty(),
                store.removed_collider_log == old(store).removed_collider_log,
                self.removed_bodies@ == merged_unique(
                    old(self)@.removed_bodies,
                    old(store)@.removed_body_log,
                    old(store)@.removed_body_log.len() as int,
                ),
                self.removed_colliders@ == merged_unique(
                    old(self)@.removed_colliders,
                    old(store)@.removed_collider_log,
                    k2 as int,
                ),
                self.modified_bodies == old(self).modified_bodies,
                self.modified_colliders == old(self).modified_colliders,
                self.body_colliders == old(self).body_colliders,
                self.colliders_parent == old(self).colliders_parent,
            decreases nc - k2,
        {
            let h = store.removed_collider_log[k2];
            if !vec_contains(&self.removed_colliders, h) {
                self.removed_colliders.push(h);
            }
            k2 = k2 + 1;
        }
        store.removed_collider_log.clear();
    }
}


/// Setting the modified bit makes the flag read as set.
pub proof fn lemma_set_flag(x: u32)
    ensures
        (x | MODIFIED) & MODIFIED != 0,
        ((x | MODIFIED) | MODIFIED) == (x | MODIFIED),
{
    assert((x | 1u32) & 1u32 != 0) by (bit_vector);
    assert(((x | 1u32) | 1u32) == (x | 1u32)) by (bit_vector);
}

/// Whether the body with handle `h` exists and is not yet flagged modified.
pub open spec fn body_is_unflagged(s: Seq<EntityModel>, h: u64) -> bool {
    has_body_handle(s, h) && s[body_index_of(s, h)].body->0.changes & MODIFIED == 0
}

/// Whether the collider with handle `h` exists and is not yet flagged modified.
pub open spec fn collider_is_unflagged(s: Seq<EntityModel>, h: u64) -> bool {
    has_collider_handle(s, h) && s[collider_index_of(s, h)].collider->0.changes & MODIFIED == 0
}

/// The body handles newly flagged by scanning the first `n` entries of the
/// mutation signal `log` against the (pre-scan) store `s`: a handle is flagged
/// the first time it is seen, and only if its body exists and was not already
/// flagged this frame.
pub open spec fn newly_flagged_bodies(s: Seq<EntityModel>, log: Seq<u64>, n: int) -> Seq<u64>
    decreases n,
{
    if n <= 0 {
        Seq::empty()
    } else {
        let rest = newly_flagged_bodies(s, log, n - 1);
        let h = log[n - 1];
        if body_is_unflagged(s, h) && !rest.contains(h) {
            rest.push(h)
        } else {
            rest
        }
    }
}

/// The collider handles newly flagged by scanning the first `n` entries of
/// the mutation signal `log`, as `newly_flagged_bodies` for bodies.
pub open spec fn newly_flagged_colliders(s: Seq<EntityModel>, log: Seq<u64>, n: int) -> Seq<u64>
    decreases n,
{
    if n <= 0 {
        Seq::empty()
    } else {
        let rest = newly_flagged_colliders(s, log, n - 1);
        let h = log[n - 1];
        if collider_is_unflagged(s, h) && !rest.contains(h) {
            rest.push(h)
        } else {
            rest
        }
    }
}

/// The record `r` with its body flagged modified if its handle is in `nb` and
/// its collider flagged modified if its handle is in `nc`.
pub open spec fn flag_rec(r: EntityModel, nb: Seq<u64>, nc: Seq<u64>) -> EntityModel {
    let b = match r.body {
        Some(b) => if nb.contains(b.handle) {
            Some(
                BodyModel {
                    handle: b.handle,
                    changes: b.changes | MODIFIED,
                    pos: b.pos,
                    colliders: b.colliders,
                },
            )
        } else {
            Some(b)
        },
        None => None,
    };
    let c = match r.collider {
        Some(c) => if nc.contains(c.handle) {
            Some(
                ColliderModel {
                    handle: c.handle,
                    changes: c.changes | MODIFIED,
                    bf_data: c.bf_data,
                    pos: c.pos,
                    parent: c.parent,
                    parent_added: c.parent_added,
                },
            )
        } else {
            Some(c)
        },
        None => None,
    };
    EntityModel { id: r.id, parent: r.parent, body: b, collider: c }
}

/// All records of `s` with the handles in `nb` / `nc` flagged modified.
pub open spec fn flag_seq(s: Seq<EntityModel>, nb: Seq<u64>, nc: Seq<u64>) -> Seq<EntityModel> {
    s.map_values(|r: EntityModel| flag_rec(r, nb, nc))
}

/// Flagging nothing changes nothing.
pub proof fn lemma_flag_seq_empty(s: Seq<EntityModel>)
    ensures
        flag_seq(s, Seq::empty(), Seq::empty()) =~= s,
{
    assert forall|j: int| 0 <= j < s.len() implies flag_seq(s, Seq::empty(), Seq::empty())[j]
        == s[j] by {
        assert(flag_rec(s[j], Seq::empty(), Seq::empty()) == s[j]);
    }
}

/// One record of a flagged sequence.
pub proof fn lemma_flag_seq_index(s: Seq<EntityModel>, nb: Seq<u64>, nc: Seq<u64>, j: int)
    requires
        0 <= j < s.len(),
    ensures
        flag_seq(s, nb, nc)[j] == flag_rec(s[j], nb, nc),
{
}

/// Flagging one more body handle changes exactly the record carrying it.
pub proof fn lemma_flag_seq_push_body(
    s: Seq<EntityModel>,
    nb: Seq<u64>,
    nc: Seq<u64>,
    i: int,
    h: u64,
)
    requires
        body_handles_unique(s),
        0 <= i < s.len(),
        s[i].body is Some,
        s[i].body->0.handle == h,
    ensures
        flag_seq(s, nb.push(h), nc) =~= flag_seq(s, nb, nc).update(
            i,
            flag_rec(s[i], nb.push(h), nc),
        ),
{
    assert forall|j: int| 0 <= j < s.len() && j != i implies flag_rec(s[j], nb.push(h), nc)
        == flag_rec(s[j], nb, nc) by {
        if s[j].body is Some {
            assert(s[j].body->0.handle != h);
            lemma_push_contains(nb, h, s[j].body->0.handle);
        }
    }
}

/// Flagging one more collider handle changes exactly the record carrying it.
pub proof fn lemma_flag_seq_push_collider(
    s: Seq<EntityModel>,
    nb: Seq<u64>,
    nc: Seq<u64>,
    i: int,
    h: u64,
)
    requires
        collider_handles_unique(s),
        0 <= i < s.len(),
        s[i].collider is Some,
        s[i].collider->0.handle == h,
    ensures
        flag_seq(s, nb, nc.push(h)) =~= flag_seq(s, nb, nc).update(
            i,
            flag_rec(s[i], nb, nc.push(h)),
        ),
{
    assert forall|j: int| 0 <= j < s.len() && j != i implies flag_rec(s[j], nb, nc.push(h))
        == flag_rec(s[j], nb, nc) by {
        if s[j].collider is Some {
            assert(s[j].collider->0.handle != h);
            lemma_push_contains(nc, h, s[j].collider->0.handle);
        }
    }
}

/// Flagging keeps the store well formed.
pub proof fn lemma_flag_seq_wf(s: Seq<EntityModel>, nb: Seq<u64>, nc: Seq<u64>)
    requires
        store_wf(s),
    ensures
        store_wf(flag_seq(s, nb, nc)),
{
    let s2 = flag_seq(s, nb, nc);
    assert forall|j: int| 0 <= j < s.len() implies s2[j] == flag_rec(s[j], nb, nc) by {}
}

impl ModificationTracker {
    /// Consumes the store's mutation signals. Each signalled handle whose
    /// object exists and is not yet flagged modified this frame is flagged
    /// (its change word gains the modified bit) and recorded once in the
    /// tracker's modified set; a handle already flagged is not re-recorded.
    pub fn detect_modifications(&mut self, store: &mut EntityStore)
        requires
            old(store).wf(),
        ensures
            final(store).wf(),
            final(store)@.entities =~= flag_seq(
                old(store)@.entities,
                newly_flagged_bodies(
                    old(store)@.entities,
                    old(store)@.dirty_body_log,
                    old(store)@.dirty_body_log.len() as int,
                ),
                newly_flagged_colliders(
                    old(store)@.entities,
                    old(store)@.dirty_collider_log,
                    old(store)@.dirty_collider_log.len() as int,
                ),
            ),
            final(store)@.dirty_body_log =~= Seq::<u64>::empty(),
            final(store)@.dirty_collider_log =~= Seq::<u64>::empty(),
            final(store)@.removed_body_log == old(store)@.removed_body_log,
            final(store)@.removed_collider_log == old(store)@.removed_collider_log,
            final(self)@.modified_bodies == old(self)@.modified_bodies + newly_flagged_bodies(
                old(store)@.entities,
                old(store)@.dirty_body_log,
                old(store)@.dirty_body_log.len() as int,
            ),
            final(self)@.modified_colliders == old(self)@.modified_colliders
                + newly_flagged_colliders(
                old(store)@.entities,
                old(store)@.dirty_collider_log,
                old(store)@.dirty_collider_log.len() as int,
            ),
            final(self)@.removed_bodies == old(self)@.removed_bodies,
            final(self)@.removed_colliders == old(self)@.removed_colliders,
            final(self)@.body_colliders == old(self)@.body_colliders,
            final(self)@.colliders_parent == old(self)@.colliders_parent,
    {
        let ghost s0 = store@.entities;
        let ghost blog = store@.dirty_body_log;
        let ghost clog = store@.dirty_collider_log;
        let nb_len = store.dirty_body_log.len();
        let mut k: usize = 0;
        proof {
            assert(self.modified_bodies@ =~= old(self)@.modified_bodies + newly_flagged_bodies(
                s0,
                blog,
                0,
            ));
            lemma_flag_seq_empty(s0);
            assert(store@.entities =~= flag_seq(s0, newly_flagged_bodies(s0, blog, 0), Seq::empty()));
        }
        while k < nb_len
            invariant
                k <= nb_len,
                store_wf(s0),
                s0 == old(store)@.entities,
                blog == old(store)@.dirty_body_log,
                clog == old(store)@.dirty_collider_log,
                nb_len == store.dirty_body_log.len(),
                store@.dirty_body_log == blog,
                store@.entities =~= flag_seq(
                    s0,
                    newly_flagged_bodies(s0, blog, k as int),
                    Seq::empty(),
                ),
                store@.removed_body_log == old(store)@.removed_body_log,
                store@.removed_collider_log == old(store)@.removed_collider_log,
                store@.dirty_collider_log == old(store)@.dirty_collider_log,
                self.modified_bodies@ == old(self)@.modified_bodies + newly_flagged_bodies(
                    s0,
                    blog,
                    k as int,
                ),
                self.modified_colliders == old(self).modified_colliders,
                self.removed_bodies == old(self).removed_bodies,
                self.removed_colliders == old(self).removed_colliders,
                self.body_colliders == old(self).body_colliders,
                self.colliders_parent == old(self).colliders_parent,
            decreases nb_len - k,
        {
            let ghost nbk = newly_flagged_bodies(s0, blog, k as int);
            let h = store.dirty_body_log[k];
            proof {
                assert(blog[k as int] == h);
            }
            match store.find_body(h) {
                None => {
                    proof {
                        assert(store@.entities.len() == s0.len());
                        if has_body_handle(s0, h) {
                            let bi = body_index_of(s0, h);
                            assert(s0[bi].body is Some && s0[bi].body->0.handle == h);
                            lemma_flag_seq_index(s0, nbk, Seq::empty(), bi);
                            assert(store@.entities[bi].body is Some && store@.entities[bi].body->0.handle
                                == h);
                            assert(false);
                        }
                        assert(newly_flagged_bodies(s0, blog, k as int + 1) == nbk);
                    }
                },
                Some(i) => {
                    proof {
                        assert(store@.entities.len() == s0.len());
                        lemma_flag_seq_index(s0, nbk, Seq::empty(), i as int);
                        assert(store@.entities[i as int] == flag_rec(
                            s0[i as int],
                            nbk,
                            Seq::empty(),
                        ));
                        assert(s0[i as int].body is Some && s0[i as int].body->0.handle == h);
                        lemma_body_at(s0, i as int);
                    }
                    let flagged = match &store.entities[i].body {
                        Some(b) => b.changes & MODIFIED != 0,
                        None => true,
                    };
                    if !flagged {
                        proof {
                            if nbk.contains(h) {
                                lemma_set_flag(s0[i as int].body->0.changes);
                                assert(false);
                            }
                            assert(store@.entities[i as int].body->0.changes == s0[i as int].body->0.changes);
                            assert(body_is_unflagged(s0, h));
                            assert(newly_flagged_bodies(s0, blog, k as int + 1) == nbk.push(h));
                        }
                        let ghost pre_exec = store.entities@;
                        let rec = store.entities.remove(i);
                        let EntityRecord { id, parent, body, collider } = rec;
                        match body {
                            Some(b0) => {
                                let newrec = EntityRecord {
                                    id,
                                    parent,
                                    body: Some(
                                        BodyState {
                                            handle: b0.handle,
                                            changes: b0.changes | MODIFIED,
                                            pos: b0.pos,
                                            colliders: b0.colliders,
                                        },
                                    ),
                                    collider,
                                };
                                self.modified_bodies.push(h);
                                proof {
                                    lemma_push_contains(nbk, h, h);
                                }
                                let ghost newmodel = newrec@;
                                store.entities.insert(i, newrec);
                                proof {
                                    lemma_view_seq_update(pre_exec, i as int, store.entities[i as int]);
                                    assert(newmodel == flag_rec(
                                        s0[i as int],
                                        nbk.push(h),
                                        Seq::empty(),
                                    ));
                                    lemma_flag_seq_push_body(s0, nbk, Seq::empty(), i as int, h);
                                    assert(store@.entities =~= flag_seq(
                                        s0,
                                        nbk.push(h),
                                        Seq::empty(),
                                    ));
                                }
                            },
                            None => {
                                proof {
                                    assert(false);
                                }
                                store.entities.insert(
                                    i,
                                    EntityRecord { id, parent, body: None, collider },
                                );
                            },
                        }
                    } else {
                        proof {
                            if !nbk.contains(h) {
                                assert(store@.entities[i as int].body->0.changes == s0[i as int].body->0.changes);
                                assert(!body_is_unflagged(s0, h));
                            }
                            assert(newly_flagged_bodies(s0, blog, k as int + 1) == nbk);
                        }
                    }
                },
            }
            k = k + 1;
        }
        store.dirty_body_log.clear();
        let ghost nb_all = newly_flagged_bodies(s0, blog, blog.len() as int);
        let ghost mb_mid = self.modified_bodies@;
        let nc_len = store.dirty_collider_log.len();
        let mut k2: usize = 0;
        proof {
            lemma_flag_seq_wf(s0, nb_all, Seq::empty());
            assert(self.modified_colliders@ =~= old(self)@.modified_colliders
                + newly_flagged_colliders(s0, clog, 0));
            assert(store@.entities =~= flag_seq(s0, nb_all, newly_flagged_colliders(s0, clog, 0)));
        }
        while k2 < nc_len
            invariant
                k2 <= nc_len,
                store_wf(s0),
                s0 == old(store)@.entities,
                clog == old(store)@.dirty_collider_log,
                nc_len == store.dirty_collider_log.len(),
                store@.dirty_collider_log == clog,
                store@.dirty_body_log =~= Seq::<u64>::empty(),
                nb_all == newly_flagged_bodies(s0, blog, blog.len() as int),
                blog == old(store)@.dirty_body_log,
                store@.entities =~= flag_seq(
                    s0,
                    nb_all,
                    newly_flagged_colliders(s0, clog, k2 as int),
                ),
                store@.removed_body_log == old(store)@.removed_body_log,
                store@.removed_collider_log == old(store)@.removed_collider_log,
                self.modified_bodies@ == mb_mid,
                mb_mid == old(self)@.modified_bodies + nb_all,
                self.modified_colliders@ == old(self)@.modified_colliders
                    + newly_flagged_colliders(s0, clog, k2 as int),
                self.removed_bodies == old(self).removed_bodies,
                self.removed_colliders == old(self).removed_colliders,
                self.body_colliders == old(self).body_colliders,
                self.colliders_parent == old(self).colliders_parent,
            decreases nc_len - k2,
        {
            let ghost nck = newly_flagged_colliders(s0, clog, k2 as int);
            let h = store.dirty_collider_log[k2];
            proof {
                assert(clog[k2 as int] == h);
            }
            match store.find_collider(h) {
                None => {
                    proof {
                        assert(store@.entities.len() == s0.len());
                        if has_collider_handle(s0, h) {
                            let ci = collider_index_of(s0, h);
                            assert(s0[ci].collider is Some && s0[ci].collider->0.handle == h);
                            lemma_flag_seq_index(s0, nb_all, nck, ci);
                            assert(store@.entities[ci].collider is Some
                                && store@.entities[ci].collider->0.handle == h);
                            assert(false);
                        }
                        assert(newly_flagged_colliders(s0, clog, k2 as int + 1) == nck);
                    }
                },
                Some(i) => {
                    proof {
                        assert(store@.entities.len() == s0.len());
                        lemma_flag_seq_index(s0, nb_all, nck, i as int);
                        assert(store@.entities[i as int] == flag_rec(s0[i as int], nb_all, nck));
                        assert(s0[i as int].collider is Some && s0[i as int].collider->0.handle
                            == h);
                        lemma_collider_at(s0, i as int);
                    }
                    let flagged = match &store.entities[i].collider {
                        Some(c) => c.changes & MODIFIED != 0,
                        None => true,
                    };
                    if !flagged {
                        proof {
                            if nck.contains(h) {
                                lemma_set_flag(s0[i as int].collider->0.changes);
                                assert(false);
                            }
                            assert(store@.entities[i as int].collider->0.changes == s0[i as int].collider->0.changes);
                            assert(collider_is_unflagged(s0, h));
                            assert(newly_flagged_colliders(s0, clog, k2 as int + 1) == nck.push(h));
                        }
                        let ghost pre_exec = store.entities@;
                        let rec = store.entities.remove(i);
                        let EntityRecord { id, parent, body, collider } = rec;
                        match collider {
                            Some(c0) => {
                                let newrec = EntityRecord {
                                    id,
                                    parent,
                                    body,
                                    collider: Some(
                                        ColliderState {
                                            handle: c0.handle,
                                            changes: c0.changes | MODIFIED,
                                            bf_data: c0.bf_data,
                                            pos: c0.pos,
                                            parent: c0.parent,
                                            parent_added: c0.parent_added,
                                        },
                                    ),
                                };
                                self.modified_colliders.push(h);
                                proof {
                                    lemma_push_contains(nck, h, h);
                                }
                                let ghost newmodel = newrec@;
                                store.entities.insert(i, newrec);
                                proof {
                                    lemma_view_seq_update(pre_exec, i as int, store.entities[i as int]);
                                    assert(newmodel == flag_rec(s0[i as int], nb_all, nck.push(h)));
                                    lemma_flag_seq_push_collider(s0, nb_all, nck, i as int, h);
                                    assert(store@.entities =~= flag_seq(s0, nb_all, nck.push(h)));
                                }
                            },
                            None => {
                                proof {
                                    assert(false);
                                }
                                store.entities.insert(
                                    i,
                                    EntityRecord { id, parent, body, collider: None },
                                );
                            },
                        }
                    } else {
                        proof {
                            if !nck.contains(h) {
                                assert(store@.entities[i as int].collider->0.changes == s0[i as int].collider->0.changes);
                                assert(!collider_is_unflagged(s0, h));
                            }
                            assert(newly_flagged_colliders(s0, clog, k2 as int + 1) == nck);
                        }
                    }
                },
            }
            k2 = k2 + 1;
        }
        store.dirty_collider_log.clear();
        proof {
            lemma_flag_seq_wf(
                s0,
                nb_all,
                newly_flagged_colliders(s0, clog, clog.len() as int),
            );
        }
    }
}


/// Whether collider handle `c` is detached by one of the removed body
/// handles in `done`: it appears in such a body's body-to-colliders entry.
pub open spec fn detached_by(t: TrackerModel, done: Seq<u64>, c: u64) -> bool {
    exists|a: int|
        0 <= a < done.len() && t.body_colliders.contains_key(#[trigger] done[a])
            && t.body_colliders[done[a]].contains(c)
}

/// Whether collider handle `c` is detached by the full tracked removal set.
pub open spec fn detached(t: TrackerModel, c: u64) -> bool {
    detached_by(t, t.removed_bodies, c)
}

/// Whether entity `e` holds a collider that the tracked removals detach, so
/// that its collider components must be stripped from the store.
pub open spec fn cleanup_target(t: TrackerModel, s: Seq<EntityModel>, e: u64) -> bool {
    exists|i: int|
        0 <= i < s.len() && #[trigger] s[i].id == e && s[i].collider is Some && detached(
            t,
            s[i].collider->0.handle,
        )
}

/// Extending the processed removals by one body detaches exactly that body's
/// entry in addition.
pub proof fn lemma_detached_by_push(t: TrackerModel, done: Seq<u64>, h: u64, c: u64)
    ensures
        detached_by(t, done.push(h), c) <==> (detached_by(t, done, c) || (
        t.body_colliders.contains_key(h) && t.body_colliders[h].contains(c))),
{
    if detached_by(t, done.push(h), c) {
        let a = choose|a: int|
            0 <= a < done.push(h).len() && t.body_colliders.contains_key(#[trigger] done.push(h)[a])
                && t.body_colliders[done.push(h)[a]].contains(c);
        if a < done.len() {
            assert(done.push(h)[a] == done[a]);
            assert(detached_by(t, done, c));
        } else {
            assert(done.push(h)[a] == h);
        }
    }
    if detached_by(t, done, c) {
        let a = choose|a: int|
            0 <= a < done.len() && t.body_colliders.contains_key(#[trigger] done[a])
                && t.body_colliders[done[a]].contains(c);
        assert(done.push(h)[a] == done[a]);
        assert(detached_by(t, done.push(h), c));
    }
    if t.body_colliders.contains_key(h) && t.body_colliders[h].contains(c) {
        assert(done.push(h)[done.len() as int] == h);
        assert(detached_by(t, done.push(h), c));
    }
}

/// A prefix of a sequence grows by its next element.
pub proof fn lemma_subrange_push(s: Seq<u64>, k: int)
    requires
        0 <= k < s.len(),
    ensures
        s.subrange(0, k + 1) =~= s.subrange(0, k).push(s[k]),
{
}

impl ModificationTracker {
    /// Applies the tracked body removals to the attachment maps: every entry
    /// of a removed body leaves the body-to-colliders map, its colliders
    /// leave the collider-to-parent map and are recorded (once) as removed,
    /// and the entities holding those colliders are returned so the caller
    /// can strip their collider components from the store. Handles with no
    /// entry are simply nothing to do.
    pub fn propagate_removals(&mut self, store: &EntityStore) -> (cleanup: Vec<u64>)
        requires
            store.wf(),
        ensures
            final(self)@.modified_bodies == old(self)@.modified_bodies,
            final(self)@.modified_colliders == old(self)@.modified_colliders,
            final(self)@.removed_bodies == old(self)@.removed_bodies,
            forall|h: u64|
                old(self)@.removed_bodies.contains(h) ==> !(#[trigger] final(self)@.body_colliders.contains_key(h)),
            forall|h: u64|
                #[trigger] final(self)@.body_colliders.contains_key(h) ==> old(
                    self,
                )@.body_colliders.contains_key(h) && final(self)@.body_colliders[h] == old(
                    self,
                )@.body_colliders[h],
            forall|h: u64|
                #[trigger] old(self)@.body_colliders.contains_key(h) && !old(
                    self,
                )@.removed_bodies.contains(h) ==> final(self)@.body_colliders.contains_key(h),
            forall|c: u64|
                #[trigger] final(self)@.colliders_parent.contains_key(c) ==> old(
                    self,
                )@.colliders_parent.contains_key(c) && final(self)@.colliders_parent[c] == old(
                    self,
                )@.colliders_parent[c],
            forall|c: u64|
                detached(old(self)@, c) ==> !(#[trigger] final(self)@.colliders_parent.contains_key(c)),
            forall|c: u64|
                #[trigger] old(self)@.colliders_parent.contains_key(c) && !detached(old(self)@, c)
                    ==> final(self)@.colliders_parent.contains_key(c),
            forall|c: u64|
                #[trigger] old(self)@.removed_colliders.contains(c) ==> final(self)@.removed_colliders.contains(c),
            forall|c: u64|
                #[trigger] final(self)@.removed_colliders.contains(c) ==> old(
                    self,
                )@.removed_colliders.contains(c) || detached(old(self)@, c),
            forall|c: u64|
                detached(old(self)@, c) ==> #[trigger] final(self)@.removed_colliders.contains(c),
            forall|x: u64|
                #[trigger] cleanup@.contains(x) ==> cleanup_target(old(self)@, store@.entities, x),
            forall|i: int|
                0 <= i < store@.entities.len() && store@.entities[i].collider is Some && detached(
                    old(self)@,
                    store@.entities[i].collider->0.handle,
                ) ==> cleanup@.contains(store@.entities[i].id),
            no_dups(cleanup@),
    {
        let ghost t0 = old(self)@;
        let ghost s = store@.entities;
        let mut cleanup: Vec<u64> = Vec::new();
        let rb_len = self.removed_bodies.len();
        let mut k: usize = 0;
        while k < rb_len
            invariant
                k <= rb_len,
                store.wf(),
                s == store@.entities,
                rb_len == t0.removed_bodies.len(),
                self.modified_bodies@ == t0.modified_bodies,
                self.modified_colliders@ == t0.modified_colliders,
                self.removed_bodies@ == t0.removed_bodies,
                forall|h: u64|
                    t0.removed_bodies.subrange(0, k as int).contains(h) ==> !(
                    #[trigger] self@.body_colliders.contains_key(h)),
                forall|h: u64|
                    #[trigger] self@.body_colliders.contains_key(h)
                        ==> t0.body_colliders.contains_key(h) && self@.body_colliders[h]
                        == t0.body_colliders[h],
                forall|h: u64|
                    #[trigger] t0.body_colliders.contains_key(h) && !t0.removed_bodies.subrange(
                        0,
                        k as int,
                    ).contains(h) ==> self@.body_colliders.contains_key(h),
                forall|c: u64|
                    #[trigger] self@.colliders_parent.contains_key(c)
                        ==> t0.colliders_parent.contains_key(c) && self@.colliders_parent[c]
                        == t0.colliders_parent[c],
                forall|c: u64|
                    detached_by(t0, t0.removed_bodies.subrange(0, k as int), c) ==> !(
                    #[trigger] self@.colliders_parent.contains_key(c)),
                forall|c: u64|
                    #[trigger] t0.colliders_parent.contains_key(c) && !detached_by(
                        t0,
                        t0.removed_bodies.subrange(0, k as int),
                        c,
                    ) ==> self@.colliders_parent.contains_key(c),
                forall|c: u64|
                    #[trigger] t0.removed_colliders.contains(c) ==> self@.removed_colliders.contains(
                        c,
                    ),
                forall|c: u64|
                    #[trigger] self@.removed_colliders.contains(c)
                        ==> t0.removed_colliders.contains(c) || detached_by(
                        t0,
                        t0.removed_bodies.subrange(0, k as int),
                        c,
                    ),
                forall|c: u64|
                    detached_by(t0, t0.removed_bodies.subrange(0, k as int), c)
                        ==> #[trigger] self@.removed_colliders.contains(c),
                forall|x: u64|
                    #[trigger] cleanup@.contains(x) ==> exists|i: int|
                        0 <= i < s.len() && #[trigger] s[i].id == x && s[i].collider is Some
                            && detached_by(
                            t0,
                            t0.removed_bodies.subrange(0, k as int),
                            s[i].collider->0.handle,
                        ),
                forall|i: int|
                    0 <= i < s.len() && s[i].collider is Some && detached_by(
                        t0,
                        t0.removed_bodies.subrange(0, k as int),
                        #[trigger] s[i].collider->0.handle,
                    ) ==> cleanup@.contains(s[i].id),
                no_dups(cleanup@),
            decreases rb_len - k,
        {
            let ghost done = t0.removed_bodies.subrange(0, k as int);
            let h = self.removed_bodies[k];
            let ghost pre_view = self@;
            proof {
                assert(t0.removed_bodies[k as int] == h);
                lemma_subrange_push(t0.removed_bodies, k as int);
                assert(t0.removed_bodies.subrange(0, k as int + 1) == done.push(h));
            }
            let removed_entry = self.body_colliders.remove(&h);
            proof {
                assert(self@.body_colliders =~= pre_view.body_colliders.remove(h));
            }
            match removed_entry {
                None => {
                    proof {
                        assert(!pre_view.body_colliders.contains_key(h));
                        assert(self@.body_colliders =~= pre_view.body_colliders);
                        assert(self@.body_colliders == pre_view.body_colliders);
                        // this body has no entry, so nothing is newly detached,
                        // unless its handle was already processed earlier
                        assert forall|c: u64|
                            detached_by(t0, done.push(h), c) implies detached_by(t0, done, c) by {
                            lemma_detached_by_push(t0, done, h, c);
                            if t0.body_colliders.contains_key(h) && t0.body_colliders[h].contains(
                                c,
                            ) {
                                if !done.contains(h) {
                                    assert(pre_view.body_colliders.contains_key(h));
                                    assert(false);
                                }
                                let a = choose|a: int| 0 <= a < done.len() && done[a] == h;
                                assert(t0.body_colliders.contains_key(done[a])
                                    && t0.body_colliders[done[a]].contains(c));
                                assert(detached_by(t0, done, c));
                            }
                        }
                        assert forall|x: u64|
                            done.push(h).contains(x) implies !self@.body_colliders.contains_key(
                            x,
                        ) by {
                            lemma_push_contains(done, h, x);
                        }
                        assert forall|x: u64|
                            t0.body_colliders.contains_key(x) && !done.push(h).contains(x)
                                implies self@.body_colliders.contains_key(x) by {
                            lemma_push_contains(done, h, x);
                        }
                    }
                },
                Some(cs) => {
                    proof {
                        assert(pre_view.body_colliders.contains_key(h));
                        assert(pre_view.body_colliders[h] == cs@);
                        assert(t0.body_colliders.contains_key(h));
                        assert(cs@ == t0.body_colliders[h]);
                        assert(!done.contains(h));
                        assert forall|x: u64|
                            done.push(h).contains(x) implies !self@.body_colliders.contains_key(
                            x,
                        ) by {
                            lemma_push_contains(done, h, x);
                        }
                        assert forall|x: u64|
                            t0.body_colliders.contains_key(x) && !done.push(h).contains(x)
                                implies self@.body_colliders.contains_key(x) by {
                            lemma_push_contains(done, h, x);
                        }
                        assert forall|c: u64|
                            detached_by(t0, done.push(h), c) <==> (detached_by(t0, done, c)
                                || cs@.contains(c)) by {
                            lemma_detached_by_push(t0, done, h, c);
                        }
                        assert forall|x: u64|
                            #[trigger] self@.body_colliders.contains_key(x) implies
                            t0.body_colliders.contains_key(x) && self@.body_colliders[x]
                            == t0.body_colliders[x] by {
                            assert(pre_view.body_colliders.contains_key(x));
                            assert(self@.body_colliders[x] == pre_view.body_colliders[x]);
                        }
                        assert(self@.colliders_parent == pre_view.colliders_parent);
                        assert(self@.removed_colliders == pre_view.removed_colliders);
                        assert(cs@.subrange(0, 0) =~= Seq::<u64>::empty());
                        assert forall|x: u64|
                            detached_by(t0, done, x) || cs@.subrange(0, 0).contains(x) implies !(
                        #[trigger] self@.colliders_parent.contains_key(x)) by {
                            assert(!pre_view.colliders_parent.contains_key(x));
                        }
                        assert forall|x: u64|
                            #[trigger] t0.colliders_parent.contains_key(x) && !(detached_by(
                                t0,
                                done,
                                x,
                            ) || cs@.subrange(0, 0).contains(x)) implies
                            self@.colliders_parent.contains_key(x) by {
                            assert(pre_view.colliders_parent.contains_key(x));
                        }
                        assert forall|x: u64|
                            #[trigger] self@.colliders_parent.contains_key(x) implies
                            t0.colliders_parent.contains_key(x) && self@.colliders_parent[x]
                            == t0.colliders_parent[x] by {
                            assert(pre_view.colliders_parent.contains_key(x));
                        }
                        assert forall|x: u64|
                            #[trigger] self@.removed_colliders.contains(x) implies
                            t0.removed_colliders.contains(x) || detached_by(t0, done, x)
                            || cs@.subrange(0, 0).contains(x) by {
                            assert(pre_view.removed_colliders.contains(x));
                        }
                        assert forall|x: u64|
                            detached_by(t0, done, x) || cs@.subrange(0, 0).contains(x) implies
                            #[trigger] self@.removed_colliders.contains(x) by {
                            assert(pre_view.removed_colliders.contains(x));
                        }
                    }
                    let cs_len = cs.len();
                    let mut j: usize = 0;
                    while j < cs_len
                        invariant
                            j <= cs_len,
                            store.wf(),
                            s == store@.entities,
                            cs_len == cs.len(),
                            cs@ == t0.body_colliders[h],
                            t0.body_colliders.contains_key(h),
                            forall|c: u64|
                                detached_by(t0, done.push(h), c) <==> (detached_by(t0, done, c)
                                    || cs@.contains(c)),
                            self.modified_bodies@ == t0.modified_bodies,
                            self.modified_colliders@ == t0.modified_colliders,
                            self.removed_bodies@ == t0.removed_bodies,
                            forall|x: u64|
                                done.push(h).contains(x) ==> !(
                                #[trigger] self@.body_colliders.contains_key(x)),
                            forall|x: u64|
                                #[trigger] self@.body_colliders.contains_key(x)
                                    ==> t0.body_colliders.contains_key(x) && self@.body_colliders[x]
                                    == t0.body_colliders[x],
                            forall|x: u64|
                                #[trigger] t0.body_colliders.contains_key(x) && !done.push(
                                    h,
                                ).contains(x) ==> self@.body_colliders.contains_key(x),
                            forall|c: u64|
                                #[trigger] self@.colliders_parent.contains_key(c)
                                    ==> t0.colliders_parent.contains_key(c)
                                    && self@.colliders_parent[c] == t0.colliders_parent[c],
                            forall|c: u64|
                                detached_by(t0, done, c) || cs@.subrange(0, j as int).contains(c)
                                    ==> !(#[trigger] self@.colliders_parent.contains_key(c)),
                            forall|c: u64|
                                #[trigger] t0.colliders_parent.contains_key(c) && !(detached_by(
                                    t0,
                                    done,
                                    c,
                                ) || cs@.subrange(0, j as int).contains(c))
                                    ==> self@.colliders_parent.contains_key(c),
                            forall|c: u64|
                                #[trigger] t0.removed_colliders.contains(c)
                                    ==> self@.removed_colliders.contains(c),
                            forall|c: u64|
                                #[trigger] self@.removed_colliders.contains(c)
                                    ==> t0.removed_colliders.contains(c) || detached_by(t0, done, c)
                                    || cs@.subrange(0, j as int).contains(c),
                            forall|c: u64|
                                detached_by(t0, done, c) || cs@.subrange(0, j as int).contains(c)
                                    ==> #[trigger] self@.removed_colliders.contains(c),
                            forall|x: u64|
                                #[trigger] cleanup@.contains(x) ==> exists|i: int|
                                    0 <= i < s.len() && #[trigger] s[i].id == x && s[i].collider
                                        is Some && (detached_by(t0, done, s[i].collider->0.handle)
                                        || cs@.subrange(0, j as int).contains(
                                        s[i].collider->0.handle,
                                    )),
                            forall|i: int|
                                0 <= i < s.len() && s[i].collider is Some && (detached_by(
                                    t0,
                                    done,
                                    #[trigger] s[i].collider->0.handle,
                                ) || cs@.subrange(0, j as int).contains(s[i].collider->0.handle))
                                    ==> cleanup@.contains(s[i].id),
                            no_dups(cleanup@),
                        decreases cs_len - j,
                    {
                        let ghost cdone = cs@.subrange(0, j as int);
                        let c = cs[j];
                        proof {
                            assert(cs@[j as int] == c);
                            lemma_subrange_push(cs@, j as int);
                            assert(cs@.subrange(0, j as int + 1) == cdone.push(c));
                            assert forall|x: u64|
                                cdone.push(c).contains(x) implies cdone.contains(x) || x == c by {
                                lemma_push_contains(cdone, c, x);
                            }
                            assert forall|x: u64|
                                cdone.contains(x) implies cdone.push(c).contains(x) by {
                                lemma_push_contains(cdone, c, x);
                            }
                            assert(cdone.push(c).contains(c)) by {
                                lemma_push_contains(cdone, c, c);
                            }
                        }
                        let ghost cp_pre = self@.colliders_parent;
                        let ghost rc_pre = self@.removed_colliders;
                        let ghost bc_pre = self@.body_colliders;
                        self.colliders_parent.remove(&c);
                        proof {
                            assert(self@.colliders_parent =~= cp_pre.remove(c));
                            assert forall|x: u64|
                                #[trigger] self@.colliders_parent.contains_key(x) implies
                                t0.colliders_parent.contains_key(x) && self@.colliders_parent[x]
                                == t0.colliders_parent[x] by {
                                assert(cp_pre.contains_key(x));
                                assert(self@.colliders_parent[x] == cp_pre[x]);
                            }
                            assert forall|x: u64|
                                detached_by(t0, done, x) || cdone.push(c).contains(x) implies
                                !self@.colliders_parent.contains_key(x) by {
                                if x != c {
                                    if cdone.push(c).contains(x) {
                                        assert(cdone.contains(x));
                                    }
                                    assert(!cp_pre.contains_key(x));
                                }
                            }
                            assert forall|x: u64|
                                t0.colliders_parent.contains_key(x) && !(detached_by(t0, done, x)
                                    || cdone.push(c).contains(x)) implies
                                self@.colliders_parent.contains_key(x) by {
                                assert(!cdone.push(c).contains(x));
                                assert(!cdone.contains(x) && x != c);
                                assert(cp_pre.contains_key(x));
                            }
                        }
                        let already = vec_contains(&self.removed_colliders, c);
                        if !already {
                            self.removed_colliders.push(c);
                        }
                        proof {
                            if already {
                                assert(self@.removed_colliders == rc_pre);
                                assert(rc_pre.contains(c));
                            } else {
                                assert(self@.removed_colliders == rc_pre.push(c));
                            }
                            assert forall|x: u64|
                                #[trigger] self@.removed_colliders.contains(x) <==> rc_pre.contains(
                                    x,
                                ) || x == c by {
                                lemma_push_contains(rc_pre, c, x);
                            }
                            assert(self@.removed_colliders.contains(c));
                            assert forall|x: u64|
                                t0.removed_colliders.contains(x) implies
                                self@.removed_colliders.contains(x) by {
                                assert(rc_pre.contains(x));
                            }
                            assert forall|x: u64|
                                #[trigger] self@.removed_colliders.contains(x) implies
                                t0.removed_colliders.contains(x) || detached_by(t0, done, x)
                                || cdone.push(c).contains(x) by {
                                if x != c {
                                    assert(rc_pre.contains(x));
                                    assert(t0.removed_colliders.contains(x) || detached_by(
                                        t0,
                                        done,
                                        x,
                                    ) || cs@.subrange(0, j as int).contains(x));
                                    if !t0.removed_colliders.contains(x) && !detached_by(
                                        t0,
                                        done,
                                        x,
                                    ) {
                                        assert(cs@.subrange(0, j as int) == cdone);
                                        assert(cdone.contains(x));
                                        lemma_push_contains(cdone, c, x);
                                    }
                                }
                            }
                            assert forall|x: u64|
                                detached_by(t0, done, x) || cdone.push(c).contains(x) implies
                                self@.removed_colliders.contains(x) by {
                                if x != c {
                                    if cdone.push(c).contains(x) {
                                        lemma_push_contains(cdone, c, x);
                                        assert(cdone.contains(x));
                                        assert(cs@.subrange(0, j as int).contains(x));
                                    }
                                    assert(detached_by(t0, done, x) || cs@.subrange(
                                        0,
                                        j as int,
                                    ).contains(x));
                                    assert(rc_pre.contains(x));
                                }
                            }
                        }
                        match store.find_collider(c) {
                            None => {
                                proof {
                                    assert forall|i: int|
                                        0 <= i < s.len() && s[i].collider is Some && (detached_by(
                                            t0,
                                            done,
                                            #[trigger] s[i].collider->0.handle,
                                        ) || cdone.push(c).contains(s[i].collider->0.handle))
                                            implies cleanup@.contains(s[i].id) by {
                                        if s[i].collider->0.handle == c {
                                            assert(has_collider_handle(s, c));
                                            assert(false);
                                        }
                                        if cdone.push(c).contains(s[i].collider->0.handle) {
                                            lemma_push_contains(
                                                cdone,
                                                c,
                                                s[i].collider->0.handle,
                                            );
                                        }
                                    }
                                    assert forall|x: u64|
                                        #[trigger] cleanup@.contains(x) implies exists|i: int|
                                            0 <= i < s.len() && #[trigger] s[i].id == x
                                                && s[i].collider is Some && (detached_by(
                                                t0,
                                                done,
                                                s[i].collider->0.handle,
                                            ) || cdone.push(c).contains(
                                                s[i].collider->0.handle,
                                            )) by {
                                        let i = choose|i: int|
                                            0 <= i < s.len() && #[trigger] s[i].id == x
                                                && s[i].collider is Some && (detached_by(
                                                t0,
                                                done,
                                                s[i].collider->0.handle,
                                            ) || cs@.subrange(0, j as int).contains(
                                                s[i].collider->0.handle,
                                            ));
                                        if cs@.subrange(0, j as int).contains(
                                            s[i].collider->0.handle,
                                        ) {
                                            lemma_push_contains(
                                                cdone,
                                                c,
                                                s[i].collider->0.handle,
                                            );
                                        }
                                        assert(0 <= i < s.len() && s[i].id == x && s[i].collider
                                            is Some && (detached_by(
                                            t0,
                                            done,
                                            s[i].collider->0.handle,
                                        ) || cdone.push(c).contains(s[i].collider->0.handle)));
                                    }
                                }
                            },
                            Some(ei) => {
                                let e_id = store.entities[ei].id;
                                proof {
                                    assert(s[ei as int].id == e_id);
                                    assert(s[ei as int].collider is Some
                                        && s[ei as int].collider->0.handle == c);
                                    lemma_collider_at(s, ei as int);
                                }
                                let ghost cl_pre = cleanup@;
                                let in_cleanup = vec_contains(&cleanup, e_id);
                                if !in_cleanup {
                                    cleanup.push(e_id);
                                    proof {
                                        assert forall|a: int, b: int|
                                            0 <= a < b < cleanup@.len() implies cleanup@[a]
                                            != cleanup@[b] by {
                                            if b == cleanup@.len() - 1 {
                                                if cl_pre[a] == e_id {
                                                    assert(cl_pre.contains(e_id));
                                                }
                                            }
                                        }
                                    }
                                }
                                proof {
                                    assert forall|x: u64|
                                        #[trigger] cleanup@.contains(x) <==> cl_pre.contains(x)
                                            || x == e_id by {
                                        lemma_push_contains(cl_pre, e_id, x);
                                    }
                                    assert(cleanup@.contains(e_id));
                                    assert forall|x: u64|
                                        #[trigger] cleanup@.contains(x) implies exists|i: int|
                                            0 <= i < s.len() && #[trigger] s[i].id == x
                                                && s[i].collider is Some && (detached_by(
                                                t0,
                                                done,
                                                s[i].collider->0.handle,
                                            ) || cdone.push(c).contains(
                                                s[i].collider->0.handle,
                                            )) by {
                                        if x == e_id {
                                            lemma_push_contains(cdone, c, c);
                                            assert(0 <= (ei as int) < s.len() && s[ei as int].id
                                                == x && s[ei as int].collider is Some
                                                && cdone.push(c).contains(
                                                s[ei as int].collider->0.handle,
                                            ));
                                        } else {
                                            let i = choose|i: int|
                                                0 <= i < s.len() && #[trigger] s[i].id == x
                                                    && s[i].collider is Some && (detached_by(
                                                    t0,
                                                    done,
                                                    s[i].collider->0.handle,
                                                ) || cs@.subrange(0, j as int).contains(
                                                    s[i].collider->0.handle,
                                                ));
                                            if cs@.subrange(0, j as int).contains(
                                                s[i].collider->0.handle,
                                            ) {
                                                lemma_push_contains(
                                                    cdone,
                                                    c,
                                                    s[i].collider->0.handle,
                                                );
                                            }
                                            assert(0 <= i < s.len() && s[i].id == x
                                                && s[i].collider is Some && (detached_by(
                                                t0,
                                                done,
                                                s[i].collider->0.handle,
                                            ) || cdone.push(c).contains(
                                                s[i].collider->0.handle,
                                            )));
                                        }
                                    }
                                    assert forall|i: int|
                                        0 <= i < s.len() && s[i].collider is Some && (detached_by(
                                            t0,
                                            done,
                                            #[trigger] s[i].collider->0.handle,
                                        ) || cdone.push(c).contains(s[i].collider->0.handle))
                                            implies cleanup@.contains(s[i].id) by {
                                        if s[i].collider->0.handle == c {
                                            assert(i == ei as int);
                                        }
                                    }
                                }
                            },
                        }
                        proof {
                            assert(self@.body_colliders == bc_pre);
                            assert forall|x: u64|
                                #[trigger] self@.body_colliders.contains_key(x) implies
                                t0.body_colliders.contains_key(x) && self@.body_colliders[x]
                                == t0.body_colliders[x] by {
                                assert(bc_pre.contains_key(x));
                            }
                            assert forall|x: u64|
                                done.push(h).contains(x) implies !(
                            #[trigger] self@.body_colliders.contains_key(x)) by {
                                assert(!bc_pre.contains_key(x));
                            }
                            assert forall|x: u64|
                                #[trigger] t0.body_colliders.contains_key(x) && !done.push(
                                    h,
                                ).contains(x) implies self@.body_colliders.contains_key(x) by {
                                assert(bc_pre.contains_key(x));
                            }
                        }
                        j = j + 1;
                    }
                    proof {
                        assert(cs@.subrange(0, cs_len as int) == cs@);
                    }
                },
            }
            k = k + 1;
        }
        proof {
            assert(t0.removed_bodies.subrange(0, rb_len as int) == t0.removed_bodies);
        }
        cleanup
    }
}

} // verus!
