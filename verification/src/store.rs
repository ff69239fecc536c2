use vstd::prelude::*;

verus! {

/// Bit recording that a physics object was already flagged as modified during
/// the current frame; used to avoid reporting the same object twice.
pub const MODIFIED: u32 = 1;

/// A positional offset or placement, stored as plain integer coordinates
/// (callers may pack whatever fixed-point encoding they use into these).
#[derive(Clone, Copy, PartialEq, Eq, Structural, Debug)]
pub struct LocalPos {
    pub x: i64,
    pub y: i64,
    pub angle: i64,
}

impl LocalPos {
    /// The origin placement with no rotation.
    pub fn origin() -> (p: LocalPos)
        ensures
            p.x == 0 && p.y == 0 && p.angle == 0,
    {
        LocalPos { x: 0, y: 0, angle: 0 }
    }
}

/// The attachment relation of a collider: the engine handle of the body it is
/// attached to, and the collider's position expressed relative to that body.
#[derive(Clone, Copy, PartialEq, Eq, Structural, Debug)]
pub struct ColliderParent {
    pub handle: u64,
    pub pos_wrt_parent: LocalPos,
}

/// The store-side mirror of a rigid body: its engine handle, its change flags,
/// its placement, and the engine-side list of collider handles attached to it.
pub struct BodyState {
    pub handle: u64,
    pub changes: u32,
    pub pos: LocalPos,
    pub colliders: Vec<u64>,
}

/// The store-side mirror of a collider: its engine handle, its change flags,
/// its broad-phase bookkeeping word, its local placement, and its attachment
/// relation once the attachment system has established one.
pub struct ColliderState {
    pub handle: u64,
    pub changes: u32,
    pub bf_data: u32,
    pub pos: LocalPos,
    pub parent: Option<ColliderParent>,
    pub parent_added: bool,
}

/// One logical entity: its identifier, an optional single parent entity, and
/// its optional body and collider components.
pub struct EntityRecord {
    pub id: u64,
    pub parent: Option<u64>,
    pub body: Option<BodyState>,
    pub collider: Option<ColliderState>,
}

/// The entity store: all entity records, plus the change signals ("what was
/// removed or mutated since the last look") that the modification tracker
/// consumes once per frame.
pub struct EntityStore {
    pub entities: Vec<EntityRecord>,
    pub removed_body_log: Vec<u64>,
    pub removed_collider_log: Vec<u64>,
    pub dirty_body_log: Vec<u64>,
    pub dirty_collider_log: Vec<u64>,
}

/// Mathematical model of a body.
pub ghost struct BodyModel {
    pub handle: u64,
    pub changes: u32,
    pub pos: LocalPos,
    pub colliders: Seq<u64>,
}

/// Mathematical model of a collider.
pub ghost struct ColliderModel {
    pub handle: u64,
    pub changes: u32,
    pub bf_data: u32,
    pub pos: LocalPos,
    pub parent: Option<ColliderParent>,
    pub parent_added: bool,
}

/// Mathematical model of an entity record.
pub ghost struct EntityModel {
    pub id: u64,
    pub parent: Option<u64>,
    pub body: Option<BodyModel>,
    pub collider: Option<ColliderModel>,
}

/// Mathematical model of the whole store.
pub ghost struct StoreModel {
    pub entities: Seq<EntityModel>,
    pub removed_body_log: Seq<u64>,
    pub removed_collider_log: Seq<u64>,
    pub dirty_body_log: Seq<u64>,
    pub dirty_collider_log: Seq<u64>,
}

impl View for BodyState {
    type V = BodyModel;

    open spec fn view(&self) -> BodyModel {
        BodyModel {
            handle: self.handle,
            changes: self.changes,
            pos: self.pos,
            colliders: self.colliders@,
        }
    }
}

impl View for ColliderState {
    type V = ColliderModel;

    open spec fn view(&self) -> ColliderModel {
        ColliderModel {
            handle: self.handle,
            changes: self.changes,
            bf_data: self.bf_data,
            pos: self.pos,
            parent: self.parent,
            parent_added: self.parent_added,
        }
    }
}

impl View for EntityRecord {
    type V = EntityModel;

    open spec fn view(&self) -> EntityModel {
        EntityModel {
            id: self.id,
            parent: self.parent,
            body: match self.body {
                Option::Some(b) => Option::Some(b@),
                Option::None => Option::None,
            },
            collider: match self.collider {
                Option::Some(c) => Option::Some(c@),
                Option::None => Option::None,
            },
        }
    }
}

/// The model of a sequence of entity records.
pub open spec fn view_seq(s: Seq<EntityRecord>) -> Seq<EntityModel> {
    s.map_values(|r: EntityRecord| r@)
}

impl View for EntityStore {
    type V = StoreModel;

    open spec fn view(&self) -> StoreModel {
        StoreModel {
            entities: view_seq(self.entities@),
            removed_body_log: self.removed_body_log@,
            removed_collider_log: self.removed_collider_log@,
            dirty_body_log: self.dirty_body_log@,
            dirty_collider_log: self.dirty_collider_log@,
        }
    }
}

/// Whether an entity with the given identifier is present.
pub open spec fn has_entity(s: Seq<EntityModel>, id: u64) -> bool {
    exists|i: int| 0 <= i < s.len() && s[i].id == id
}

/// The position of the entity with the given identifier.
pub open spec fn index_of(s: Seq<EntityModel>, id: u64) -> int {
    choose|i: int| 0 <= i < s.len() && s[i].id == id
}

/// The entity record with the given identifier.
pub open spec fn ent(s: Seq<EntityModel>, id: u64) -> EntityModel {
    s[index_of(s, id)]
}

/// Whether some entity carries a body with the given engine handle.
pub open spec fn has_body_handle(s: Seq<EntityModel>, h: u64) -> bool {
    exists|i: int| 0 <= i < s.len() && #[trigger] s[i].body is Some && s[i].body->0.handle == h
}

/// The position of the entity carrying the body with the given engine handle.
pub open spec fn body_index_of(s: Seq<EntityModel>, h: u64) -> int {
    choose|i: int| 0 <= i < s.len() && #[trigger] s[i].body is Some && s[i].body->0.handle == h
}

/// Whether some entity carries a collider with the given engine handle.
pub open spec fn has_collider_handle(s: Seq<EntityModel>, h: u64) -> bool {
    exists|i: int| 0 <= i < s.len() && #[trigger] s[i].collider is Some && s[i].collider->0.handle == h
}

/// The position of the entity carrying the collider with the given handle.
pub open spec fn collider_index_of(s: Seq<EntityModel>, h: u64) -> int {
    choose|i: int| 0 <= i < s.len() && #[trigger] s[i].collider is Some && s[i].collider->0.handle == h
}

/// Entity identifiers are pairwise distinct.
pub open spec fn ids_unique(s: Seq<EntityModel>) -> bool {
    forall|i: int, j: int| 0 <= i < j < s.len() ==> s[i].id != s[j].id
}

/// Body handles are pairwise distinct.
pub open spec fn body_handles_unique(s: Seq<EntityModel>) -> bool {
    forall|i: int, j: int|
        0 <= i < j < s.len() && s[i].body is Some && s[j].body is Some
            ==> s[i].body->0.handle != s[j].body->0.handle
}

/// Collider handles are pairwise distinct.
pub open spec fn collider_handles_unique(s: Seq<EntityModel>) -> bool {
    forall|i: int, j: int|
        0 <= i < j < s.len() && s[i].collider is Some && s[j].collider is Some
            ==> s[i].collider->0.handle != s[j].collider->0.handle
}

/// Well-formedness of the store: all identifiers and handles are distinct.
pub open spec fn store_wf(s: Seq<EntityModel>) -> bool {
    &&& ids_unique(s)
    &&& body_handles_unique(s)
    &&& collider_handles_unique(s)
}

/// With distinct identifiers, any position holding `id` is the chosen one.
pub proof fn lemma_ent_at(s: Seq<EntityModel>, i: int)
    requires
        ids_unique(s),
        0 <= i < s.len(),
    ensures
        index_of(s, s[i].id) == i,
        ent(s, s[i].id) == s[i],
        has_entity(s, s[i].id),
{
    assert(has_entity(s, s[i].id));
    let j = index_of(s, s[i].id);
    assert(0 <= j < s.len() && s[j].id == s[i].id);
    if i != j {
        assert(false);
    }
}

/// With distinct body handles, any position holding handle `h` is the chosen one.
pub proof fn lemma_body_at(s: Seq<EntityModel>, i: int)
    requires
        body_handles_unique(s),
        0 <= i < s.len(),
        s[i].body is Some,
    ensures
        body_index_of(s, s[i].body->0.handle) == i,
        has_body_handle(s, s[i].body->0.handle),
{
    let h = s[i].body->0.handle;
    assert(has_body_handle(s, h));
    let j = body_index_of(s, h);
    assert(0 <= j < s.len() && s[j].body is Some && s[j].body->0.handle == h);
    if i != j {
        assert(false);
    }
}

/// With distinct collider handles, any position holding handle `h` is the chosen one.
pub proof fn lemma_collider_at(s: Seq<EntityModel>, i: int)
    requires
        collider_handles_unique(s),
        0 <= i < s.len(),
        s[i].collider is Some,
    ensures
        collider_index_of(s, s[i].collider->0.handle) == i,
        has_collider_handle(s, s[i].collider->0.handle),
{
    let h = s[i].collider->0.handle;
    assert(has_collider_handle(s, h));
    let j = collider_index_of(s, h);
    assert(0 <= j < s.len() && s[j].collider is Some && s[j].collider->0.handle == h);
    if i != j {
        assert(false);
    }
}

impl EntityStore {
    /// Well-formedness: all identifiers and handles are distinct.
    pub open spec fn wf(&self) -> bool {
        store_wf(self@.entities)
    }

    /// An empty store.
    pub fn new() -> (s: EntityStore)
        ensures
            s@.entities =~= Seq::<EntityModel>::empty(),
            s@.removed_body_log =~= Seq::<u64>::empty(),
            s@.removed_collider_log =~= Seq::<u64>::empty(),
            s@.dirty_body_log =~= Seq::<u64>::empty(),
            s@.dirty_collider_log =~= Seq::<u64>::empty(),
            s.wf(),
    {
        EntityStore {
            entities: Vec::new(),
            removed_body_log: Vec::new(),
            removed_collider_log: Vec::new(),
            dirty_body_log: Vec::new(),
            dirty_collider_log: Vec::new(),
        }
    }

    /// The position of the entity with the given identifier, if any.
    pub(crate) fn find(&self, id: u64) -> (r: Option<usize>)
        ensures
            match r {
                Some(i) => i < self.entities.len() && self@.entities[i as int].id == id,
                None => !has_entity(self@.entities, id),
            },
    {
        let n = self.entities.len();
        let mut i: usize = 0;
        while i < n
            invariant
                i <= n,
                n == self.entities.len(),
                forall|j: int| 0 <= j < i ==> self@.entities[j].id != id,
            decreases n - i,
        {
            if self.entities[i].id == id {
                return Some(i);
            }
            i = i + 1;
        }
        None
    }

    /// The position of the entity carrying the body with the given handle, if any.
    pub(crate) fn find_body(&self, h: u64) -> (r: Option<usize>)
        ensures
            match r {
                Some(i) => i < self.entities.len() && (self@.entities[i as int].body
                    matches Some(b) && b.handle == h),
                None => !has_body_handle(self@.entities, h),
            },
    {
        let n = self.entities.len();
        let mut i: usize = 0;
        while i < n
            invariant
                i <= n,
                n == self.entities.len(),
                forall|j: int|
                    0 <= j < i ==> !(#[trigger] self@.entities[j].body is Some
                        && self@.entities[j].body->0.handle == h),
            decreases n - i,
        {
            match &self.entities[i].body {
                Some(b) => {
                    if b.handle == h {
                        return Some(i);
                    }
                },
                None => {},
            }
            i = i + 1;
        }
        None
    }

    /// The position of the entity carrying the collider with the given handle, if any.
    pub(crate) fn find_collider(&self, h: u64) -> (r: Option<usize>)
        ensures
            match r {
                Some(i) => i < self.entities.len() && (self@.entities[i as int].collider
                    matches Some(c) && c.handle == h),
                None => !has_collider_handle(self@.entities, h),
            },
    {
        let n = self.entities.len();
        let mut i: usize = 0;
        while i < n
            invariant
                i <= n,
                n == self.entities.len(),
                forall|j: int|
                    0 <= j < i ==> !(#[trigger] self@.entities[j].collider is Some
                        && self@.entities[j].collider->0.handle == h),
            decreases n - i,
        {
            match &self.entities[i].collider {
                Some(c) => {
                    if c.handle == h {
                        return Some(i);
                    }
                },
                None => {},
            }
            i = i + 1;
        }
        None
    }
}


/// The record `e` with its parent link replaced.
pub open spec fn with_parent(e: EntityModel, parent: Option<u64>) -> EntityModel {
    EntityModel { id: e.id, parent: parent, body: e.body, collider: e.collider }
}

/// The record `e` with its body component replaced.
pub open spec fn with_body(e: EntityModel, body: Option<BodyModel>) -> EntityModel {
    EntityModel { id: e.id, parent: e.parent, body: body, collider: e.collider }
}

/// The record `e` with its collider component replaced.
pub open spec fn with_collider(e: EntityModel, collider: Option<ColliderModel>) -> EntityModel {
    EntityModel { id: e.id, parent: e.parent, body: e.body, collider: collider }
}

/// The change signals of the two models are the same.
pub open spec fn same_logs(a: StoreModel, b: StoreModel) -> bool {
    &&& a.removed_body_log == b.removed_body_log
    &&& a.removed_collider_log == b.removed_collider_log
    &&& a.dirty_body_log == b.dirty_body_log
    &&& a.dirty_collider_log == b.dirty_collider_log
}

/// Removing a record and inserting a replacement at the same position models
/// as a pointwise update of the record sequence.
pub proof fn lemma_view_seq_update(s: Seq<EntityRecord>, i: int, r: EntityRecord)
    requires
        0 <= i < s.len(),
    ensures
        view_seq(s.remove(i).insert(i, r)) =~= view_seq(s).update(i, r@),
{
    let lhs = view_seq(s.remove(i).insert(i, r));
    let rhs = view_seq(s).update(i, r@);
    assert(s.remove(i).insert(i, r).len() == s.len());
    assert forall|j: int| 0 <= j < s.len() implies lhs[j] == rhs[j] by {
        if j < i {
            assert(s.remove(i).insert(i, r)[j] == s[j]);
        } else if j == i {
            assert(s.remove(i).insert(i, r)[j] == r);
        } else {
            assert(s.remove(i)[j - 1] == s[j]);
            assert(s.remove(i).insert(i, r)[j] == s.remove(i)[j - 1]);
        }
    }
}

/// Appending a record models as appending its view.
pub proof fn lemma_view_seq_push(s: Seq<EntityRecord>, r: EntityRecord)
    ensures
        view_seq(s.push(r)) =~= view_seq(s).push(r@),
{
}

/// Updating one record preserves well-formedness as long as the identifier is
/// kept and any handle introduced is either the one already there or fresh.
pub proof fn lemma_wf_update(s: Seq<EntityModel>, i: int, e: EntityModel)
    requires
        store_wf(s),
        0 <= i < s.len(),
        e.id == s[i].id,
        e.body is Some ==> (s[i].body is Some && e.body->0.handle == s[i].body->0.handle)
            || !has_body_handle(s, e.body->0.handle),
        e.collider is Some ==> (s[i].collider is Some && e.collider->0.handle
            == s[i].collider->0.handle) || !has_collider_handle(s, e.collider->0.handle),
    ensures
        store_wf(s.update(i, e)),
{
    let s2 = s.update(i, e);
    assert forall|a: int, b: int|
        0 <= a < b < s2.len() && s2[a].body is Some && s2[b].body is Some implies s2[a].body->0.handle
        != s2[b].body->0.handle by {
        if a != i && b != i {
        } else {
            let o = if a == i { b } else { a };
            assert(s2[o] == s[o]);
            if s[i].body is Some && e.body->0.handle == s[i].body->0.handle {
            } else {
                if s[o].body is Some && s[o].body->0.handle == e.body->0.handle {
                    assert(has_body_handle(s, e.body->0.handle));
                }
            }
        }
    }
    assert forall|a: int, b: int|
        0 <= a < b < s2.len() && s2[a].collider is Some && s2[b].collider is Some implies s2[a]
        .collider->0.handle != s2[b].collider->0.handle by {
        if a != i && b != i {
        } else {
            let o = if a == i { b } else { a };
            assert(s2[o] == s[o]);
            if s[i].collider is Some && e.collider->0.handle == s[i].collider->0.handle {
            } else {
                if s[o].collider is Some && s[o].collider->0.handle == e.collider->0.handle {
                    assert(has_collider_handle(s, e.collider->0.handle));
                }
            }
        }
    }
}

impl EntityStore {
    /// Creates a new entity with the given identifier and optional parent.
    /// Fails (returning false, with no change) if the identifier is taken.
    pub fn spawn(&mut self, id: u64, parent: Option<u64>) -> (ok: bool)
        requires
            old(self).wf(),
        ensures
            final(self).wf(),
            ok == !has_entity(old(self)@.entities, id),
            ok ==> final(self)@.entities =~= old(self)@.entities.push(
                EntityModel { id, parent, body: None, collider: None },
            ),
            !ok ==> final(self)@.entities == old(self)@.entities,
            same_logs(final(self)@, old(self)@),
    {
        match self.find(id) {
            Some(i) => {
                proof {
                    assert(has_entity(self@.entities, id));
                }
                false
            },
            None => {
                let ghost s0 = self@.entities;
                self.entities.push(EntityRecord { id, parent, body: None, collider: None });
                proof {
                    lemma_view_seq_push(
                        old(self).entities@,
                        EntityRecord { id, parent, body: None, collider: None },
                    );
                    let s2 = self@.entities;
                    assert forall|a: int, b: int| 0 <= a < b < s2.len() implies s2[a].id != s2[b].id by {
                        if b == s2.len() - 1 {
                            assert(s2[a] == s0[a]);
                        }
                    }
                }
                true
            },
        }
    }

    /// Replaces the parent link of the given entity.
    /// Fails (returning false, with no change) if the entity does not exist.
    pub fn set_parent(&mut self, id: u64, parent: Option<u64>) -> (ok: bool)
        requires
            old(self).wf(),
        ensures
            final(self).wf(),
            ok == has_entity(old(self)@.entities, id),
            ok ==> final(self)@.entities =~= old(self)@.entities.update(
                index_of(old(self)@.entities, id),
                with_parent(ent(old(self)@.entities, id), parent),
            ),
            !ok ==> final(self)@.entities == old(self)@.entities,
            same_logs(final(self)@, old(self)@),
    {
        match self.find(id) {
            None => false,
            Some(i) => {
                let ghost s0 = self@.entities;
                proof {
                    lemma_ent_at(s0, i as int);
                }
                let mut rec = self.entities.remove(i);
                rec.parent = parent;
                self.entities.insert(i, rec);
                proof {
                    lemma_view_seq_update(old(self).entities@, i as int, self.entities@[i as int]);
                    lemma_wf_update(s0, i as int, self@.entities[i as int]);
                }
                true
            },
        }
    }

    /// Gives the entity a body component with the given engine handle and
    /// placement, fresh change flags and no attached colliders. Fails
    /// (returning false, with no change) if the entity does not exist, already
    /// has a body, or the handle is already in use.
    pub fn insert_body(&mut self, id: u64, handle: u64, pos: LocalPos) -> (ok: bool)
        requires
            old(self).wf(),
        ensures
            final(self).wf(),
            ok == (has_entity(old(self)@.entities, id) && ent(old(self)@.entities, id).body is None
                && !has_body_handle(old(self)@.entities, handle)),
            ok ==> final(self)@.entities =~= old(self)@.entities.update(
                index_of(old(self)@.entities, id),
                with_body(
                    ent(old(self)@.entities, id),
                    Some(BodyModel { handle, changes: 0, pos, colliders: Seq::empty() }),
                ),
            ),
            !ok ==> final(self)@.entities == old(self)@.entities,
            same_logs(final(self)@, old(self)@),
    {
        let ghost s0 = self@.entities;
        match self.find(id) {
            None => false,
            Some(i) => {
                proof {
                    lemma_ent_at(s0, i as int);
                }
                if self.entities[i].body.is_some() {
                    return false;
                }
                match self.find_body(handle) {
                    Some(_) => false,
                    None => {
                        let mut rec = self.entities.remove(i);
                        rec.body = Some(
                            BodyState { handle, changes: 0, pos, colliders: Vec::new() },
                        );
                        self.entities.insert(i, rec);
                        proof {
                            lemma_view_seq_update(
                                old(self).entities@,
                                i as int,
                                self.entities@[i as int],
                            );
                            lemma_wf_update(s0, i as int, self@.entities[i as int]);
                        }
                        true
                    },
                }
            },
        }
    }

    /// Gives the entity a collider component with the given engine handle and
    /// local placement, fresh change flags, fresh broad-phase state and no
    /// attachment relation. Fails (returning false, with no change) if the
    /// entity does not exist, already has a collider, or the handle is in use.
    pub fn insert_collider(&mut self, id: u64, handle: u64, pos: LocalPos) -> (ok: bool)
        requires
            old(self).wf(),
        ensures
            final(self).wf(),
            ok == (has_entity(old(self)@.entities, id) && ent(old(self)@.entities, id).collider
                is None && !has_collider_handle(old(self)@.entities, handle)),
            ok ==> final(self)@.entities =~= old(self)@.entities.update(
                index_of(old(self)@.entities, id),
                with_collider(
                    ent(old(self)@.entities, id),
                    Some(
                        ColliderModel {
                            handle,
                            changes: 0,
                            bf_data: 0,
                            pos,
                            parent: None,
                            parent_added: false,
                        },
                    ),
                ),
            ),
            !ok ==> final(self)@.entities == old(self)@.entities,
            same_logs(final(self)@, old(self)@),
    {
        let ghost s0 = self@.entities;
        match self.find(id) {
            None => false,
            Some(i) => {
                proof {
                    lemma_ent_at(s0, i as int);
                }
                if self.entities[i].collider.is_some() {
                    return false;
                }
                match self.find_collider(handle) {
                    Some(_) => false,
                    None => {
                        let mut rec = self.entities.remove(i);
                        rec.collider = Some(
                            ColliderState {
                                handle,
                                changes: 0,
                                bf_data: 0,
                                pos,
                                parent: None,
                                parent_added: false,
                            },
                        );
                        self.entities.insert(i, rec);
                        proof {
                            lemma_view_seq_update(
                                old(self).entities@,
                                i as int,
                                self.entities@[i as int],
                            );
                            lemma_wf_update(s0, i as int, self@.entities[i as int]);
                        }
                        true
                    },
                }
            },
        }
    }

    /// Removes the entity's body component and records the removal in the
    /// store's change signal. Fails (returning false, with no change) if the
    /// entity does not exist or has no body.
    pub fn remove_body(&mut self, id: u64) -> (ok: bool)
        requires
            old(self).wf(),
        ensures
            final(self).wf(),
            ok == (has_entity(old(self)@.entities, id) && ent(old(self)@.entities, id).body
                is Some),
            ok ==> final(self)@.entities =~= old(self)@.entities.update(
                index_of(old(self)@.entities, id),
                with_body(ent(old(self)@.entities, id), None),
            ),
            ok ==> final(self)@.removed_body_log == old(self)@.removed_body_log.push(
                ent(old(self)@.entities, id).body->0.handle,
            ),
            !ok ==> final(self)@.entities == old(self)@.entities && final(self)@.removed_body_log == old(
                self,
            )@.removed_body_log,
            final(self)@.removed_collider_log == old(self)@.removed_collider_log,
            final(self)@.dirty_body_log == old(self)@.dirty_body_log,
            final(self)@.dirty_collider_log == old(self)@.dirty_collider_log,
    {
        let ghost s0 = self@.entities;
        match self.find(id) {
            None => false,
            Some(i) => {
                proof {
                    lemma_ent_at(s0, i as int);
                }
                let mut rec = self.entities.remove(i);
                match rec.body {
                    None => {
                        self.entities.insert(i, rec);
                        proof {
                            assert(self.entities@ =~= old(self).entities@);
                        }
                        false
                    },
                    Some(b) => {
                        self.removed_body_log.push(b.handle);
                        rec.body = None;
                        self.entities.insert(i, rec);
                        proof {
                            lemma_view_seq_update(
                                old(self).entities@,
                                i as int,
                                self.entities@[i as int],
                            );
                            lemma_wf_update(s0, i as int, self@.entities[i as int]);
                        }
                        true
                    },
                }
            },
        }
    }

    /// Removes the entity's collider component (with any attachment relation
    /// it holds) and records the removal in the store's change signal. Fails
    /// (returning false, with no change) if the entity does not exist or has
    /// no collider.
    pub fn remove_collider(&mut self, id: u64) -> (ok: bool)
        requires
            old(self).wf(),
        ensures
            final(self).wf(),
            ok == (has_entity(old(self)@.entities, id) && ent(old(self)@.entities, id).collider
                is Some),
            ok ==> final(self)@.entities =~= old(self)@.entities.update(
                index_of(old(self)@.entities, id),
                with_collider(ent(old(self)@.entities, id), None),
            ),
            ok ==> final(self)@.removed_collider_log == old(self)@.removed_collider_log.push(
                ent(old(self)@.entities, id).collider->0.handle,
            ),
            !ok ==> final(self)@.entities == old(self)@.entities && final(self)@.removed_collider_log == old(
                self,
            )@.removed_collider_log,
            final(self)@.removed_body_log == old(self)@.removed_body_log,
            final(self)@.dirty_body_log == old(self)@.dirty_body_log,
            final(self)@.dirty_collider_log == old(self)@.dirty_collider_log,
    {
        let ghost s0 = self@.entities;
        match self.find(id) {
            None => false,
            Some(i) => {
                proof {
                    lemma_ent_at(s0, i as int);
                }
                let mut rec = self.entities.remove(i);
                match rec.collider {
                    None => {
                        self.entities.insert(i, rec);
                        proof {
                            assert(self.entities@ =~= old(self).entities@);
                        }
                        false
                    },
                    Some(c) => {
                        self.removed_collider_log.push(c.handle);
                        rec.collider = None;
                        self.entities.insert(i, rec);
                        proof {
                            lemma_view_seq_update(
                                old(self).entities@,
                                i as int,
                                self.entities@[i as int],
                            );
                            lemma_wf_update(s0, i as int, self@.entities[i as int]);
                        }
                        true
                    },
                }
            },
        }
    }
}


impl EntityStore {
    /// Moves the entity's body and records the mutation in the store's change
    /// signal. Fails (returning false, with no change) if the entity does not
    /// exist or has no body.
    pub fn set_body_pos(&mut self, id: u64, pos: LocalPos) -> (ok: bool)
        requires
            old(self).wf(),
        ensures
            final(self).wf(),
            ok == (has_entity(old(self)@.entities, id) && ent(old(self)@.entities, id).body
                is Some),
            ok ==> final(self)@.entities =~= old(self)@.entities.update(
                index_of(old(self)@.entities, id),
                with_body(
                    ent(old(self)@.entities, id),
                    Some(
                        BodyModel {
                            pos,
                            handle: ent(old(self)@.entities, id).body->0.handle,
                            changes: ent(old(self)@.entities, id).body->0.changes,
                            colliders: ent(old(self)@.entities, id).body->0.colliders,
                        },
                    ),
                ),
            ),
            ok ==> final(self)@.dirty_body_log == old(self)@.dirty_body_log.push(
                ent(old(self)@.entities, id).body->0.handle,
            ),
            !ok ==> final(self)@.entities == old(self)@.entities && final(self)@.dirty_body_log
                == old(self)@.dirty_body_log,
            final(self)@.removed_body_log == old(self)@.removed_body_log,
            final(self)@.removed_collider_log == old(self)@.removed_collider_log,
            final(self)@.dirty_collider_log == old(self)@.dirty_collider_log,
    {
        let ghost s0 = self@.entities;
        match self.find(id) {
            None => false,
            Some(i) => {
                proof {
                    lemma_ent_at(s0, i as int);
                }
                let mut rec = self.entities.remove(i);
                match rec.body {
                    None => {
                        self.entities.insert(i, rec);
                        proof {
                            assert(self.entities@ =~= old(self).entities@);
                        }
                        false
                    },
                    Some(mut b) => {
                        self.dirty_body_log.push(b.handle);
                        b.pos = pos;
                        rec.body = Some(b);
                        self.entities.insert(i, rec);
                        proof {
                            lemma_view_seq_update(
                                old(self).entities@,
                                i as int,
                                self.entities@[i as int],
                            );
                            lemma_wf_update(s0, i as int, self@.entities[i as int]);
                        }
                        true
                    },
                }
            },
        }
    }

    /// Moves the entity's collider and records the mutation in the store's
    /// change signal. Fails (returning false, with no change) if the entity
    /// does not exist or has no collider.
    pub fn set_collider_pos(&mut self, id: u64, pos: LocalPos) -> (ok: bool)
        requires
            old(self).wf(),
        ensures
            final(self).wf(),
            ok == (has_entity(old(self)@.entities, id) && ent(old(self)@.entities, id).collider
                is Some),
            ok ==> final(self)@.entities =~= old(self)@.entities.update(
                index_of(old(self)@.entities, id),
                with_collider(
                    ent(old(self)@.entities, id),
                    Some(
                        ColliderModel {
                            pos,
                            handle: ent(old(self)@.entities, id).collider->0.handle,
                            changes: ent(old(self)@.entities, id).collider->0.changes,
                            bf_data: ent(old(self)@.entities, id).collider->0.bf_data,
                            parent: ent(old(self)@.entities, id).collider->0.parent,
                            parent_added: ent(old(self)@.entities, id).collider->0.parent_added,
                        },
                    ),
                ),
            ),
            ok ==> final(self)@.dirty_collider_log == old(self)@.dirty_collider_log.push(
                ent(old(self)@.entities, id).collider->0.handle,
            ),
            !ok ==> final(self)@.entities == old(self)@.entities
                && final(self)@.dirty_collider_log == old(self)@.dirty_collider_log,
            final(self)@.removed_body_log == old(self)@.removed_body_log,
            final(self)@.removed_collider_log == old(self)@.removed_collider_log,
            final(self)@.dirty_body_log == old(self)@.dirty_body_log,
    {
        let ghost s0 = self@.entities;
        match self.find(id) {
            None => false,
            Some(i) => {
                proof {
                    lemma_ent_at(s0, i as int);
                }
                let mut rec = self.entities.remove(i);
                match rec.collider {
                    None => {
                        self.entities.insert(i, rec);
                        proof {
                            assert(self.entities@ =~= old(self).entities@);
                        }
                        false
                    },
                    Some(mut c) => {
                        self.dirty_collider_log.push(c.handle);
                        c.pos = pos;
                        rec.collider = Some(c);
                        self.entities.insert(i, rec);
                        proof {
                            lemma_view_seq_update(
                                old(self).entities@,
                                i as int,
                                self.entities@[i as int],
                            );
                            lemma_wf_update(s0, i as int, self@.entities[i as int]);
                        }
                        true
                    },
                }
            },
        }
    }
}

} // verus!
