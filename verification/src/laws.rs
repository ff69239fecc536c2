use vstd::prelude::*;
use crate::store::{
    EntityModel, ColliderParent, ids_unique, collider_handles_unique, index_of, ent, has_entity,
    lemma_ent_at,
};
use crate::tracker::{TrackerModel, cnt, merged_unique, no_dups, lemma_push_contains};
use crate::systems::{
    ancestor_body, attach_spec, attach_record, fproc, ftarget, fchandle, newly_attached, bc_base,
};

verus! {

/// Membership in a merge: exactly the old entries and the merged log prefix.
pub proof fn lemma_merged_unique_membership(acc: Seq<u64>, log: Seq<u64>, n: int, x: u64)
    requires
        0 <= n <= log.len(),
    ensures
        merged_unique(acc, log, n).contains(x) <==> acc.contains(x) || exists|a: int|
            0 <= a < n && log[a] == x,
    decreases n,
{
    if n > 0 {
        lemma_merged_unique_membership(acc, log, n - 1, x);
        let rest = merged_unique(acc, log, n - 1);
        if rest.contains(log[n - 1]) {
            if !(acc.contains(x) || (exists|a: int| 0 <= a < n - 1 && log[a] == x)) && (exists|
                a: int,
            | 0 <= a < n && log[a] == x) {
                assert(log[n - 1] == x);
                lemma_merged_unique_membership(acc, log, n - 1, log[n - 1]);
            }
        } else {
            lemma_push_contains(rest, log[n - 1], x);
            if (exists|a: int| 0 <= a < n && log[a] == x) && !(exists|a: int|
                0 <= a < n - 1 && log[a] == x) {
                assert(log[n - 1] == x);
            }
        }
    }
}

/// A merge of fresh entries keeps the entries pairwise distinct.
pub proof fn lemma_merged_unique_no_dups(acc: Seq<u64>, log: Seq<u64>, n: int)
    requires
        0 <= n <= log.len(),
        no_dups(acc),
    ensures
        no_dups(merged_unique(acc, log, n)),
        acc.len() <= merged_unique(acc, log, n).len(),
        forall|i: int| 0 <= i < acc.len() ==> merged_unique(acc, log, n)[i] == acc[i],
    decreases n,
{
    if n > 0 {
        lemma_merged_unique_no_dups(acc, log, n - 1);
        let rest = merged_unique(acc, log, n - 1);
        if rest.contains(log[n - 1]) {
        } else {
            let s2 = rest.push(log[n - 1]);
            assert forall|i: int, j: int| 0 <= i < j < s2.len() implies s2[i] != s2[j] by {
                if j == s2.len() - 1 {
                    if s2[i] == log[n - 1] {
                        assert(rest[i] == log[n - 1]);
                        assert(rest.contains(log[n - 1]));
                    }
                }
            }
        }
    }
}

/// One attachment pass gives every collider entity whose ancestor chain
/// reaches a body a relation recording that body's handle, with the
/// collider's local position at attachment time.
pub proof fn lemma_attach_creates_relation(s: Seq<EntityModel>, i: int, h: u64)
    requires
        0 <= i < s.len(),
        s[i].collider is Some,
        s[i].collider->0.parent is None,
        ancestor_body(s, s[i].id, s.len() as nat) == Some(h),
    ensures
        attach_spec(s)[i].collider is Some,
        attach_spec(s)[i].collider->0.parent == Some(
            ColliderParent { handle: h, pos_wrt_parent: s[i].collider->0.pos },
        ),
        attach_spec(s)[i].collider->0.parent_added,
        attach_spec(s)[i].collider->0.pos == s[i].collider->0.pos,
        attach_spec(s)[i].collider->0.handle == s[i].collider->0.handle,
{
    assert(attach_spec(s)[i] == attach_record(s, s[i]));
}

/// One attachment pass leaves a collider entity whose ancestor chain reaches
/// no body untouched, so it is scanned again on the next pass.
pub proof fn lemma_attach_skips_without_body(s: Seq<EntityModel>, i: int)
    requires
        0 <= i < s.len(),
        ancestor_body(s, s[i].id, s.len() as nat) is None,
    ensures
        attach_spec(s)[i] == s[i],
        s[i].collider is Some && s[i].collider->0.parent is None ==> attach_spec(s)[i].collider
            is Some && attach_spec(s)[i].collider->0.parent is None,
{
    assert(attach_spec(s)[i] == attach_record(s, s[i]));
}

/// An attachment pass changes no identifier, parent link or body, so the
/// ancestor walk gives the same answer before and after the pass.
pub proof fn lemma_ancestor_body_attach(s: Seq<EntityModel>, id: u64, fuel: nat)
    requires
        ids_unique(s),
    ensures
        ancestor_body(attach_spec(s), id, fuel) == ancestor_body(s, id, fuel),
    decreases fuel,
{
    let s2 = attach_spec(s);
    assert forall|j: int|
        0 <= j < s.len() implies #[trigger] s2[j].id == s[j].id && s2[j].parent == s[j].parent
            && s2[j].body == s[j].body by {
        assert(s2[j] == attach_record(s, s[j]));
    }
    if has_entity(s, id) {
        let i = index_of(s, id);
        lemma_ent_at(s, i);
        assert(s2[i].id == id);
        assert(has_entity(s2, id));
        assert(ids_unique(s2));
        lemma_ent_at(s2, i);
        assert(ent(s2, id) == s2[i] && ent(s, id) == s[i]);
        if s[i].body is Some {
        } else if s[i].parent is Some {
            if fuel > 0 {
                lemma_ancestor_body_attach(s, s[i].parent->0, (fuel - 1) as nat);
            }
        }
    } else {
        if has_entity(s2, id) {
            let w = choose|w: int| 0 <= w < s2.len() && s2[w].id == id;
            assert(s[w].id == id);
            assert(false);
        }
    }
}

/// Idempotence of the attachment pass: running it twice with no intervening
/// change creates nothing new — at most one relation is ever created per
/// collider, until the relation is explicitly removed.
pub proof fn lemma_attach_idempotent(s: Seq<EntityModel>)
    requires
        ids_unique(s),
    ensures
        attach_spec(attach_spec(s)) =~= attach_spec(s),
{
    let s2 = attach_spec(s);
    assert forall|j: int|
        0 <= j < s.len() implies #[trigger] s2[j].id == s[j].id && s2[j].parent == s[j].parent
            && s2[j].body == s[j].body by {
        assert(s2[j] == attach_record(s, s[j]));
    }
    assert forall|i: int| 0 <= i < s2.len() implies attach_spec(s2)[i] == s2[i] by {
        assert(s2[i] == attach_record(s, s[i]));
        assert(attach_spec(s2)[i] == attach_record(s2, s2[i]));
        lemma_ancestor_body_attach(s, s2[i].id, s2.len() as nat);
        if s[i].collider is Some && s[i].collider->0.parent is None && ancestor_body(
            s,
            s[i].id,
            s.len() as nat,
        ) is Some {
            assert(s2[i].collider->0.parent is Some);
        } else {
            assert(s2[i] == s[i]);
        }
    }
}

/// Occurrence counts distribute over concatenation.
pub proof fn lemma_cnt_add(a: Seq<u64>, b: Seq<u64>, x: u64)
    ensures
        cnt(a + b, x) == cnt(a, x) + cnt(b, x),
    decreases b.len(),
{
    if b.len() == 0 {
        assert(a + b =~= a);
    } else {
        let b2 = b.drop_last();
        lemma_cnt_add(a, b2, x);
        assert((a + b).drop_last() =~= a + b2);
        assert((a + b).last() == b.last());
        assert(a + b =~= (a + b2).push(b.last()));
    }
}

/// Among the colliders that one finalize pass attaches to a body, a given
/// collider handle occurs exactly once — at the record that carries it.
pub proof fn lemma_newly_attached_cnt(s: Seq<EntityModel>, n: int, i: int)
    requires
        collider_handles_unique(s),
        0 <= i < s.len(),
        fproc(s, i),
        0 <= n <= s.len(),
    ensures
        cnt(newly_attached(s, n, ftarget(s, i)), fchandle(s, i)) == if n > i {
            1nat
        } else {
            0nat
        },
    decreases n,
{
    let h = ftarget(s, i);
    let c = fchandle(s, i);
    if n == 0 {
    } else {
        lemma_newly_attached_cnt(s, n - 1, i);
        let rest = newly_attached(s, n - 1, h);
        if fproc(s, n - 1) && ftarget(s, n - 1) == h {
            let x = fchandle(s, n - 1);
            assert(rest.push(x).drop_last() =~= rest);
            assert(rest.push(x).last() == x);
            if n - 1 != i {
                assert(s[n - 1].collider is Some && s[i].collider is Some);
                assert(x != c);
            }
        }
    }
}

/// After the finalize pass handles a newly parented collider, the tracker's
/// body-to-colliders map holds that collider's handle under the parent
/// body's handle exactly once, provided it was not recorded there before.
pub proof fn lemma_finalize_attaches_once(t: TrackerModel, s: Seq<EntityModel>, i: int)
    requires
        collider_handles_unique(s),
        0 <= i < s.len(),
        fproc(s, i),
        cnt(bc_base(t, ftarget(s, i)), fchandle(s, i)) == 0,
    ensures
        cnt(
            bc_base(t, ftarget(s, i)) + newly_attached(s, s.len() as int, ftarget(s, i)),
            fchandle(s, i),
        ) == 1,
{
    lemma_cnt_add(
        bc_base(t, ftarget(s, i)),
        newly_attached(s, s.len() as int, ftarget(s, i)),
        fchandle(s, i),
    );
    lemma_newly_attached_cnt(s, s.len() as int, i);
}

} // verus!
