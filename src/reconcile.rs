//! Merging a change set into a record set.
//!
//! The merge is set algebra over identities rather than a sequence of
//! mutations, so its outcome does not depend on the order of the lists:
//! `(current \ (delete ∪ from)) ∪ create ∪ to`.
use crate::changes::{froms, serialize, tos, Changes, ChangesView, FromTo};
use crate::endpoint::{
    contains_key, key, key_set, lemma_key_set_concat, lemma_key_set_contains, lemma_key_set_push,
    lemma_unique_concat, lemma_unique_push, unique_keys, Endpoint, EndpointKey,
};
use vstd::prelude::*;
use vstd::std_specs::cmp::PartialEqSpec;

verus! {

/// The identities that a change set takes away: deletions and update sources.
pub open spec fn removed_keys(c: ChangesView) -> Set<EndpointKey> {
    key_set(c.delete).union(key_set(froms(c.update)))
}

/// The endpoints that a change set brings: creations and update targets.
pub open spec fn inserted(c: ChangesView) -> Seq<Endpoint> {
    c.create + tos(c.update)
}

pub open spec fn inserted_keys(c: ChangesView) -> Set<EndpointKey> {
    key_set(inserted(c))
}

/// The identities after merging `c` into a set with identities `current`.
pub open spec fn applied_keys(current: Set<EndpointKey>, c: ChangesView) -> Set<EndpointKey> {
    current.difference(removed_keys(c)).union(inserted_keys(c))
}

/// `r` is the record set after merging `c` into `current`: it has the
/// identities of the set algebra, each once; an identity that `c` brings is
/// represented by an endpoint of `c`, any other by one of `current`.
pub open spec fn merged(current: Seq<Endpoint>, c: ChangesView, r: Seq<Endpoint>) -> bool {
    &&& key_set(r) == applied_keys(key_set(current), c)
    &&& unique_keys(r)
    &&& forall|i: int|
        0 <= i < r.len() ==> (inserted_keys(c).contains(key(#[trigger] r[i])) ==> inserted(
            c,
        ).contains(r[i]))
    &&& forall|i: int|
        0 <= i < r.len() ==> (!inserted_keys(c).contains(key(#[trigger] r[i]))
            ==> current.contains(r[i]))
}

/// Keeps the first endpoint of each identity, in order.
fn dedup(v: Vec<Endpoint>) -> (r: Vec<Endpoint>)
    ensures
        unique_keys(r@),
        key_set(r@) == key_set(v@),
        forall|i: int| 0 <= i < r.len() ==> v@.contains(#[trigger] r@[i]),
{
    let ghost all = v@;
    let mut out: Vec<Endpoint> = Vec::new();
    for x in it: v.into_iter()
        invariant
            it.seq() == all,
            unique_keys(out@),
            key_set(out@) == key_set(all.take(it.index() as int)),
            forall|i: int| 0 <= i < out.len() ==> all.contains(#[trigger] out@[i]),
    {
        proof {
            assert(all.take(it.index() + 1) =~= all.take(it.index() as int).push(x));
            lemma_key_set_push(all.take(it.index() as int), x);
        }
        if !contains_key(&out, &x) {
            proof {
                lemma_unique_push(out@, x);
                lemma_key_set_push(out@, x);
            }
            out.push(x);
        } else {
            proof {
                assert(key_set(out@).insert(key(x)) =~= key_set(out@));
            }
        }
    }
    proof {
        assert(all.take(all.len() as int) =~= all);
    }
    out
}

/// Merges `changes` into the record set `current`.
///
/// Deleting or replacing an absent record is no error; a record that is both
/// removed and brought by the same change set is present afterwards.
pub fn apply(current: Vec<Endpoint>, changes: Changes) -> (r: Vec<Endpoint>)
    ensures
        merged(current@, changes@, r@),
{
    let ghost c = changes@;
    let ghost cur = current@;
    let Changes { create, update, delete } = changes;
    let pairs = serialize(update);
    let mut sources = pairs.old;
    let mut targets = pairs.new;
    let mut removed = delete;
    removed.append(&mut sources);
    let mut brought = create;
    brought.append(&mut targets);
    assert(removed@ == c.delete + froms(c.update));
    assert(brought@ == inserted(c));
    proof {
        lemma_key_set_concat(c.delete, froms(c.update));
    }
    let fresh = dedup(brought);
    let ghost ins = key_set(fresh@);
    let ghost rem = removed_keys(c);
    let mut kept: Vec<Endpoint> = Vec::new();
    for x in it: current.into_iter()
        invariant
            it.seq() == cur,
            key_set(removed@) == rem,
            key_set(fresh@) == ins,
            unique_keys(kept@),
            key_set(kept@) == key_set(cur.take(it.index() as int)).difference(rem).difference(ins),
            forall|i: int| 0 <= i < kept.len() ==> cur.contains(#[trigger] kept@[i]),
    {
        proof {
            assert(cur.take(it.index() + 1) =~= cur.take(it.index() as int).push(x));
            lemma_key_set_push(cur.take(it.index() as int), x);
        }
        if !contains_key(&removed, &x) && !contains_key(&fresh, &x) && !contains_key(&kept, &x) {
            proof {
                lemma_unique_push(kept@, x);
                lemma_key_set_push(kept@, x);
                assert(key_set(kept@.push(x)) =~= key_set(cur.take(it.index() + 1)).difference(
                    rem,
                ).difference(ins));
            }
            kept.push(x);
        } else {
            proof {
                assert(key_set(kept@) =~= key_set(cur.take(it.index() + 1)).difference(
                    rem,
                ).difference(ins));
            }
        }
    }
    proof {
        assert(cur.take(cur.len() as int) =~= cur);
    }
    let ghost kept_seq = kept@;
    let ghost fresh_seq = fresh@;
    let mut fresh = fresh;
    kept.append(&mut fresh);
    proof {
        assert(key_set(kept_seq).disjoint(key_set(fresh_seq)));
        lemma_unique_concat(kept_seq, fresh_seq);
        lemma_key_set_concat(kept_seq, fresh_seq);
        assert(key_set(kept@) =~= applied_keys(key_set(cur), c));
        assert forall|i: int| 0 <= i < kept@.len() implies (inserted_keys(c).contains(
            key(#[trigger] kept@[i]),
        ) ==> inserted(c).contains(kept@[i])) && (!inserted_keys(c).contains(key(kept@[i]))
            ==> cur.contains(kept@[i])) by {
            if i < kept_seq.len() {
                assert(kept@[i] == kept_seq[i]);
                lemma_key_set_contains(kept_seq, key(kept_seq[i]));
            } else {
                assert(kept@[i] == fresh_seq[i - kept_seq.len()]);
                lemma_key_set_contains(fresh_seq, key(fresh_seq[i - kept_seq.len()]));
            }
        }
    }
    kept
}

/// A change set that only creates `a`.
pub open spec fn create_only(a: Endpoint) -> ChangesView {
    ChangesView { create: seq![a], update: Seq::empty(), delete: Seq::empty() }
}

/// A change set that only deletes `a`.
pub open spec fn delete_only(a: Endpoint) -> ChangesView {
    ChangesView { create: Seq::empty(), update: Seq::empty(), delete: seq![a] }
}

/// A change set that only replaces `a` by `b`.
pub open spec fn update_only(a: Endpoint, b: Endpoint) -> ChangesView {
    ChangesView {
        create: Seq::empty(),
        update: seq![FromTo { from: a, to: b }],
        delete: Seq::empty(),
    }
}

proof fn lemma_key_set_single(a: Endpoint)
    ensures
        key_set(seq![a]) == set![key(a)],
{
    lemma_key_set_push(Seq::empty(), a);
    assert(Seq::<Endpoint>::empty().push(a) =~= seq![a]);
    assert(key_set(Seq::<Endpoint>::empty()) =~= Set::empty());
}

proof fn lemma_key_set_empty()
    ensures
        key_set(Seq::<Endpoint>::empty()) == Set::<EndpointKey>::empty(),
{
    assert(key_set(Seq::<Endpoint>::empty()) =~= Set::empty());
}

/// Two endpoints that differ only in `labels` and `provider_specific` are
/// equal, and the same member of a record set: creating either gives the
/// same record set.
pub proof fn lemma_identity_ignores_metadata(s: Seq<Endpoint>, a: Endpoint, b: Endpoint)
    requires
        a.dns_name == b.dns_name,
        a.targets == b.targets,
        a.record_type == b.record_type,
        a.set_identifier == b.set_identifier,
        a.record_ttl == b.record_ttl,
    ensures
        a.eq_spec(&b),
        key_set(s.push(a)) == key_set(s.push(b)),
        applied_keys(key_set(s), create_only(a)) == applied_keys(key_set(s), create_only(b)),
{
    lemma_key_set_push(s, a);
    lemma_key_set_push(s, b);
    lemma_key_set_single(a);
    lemma_key_set_single(b);
    assert(inserted(create_only(a)) =~= seq![a]);
    assert(inserted(create_only(b)) =~= seq![b]);
}

/// Creating `a` adds its identity to the set.
pub proof fn lemma_apply_create(s: Seq<Endpoint>, a: Endpoint, r: Seq<Endpoint>)
    requires
        merged(s, create_only(a), r),
    ensures
        key_set(r) == key_set(s).insert(key(a)),
{
    lemma_key_set_single(a);
    lemma_key_set_empty();
    let c = create_only(a);
    assert(froms(c.update) =~= Seq::<Endpoint>::empty());
    assert(inserted(c) =~= seq![a]);
    assert(key_set(r) =~= key_set(s).insert(key(a)));
}

/// Deleting `a` removes its identity, whether or not it was there.
pub proof fn lemma_apply_delete(s: Seq<Endpoint>, a: Endpoint, r: Seq<Endpoint>)
    requires
        merged(s, delete_only(a), r),
    ensures
        key_set(r) == key_set(s).remove(key(a)),
{
    lemma_key_set_single(a);
    lemma_key_set_empty();
    let c = delete_only(a);
    assert(froms(c.update) =~= Seq::<Endpoint>::empty());
    assert(inserted(c) =~= Seq::<Endpoint>::empty());
    assert(key_set(r) =~= key_set(s).remove(key(a)));
}

/// Replacing `a` by `b` removes `a` and adds `b`, whether or not `a` was
/// there.
pub proof fn lemma_apply_update(s: Seq<Endpoint>, a: Endpoint, b: Endpoint, r: Seq<Endpoint>)
    requires
        merged(s, update_only(a, b), r),
    ensures
        key_set(r) == key_set(s).remove(key(a)).insert(key(b)),
{
    lemma_key_set_single(a);
    lemma_key_set_single(b);
    lemma_key_set_empty();
    let c = update_only(a, b);
    assert(froms(c.update) =~= seq![a]);
    assert(tos(c.update) =~= seq![b]);
    assert(inserted(c) =~= seq![b]);
    assert(key_set(r) =~= key_set(s).remove(key(a)).insert(key(b)));
}

/// Merging the same change set a second time changes nothing.
pub proof fn lemma_apply_idempotent(
    s: Seq<Endpoint>,
    c: ChangesView,
    once: Seq<Endpoint>,
    twice: Seq<Endpoint>,
)
    requires
        merged(s, c, once),
        merged(once, c, twice),
    ensures
        key_set(twice) == key_set(once),
{
    assert(key_set(twice) =~= key_set(once));
}

} // verus!
