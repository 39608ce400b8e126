//! Laws that relate the operations on contexts and the store.
use vstd::prelude::*;
use crate::context::{
    lookup, protocol_key, spec_copy, spec_dir_mem, spec_mem, spec_remove, spec_set, tree_dir_mem,
    ContextView, IrminContext,
};
use crate::index::{context_hash, snapshot_state, SnapshotView};
use crate::keys::{is_prefix, is_strict_prefix, KeyView};
use crate::tree::{entries_view, lemma_sorted_unique};

verus! {

/// Reading a key right after writing it gives the value written.
pub proof fn law_get_after_set(s: ContextView, k: KeyView, v: Seq<u8>)
    requires
        k.len() > 0,
    ensures
        lookup(spec_set(s, k, v), k) == Some(v),
{
}

/// A key where neither a leaf nor a directory stands reads as nothing
/// (unless it is the reserved protocol key), and removing it changes nothing.
pub proof fn law_absent_key(s: ContextView, k: KeyView)
    requires
        k.len() > 0,
        !s.leaves.contains_key(k),
        !tree_dir_mem(s.leaves, k),
    ensures
        k != protocol_key() ==> lookup(s, k) == None::<Seq<u8>>,
        spec_remove(s, k) == s,
{
    assert forall|p: KeyView| #[trigger] s.leaves.contains_key(p) implies !is_prefix(k, p) by {
        if is_prefix(k, p) && p.len() == k.len() {
            assert(p =~= p.subrange(0, k.len() as int));
        }
    }
    assert(spec_remove(s, k).leaves =~= s.leaves);
}

/// Two contexts with the same protocol hash and the same leaves, however
/// they were built, commit at the same time with the same message to the
/// same hash.
pub proof fn law_commit_deterministic(c1: IrminContext, c2: IrminContext, time: i64, message: Seq<char>)
    requires
        c1.wf(),
        c2.wf(),
        c1@ == c2@,
    ensures
        context_hash(time, message, c1) == context_hash(time, message, c2),
{
    lemma_sorted_unique(entries_view(c1.entries@), entries_view(c2.entries@));
}

/// After a commit registers a context under its hash, checking that hash
/// out gives a context that answers every read as the committed one did.
pub proof fn law_checkout_after_commit(store: Map<Seq<u8>, SnapshotView>, h: Seq<u8>, c: IrminContext)
    ensures
        store.insert(h, (c.protocol@, entries_view(c.entries@))).contains_key(h),
        snapshot_state(store.insert(h, (c.protocol@, entries_view(c.entries@)))[h]) == c@,
        forall|k: KeyView|
            #![trigger lookup(c@, k)]
            lookup(snapshot_state(store.insert(h, (c.protocol@, entries_view(c.entries@)))[h]), k)
                == lookup(c@, k) && spec_mem(
                snapshot_state(store.insert(h, (c.protocol@, entries_view(c.entries@)))[h]),
                k,
            ) == spec_mem(c@, k) && spec_dir_mem(
                snapshot_state(store.insert(h, (c.protocol@, entries_view(c.entries@)))[h]),
                k,
            ) == spec_dir_mem(c@, k),
{
}

/// A copy places under the target what stood under the source, key for
/// key; where source and target are disjoint, the source stays as it was.
pub proof fn law_copy(s: ContextView, a: KeyView, b: KeyView, p: KeyView)
    requires
        a.len() > 0,
        b.len() > 0,
        s.leaves.contains_key(a + p),
    ensures
        spec_copy(s, a, b) matches Some(r) && r.leaves.contains_key(b + p) && r.leaves[b + p]
            == s.leaves[a + p],
        !is_prefix(a, b) && !is_prefix(b, a) ==> (spec_copy(s, a, b) matches Some(r)
            && r.leaves.contains_key(a + p) && r.leaves[a + p] == s.leaves[a + p]),
{
    let ap = a + p;
    let bp = b + p;
    assert(ap.subrange(0, a.len() as int) =~= a);
    assert(bp.subrange(0, b.len() as int) =~= b);
    assert(bp.skip(b.len() as int) =~= p);
    assert(s.leaves.contains_key(ap) && is_prefix(a, ap));
    if !is_prefix(a, b) && !is_prefix(b, a) {
        assert(!is_prefix(b, ap)) by {
            if is_prefix(b, ap) {
                if b.len() <= a.len() {
                    assert(a.subrange(0, b.len() as int) =~= ap.subrange(0, b.len() as int));
                } else {
                    assert(ap.subrange(0, b.len() as int).subrange(0, a.len() as int) =~= ap.subrange(
                        0,
                        a.len() as int,
                    ));
                    assert(b.subrange(0, a.len() as int) =~= a);
                }
            }
        }
        assert(!is_strict_prefix(ap, b)) by {
            if is_strict_prefix(ap, b) {
                assert(b.subrange(0, ap.len() as int).subrange(0, a.len() as int) =~= b.subrange(
                    0,
                    a.len() as int,
                ));
                assert(b.subrange(0, a.len() as int) =~= a);
            }
        }
    }
}

/// The reserved protocol key reads back what was written to it, and is
/// neither a leaf nor a directory.
pub proof fn law_protocol_key(s: ContextView, v: Seq<u8>)
    ensures
        lookup(spec_set(s, protocol_key(), v), protocol_key()) == Some(v),
        !spec_mem(s, protocol_key()),
        !spec_dir_mem(s, protocol_key()),
{
}

/// In a well-formed context no key is both a leaf and a directory.
pub proof fn law_leaf_or_directory(c: IrminContext, k: KeyView)
    requires
        c.wf(),
    ensures
        !(spec_mem(c@, k) && spec_dir_mem(c@, k)),
{
}

} // verus!
