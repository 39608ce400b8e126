//! Contexts: immutable snapshots of the tree, with the protocol hash held
//! beside the tree. Every operation that changes a context returns a new one.
use std::rc::Rc;
use vstd::prelude::*;
use vstd::string::*;
use crate::keys::{is_prefix, is_strict_prefix, key_has_prefix, key_view, KeyView};
use crate::tree::{
    copy_bytes, copy_entries, copy_key, entries_view, find_entry, has_leaf_below, insert_entry,
    lemma_key_lt_irreflexive_at, lemma_leaf_map_at, lemma_leaf_map_keys, lemma_leaf_map_push,
    leaf_map, prune, prune_entries, sorted, Entry, EntryView,
};

verus! {

/// The reserved key `["protocol"]`, which addresses the protocol hash.
pub open spec fn protocol_key() -> KeyView {
    seq![seq!['p', 'r', 'o', 't', 'o', 'c', 'o', 'l']]
}

/// A directory stands at `k`: some leaf lies strictly below it.
pub open spec fn tree_dir_mem(m: Map<KeyView, Seq<u8>>, k: KeyView) -> bool {
    exists|p: KeyView| #[trigger] m.contains_key(p) && is_strict_prefix(k, p)
}

/// Something stands at `k`: a leaf, or a directory with leaves below it.
pub open spec fn subtree_present(m: Map<KeyView, Seq<u8>>, k: KeyView) -> bool {
    exists|p: KeyView| #[trigger] m.contains_key(p) && is_prefix(k, p)
}

/// The tree with a leaf `v` at `k`: whatever stood at `k` or below it goes,
/// and so do leaves on the path to `k`, which become directories.
pub open spec fn tree_set(m: Map<KeyView, Seq<u8>>, k: KeyView, v: Seq<u8>) -> Map<KeyView, Seq<u8>> {
    prune(m, k, true).insert(k, v)
}

/// The tree without the subtree at `k`.
pub open spec fn tree_remove(m: Map<KeyView, Seq<u8>>, k: KeyView) -> Map<KeyView, Seq<u8>> {
    prune(m, k, false)
}

/// `base` with, for each leaf of `src` at `a + p`, a leaf at `b + p`.
pub open spec fn copy_onto(
    base: Map<KeyView, Seq<u8>>,
    src: Map<KeyView, Seq<u8>>,
    a: KeyView,
    b: KeyView,
) -> Map<KeyView, Seq<u8>> {
    Map::new(
        |q: KeyView|
            base.contains_key(q) || (is_prefix(b, q) && src.contains_key(
                a + q.skip(b.len() as int),
            )),
        |q: KeyView|
            if is_prefix(b, q) {
                src[a + q.skip(b.len() as int)]
            } else {
                base[q]
            },
    )
}

/// The tree where the subtree at `b` is replaced by the subtree at `a`.
pub open spec fn tree_copy(m: Map<KeyView, Seq<u8>>, a: KeyView, b: KeyView) -> Map<KeyView, Seq<u8>> {
    copy_onto(prune(m, b, true), m, a, b)
}

/// The abstract state of a context: its protocol hash and its leaves.
pub ghost struct ContextView {
    pub protocol: Seq<u8>,
    pub leaves: Map<KeyView, Seq<u8>>,
}

/// What `get` finds at `k`: at the reserved key the protocol hash, else the
/// leaf there, if any.
pub open spec fn lookup(s: ContextView, k: KeyView) -> Option<Seq<u8>> {
    if k == protocol_key() {
        Some(s.protocol)
    } else if s.leaves.contains_key(k) {
        Some(s.leaves[k])
    } else {
        None
    }
}

/// What `mem` answers.
pub open spec fn spec_mem(s: ContextView, k: KeyView) -> bool {
    k != protocol_key() && s.leaves.contains_key(k)
}

/// What `dir_mem` answers.
pub open spec fn spec_dir_mem(s: ContextView, k: KeyView) -> bool {
    k != protocol_key() && tree_dir_mem(s.leaves, k)
}

/// The state that `set` gives.
pub open spec fn spec_set(s: ContextView, k: KeyView, v: Seq<u8>) -> ContextView {
    if k == protocol_key() {
        ContextView { protocol: v, leaves: s.leaves }
    } else {
        ContextView { protocol: s.protocol, leaves: tree_set(s.leaves, k, v) }
    }
}

/// The state that `remove_rec` gives.
pub open spec fn spec_remove(s: ContextView, k: KeyView) -> ContextView {
    ContextView { protocol: s.protocol, leaves: tree_remove(s.leaves, k) }
}

/// The state that `copy` gives, if any.
pub open spec fn spec_copy(s: ContextView, a: KeyView, b: KeyView) -> Option<ContextView> {
    if subtree_present(s.leaves, a) {
        Some(ContextView { protocol: s.protocol, leaves: tree_copy(s.leaves, a, b) })
    } else {
        None
    }
}

pub open spec fn context_opt(o: Option<IrminContext>) -> Option<ContextView> {
    match o {
        Some(c) => Some(c@),
        None => None,
    }
}

/// No leaf lies below another: every key is a leaf, a directory or nothing.
pub open spec fn prefix_free(m: Map<KeyView, Seq<u8>>) -> bool {
    forall|p: KeyView, q: KeyView|
        #[trigger] m.contains_key(p) && #[trigger] m.contains_key(q) ==> !is_strict_prefix(p, q)
}

pub proof fn lemma_set_prefix_free(m: Map<KeyView, Seq<u8>>, k: KeyView, v: Seq<u8>)
    requires
        prefix_free(m),
    ensures
        prefix_free(tree_set(m, k, v)),
{
    let r = tree_set(m, k, v);
    assert forall|p: KeyView, q: KeyView|
        #[trigger] r.contains_key(p) && #[trigger] r.contains_key(q) implies !is_strict_prefix(
        p,
        q,
    ) by {
        if p == k && q != k && is_strict_prefix(p, q) {
            assert(is_prefix(k, q));
        }
    }
}

pub proof fn lemma_remove_prefix_free(m: Map<KeyView, Seq<u8>>, k: KeyView)
    requires
        prefix_free(m),
    ensures
        prefix_free(tree_remove(m, k)),
{
    let r = tree_remove(m, k);
    assert forall|p: KeyView, q: KeyView|
        #[trigger] r.contains_key(p) && #[trigger] r.contains_key(q) implies !is_strict_prefix(
        p,
        q,
    ) by {
        assert(m.contains_key(p) && m.contains_key(q));
    }
}

pub proof fn lemma_copy_prefix_free(m: Map<KeyView, Seq<u8>>, a: KeyView, b: KeyView)
    requires
        prefix_free(m),
    ensures
        prefix_free(tree_copy(m, a, b)),
{
    let base = prune(m, b, true);
    let r = tree_copy(m, a, b);
    assert forall|p: KeyView, q: KeyView|
        #[trigger] r.contains_key(p) && #[trigger] r.contains_key(q) implies !is_strict_prefix(
        p,
        q,
    ) by {
        if is_strict_prefix(p, q) {
            let bl = b.len() as int;
            if base.contains_key(p) && base.contains_key(q) {
                assert(m.contains_key(p) && m.contains_key(q));
            } else if base.contains_key(p) {
                assert(is_prefix(b, q));
                if p.len() < b.len() {
                    assert(b.subrange(0, p.len() as int) =~= q.subrange(0, p.len() as int));
                    assert(is_strict_prefix(p, b));
                } else {
                    assert(p.subrange(0, bl) =~= q.subrange(0, bl));
                    assert(is_prefix(b, p));
                }
            } else if base.contains_key(q) {
                assert(is_prefix(b, p));
                assert(q.subrange(0, bl) =~= p.subrange(0, bl));
                assert(is_prefix(b, q));
            } else {
                let x = p.skip(bl);
                let y = q.skip(bl);
                assert(m.contains_key(a + x) && m.contains_key(a + y));
                assert(x.len() < y.len());
                assert(y.subrange(0, x.len() as int) =~= q.subrange(bl, p.len() as int));
                assert(p.subrange(bl, p.len() as int) =~= x);
                assert(q.subrange(bl, p.len() as int) =~= p.subrange(bl, p.len() as int));
                assert((a + y).subrange(0, (a + x).len() as int) =~= a + x);
                assert(is_strict_prefix(a + x, a + y));
            }
        }
    }
}

pub open spec fn bytes_opt(o: Option<Vec<u8>>) -> Option<Seq<u8>> {
    match o {
        Some(v) => Some(v@),
        None => None,
    }
}

/// A snapshot of the store: the protocol hash and the tree's leaves, sorted
/// by key.
pub struct IrminContext {
    pub protocol: Vec<u8>,
    pub entries: Vec<Rc<Entry>>,
}

impl IrminContext {
    /// The entries are in canonical order, and no leaf lies below another.
    pub open spec fn wf(&self) -> bool {
        sorted(entries_view(self.entries@)) && prefix_free(self.leaves())
    }

    /// The leaves of the tree, by key.
    pub open spec fn leaves(&self) -> Map<KeyView, Seq<u8>> {
        leaf_map(entries_view(self.entries@))
    }

}

impl View for IrminContext {
    type V = ContextView;

    open spec fn view(&self) -> ContextView {
        ContextView { protocol: self.protocol@, leaves: self.leaves() }
    }
}

/// Whether the key is the reserved key `["protocol"]`.
pub fn is_protocol_key(k: &Vec<String>) -> (r: bool)
    ensures
        r == (key_view(k) == protocol_key()),
{
    if k.len() != 1 {
        assert(key_view(k).len() != protocol_key().len());
        return false;
    }
    let s = k[0].as_str();
    assert(key_view(k)[0] == s@);
    if s.unicode_len() != 8 {
        assert(key_view(k)[0].len() != protocol_key()[0].len());
        return false;
    }
    let r = s.get_char(0) == 'p' && s.get_char(1) == 'r' && s.get_char(2) == 'o' && s.get_char(3)
        == 't' && s.get_char(4) == 'o' && s.get_char(5) == 'c' && s.get_char(6) == 'o'
        && s.get_char(7) == 'l';
    proof {
        if r {
            assert(s@ =~= protocol_key()[0]);
            assert(key_view(k) =~= protocol_key());
        }
    }
    r
}

/// Whether a leaf stands at `key`. The reserved protocol key is no leaf.
pub fn mem(ctxt: &IrminContext, key: Vec<String>) -> (r: bool)
    requires
        key@.len() > 0,
    ensures
        r == spec_mem(ctxt@, key_view(&key)),
{
    if is_protocol_key(&key) {
        return false;
    }
    proof {
        lemma_leaf_map_keys(entries_view(ctxt.entries@));
    }
    find_entry(&ctxt.entries, &key).is_some()
}

/// Whether a directory stands at `key`. The reserved protocol key is no
/// directory.
pub fn dir_mem(ctxt: &IrminContext, key: Vec<String>) -> (r: bool)
    requires
        key@.len() > 0,
    ensures
        r == spec_dir_mem(ctxt@, key_view(&key)),
{
    if is_protocol_key(&key) {
        return false;
    }
    has_leaf_below(&ctxt.entries, &key)
}

/// The value at `key`; at the reserved protocol key, the protocol hash.
pub fn get(ctxt: &IrminContext, key: &Vec<String>) -> (r: Option<Vec<u8>>)
    requires
        ctxt.wf(),
        key@.len() > 0,
    ensures
        bytes_opt(r) == lookup(ctxt@, key_view(key)),
{
    if is_protocol_key(key) {
        return Some(get_protocol(ctxt));
    }
    match find_entry(&ctxt.entries, key) {
        Some(i) => {
            proof {
                lemma_leaf_map_at(entries_view(ctxt.entries@), i as int);
            }
            Some(copy_bytes(&ctxt.entries[i].value))
        },
        None => None,
    }
}

/// The protocol hash of the context.
pub fn get_protocol(ctxt: &IrminContext) -> (r: Vec<u8>)
    ensures
        r@ == ctxt.protocol@,
{
    copy_bytes(&ctxt.protocol)
}

/// The context with a leaf `value` at `key`; at the reserved protocol key,
/// the context with `value` as its protocol hash.
pub fn set(ctxt: &IrminContext, key: &Vec<String>, value: &Vec<u8>) -> (r: IrminContext)
    requires
        ctxt.wf(),
        key@.len() > 0,
    ensures
        r.wf(),
        r@ == spec_set(ctxt@, key_view(key), value@),
{
    if is_protocol_key(key) {
        return set_protocol(ctxt, value);
    }
    let mut entries = prune_entries(&ctxt.entries, key, true);
    proof {
        assert(key_view(key).subrange(0, key_view(key).len() as int) =~= key_view(key));
    }
    insert_entry(&mut entries, Rc::new(Entry { key: copy_key(key), value: copy_bytes(value) }));
    proof {
        lemma_set_prefix_free(ctxt.leaves(), key_view(key), value@);
    }
    IrminContext { protocol: copy_bytes(&ctxt.protocol), entries }
}

/// The context with `value` as its protocol hash and the same tree.
pub fn set_protocol(ctxt: &IrminContext, value: &Vec<u8>) -> (r: IrminContext)
    requires
        ctxt.wf(),
    ensures
        r.wf(),
        r@ == spec_set(ctxt@, protocol_key(), value@),
{
    IrminContext { protocol: copy_bytes(value), entries: copy_entries(&ctxt.entries) }
}

/// The context without the subtree at `key`.
pub fn remove_rec(ctxt: &IrminContext, key: &Vec<String>) -> (r: IrminContext)
    requires
        ctxt.wf(),
        key@.len() > 0,
    ensures
        r.wf(),
        r@ == spec_remove(ctxt@, key_view(key)),
{
    let entries = prune_entries(&ctxt.entries, key, false);
    proof {
        lemma_remove_prefix_free(ctxt.leaves(), key_view(key));
    }
    IrminContext { protocol: copy_bytes(&ctxt.protocol), entries }
}

/// `to` followed by the segments of `key` from position `from_len` on.
fn join_suffix(to: &Vec<String>, key: &Vec<String>, from_len: usize) -> (r: Vec<String>)
    requires
        from_len <= key@.len(),
    ensures
        key_view(&r) == key_view(to) + key_view(key).skip(from_len as int),
{
    let mut r = copy_key(to);
    let mut i: usize = from_len;
    while i < key.len()
        invariant
            from_len <= i <= key@.len(),
            key_view(&r) == key_view(to) + key_view(key).subrange(from_len as int, i as int),
        decreases key@.len() - i,
    {
        let ghost before = key_view(&r);
        r.push(key[i].clone());
        assert(key_view(&r) =~= before.push(key@[i as int]@));
        assert(key_view(key).subrange(from_len as int, i + 1) =~= key_view(key).subrange(
            from_len as int,
            i as int,
        ).push(key@[i as int]@));
        i = i + 1;
    }
    assert(key_view(key).subrange(from_len as int, i as int) =~= key_view(key).skip(from_len as int));
    r
}

proof fn lemma_copy_onto_step(
    base: Map<KeyView, Seq<u8>>,
    src: Map<KeyView, Seq<u8>>,
    a: KeyView,
    b: KeyView,
    k: KeyView,
    v: Seq<u8>,
)
    requires
        !src.contains_key(k),
        forall|q: KeyView| #[trigger] base.contains_key(q) ==> !is_prefix(b, q),
    ensures
        is_prefix(a, k) ==> !copy_onto(base, src, a, b).contains_key(b + k.skip(a.len() as int)),
        is_prefix(a, k) ==> copy_onto(base, src.insert(k, v), a, b) == copy_onto(base, src, a, b).insert(
            b + k.skip(a.len() as int),
            v,
        ),
        !is_prefix(a, k) ==> copy_onto(base, src.insert(k, v), a, b) == copy_onto(base, src, a, b),
{
    let nk = b + k.skip(a.len() as int);
    if is_prefix(a, k) {
        assert(is_prefix(b, nk)) by {
            assert(nk.subrange(0, b.len() as int) =~= b);
        }
        assert(nk.skip(b.len() as int) =~= k.skip(a.len() as int));
        assert(a + nk.skip(b.len() as int) =~= k) by {
            assert(k.subrange(0, a.len() as int) == a);
        }
        assert forall|q: KeyView| #[trigger] copy_onto(base, src.insert(k, v), a, b).contains_key(q)
            == copy_onto(base, src, a, b).insert(nk, v).contains_key(q) && (copy_onto(
            base,
            src.insert(k, v),
            a,
            b,
        ).contains_key(q) ==> copy_onto(base, src.insert(k, v), a, b)[q] == copy_onto(
            base,
            src,
            a,
            b,
        ).insert(nk, v)[q]) by {
            if q != nk && is_prefix(b, q) && a + q.skip(b.len() as int) == k {
                assert(q =~= b + q.skip(b.len() as int)) by {
                    assert(q.subrange(0, b.len() as int) == b);
                }
                assert(q.skip(b.len() as int) =~= (a + q.skip(b.len() as int)).skip(a.len() as int));
            }
        }
        assert(copy_onto(base, src.insert(k, v), a, b) =~= copy_onto(base, src, a, b).insert(nk, v));
    } else {
        assert forall|q: KeyView| is_prefix(b, q) implies a + q.skip(b.len() as int) != k by {
            let c = a + q.skip(b.len() as int);
            assert(c.subrange(0, a.len() as int) =~= a);
        }
        assert(copy_onto(base, src.insert(k, v), a, b) =~= copy_onto(base, src, a, b));
    }
}

/// The context where the subtree at `to_key` is replaced by the subtree at
/// `from_key`; none where nothing stands at `from_key`.
pub fn copy(ctxt: &IrminContext, from_key: &Vec<String>, to_key: &Vec<String>) -> (r: Option<IrminContext>)
    requires
        ctxt.wf(),
        from_key@.len() > 0,
        to_key@.len() > 0,
    ensures
        r matches Some(c) ==> c.wf(),
        context_opt(r) == spec_copy(ctxt@, key_view(from_key), key_view(to_key)),
{
    let ghost sv = entries_view(ctxt.entries@);
    let ghost a = key_view(from_key);
    let ghost b = key_view(to_key);
    let ghost base = prune(leaf_map(sv), b, true);
    let mut out = prune_entries(&ctxt.entries, to_key, true);
    let mut found = false;
    let mut i: usize = 0;
    proof {
        assert(sv.take(0) =~= Seq::<EntryView>::empty());
        assert(copy_onto(base, leaf_map(sv.take(0)), a, b) =~= base);
    }
    while i < ctxt.entries.len()
        invariant
            sv == entries_view(ctxt.entries@),
            a == key_view(from_key),
            b == key_view(to_key),
            base == prune(leaf_map(sv), b, true),
            sorted(sv),
            i <= sv.len(),
            sorted(entries_view(out@)),
            leaf_map(entries_view(out@)) == copy_onto(base, leaf_map(sv.take(i as int)), a, b),
            found == exists|j: int| 0 <= j < i && #[trigger] is_prefix(a, sv[j].0),
        decreases sv.len() - i,
    {
        let ghost src = leaf_map(sv.take(i as int));
        let ghost k = sv[i as int].0;
        let ghost v = sv[i as int].1;
        proof {
            lemma_leaf_map_keys(sv.take(i as int));
            assert(!src.contains_key(k)) by {
                if src.contains_key(k) {
                    let j = choose|j: int| 0 <= j < sv.take(i as int).len() && sv.take(i as int)[j].0 == k;
                    lemma_key_lt_irreflexive_at(sv, j, i as int);
                }
            }
            assert(sv.take(i + 1) =~= sv.take(i as int).push(sv[i as int]));
            lemma_leaf_map_push(sv.take(i as int), sv[i as int]);
            lemma_copy_onto_step(base, src, a, b, k, v);
        }
        if key_has_prefix(from_key, &ctxt.entries[i].key, false) {
            let nk = join_suffix(to_key, &ctxt.entries[i].key, from_key.len());
            insert_entry(&mut out, Rc::new(Entry { key: nk, value: copy_bytes(&ctxt.entries[i].value) }));
            found = true;
        }
        i = i + 1;
    }
    proof {
        assert(sv.take(i as int) =~= sv);
        lemma_copy_prefix_free(leaf_map(sv), a, b);
        lemma_leaf_map_keys(sv);
        if found {
            let j = choose|j: int| 0 <= j < i && #[trigger] is_prefix(a, sv[j].0);
            assert(leaf_map(sv).contains_key(sv[j].0));
        }
        if subtree_present(leaf_map(sv), a) {
            let p = choose|p: KeyView| #[trigger] leaf_map(sv).contains_key(p) && is_prefix(a, p);
            let j = choose|j: int| 0 <= j < sv.len() && sv[j].0 == p;
            assert(is_prefix(a, sv[j].0));
        }
    }
    if found {
        Some(IrminContext { protocol: copy_bytes(&ctxt.protocol), entries: out })
    } else {
        None
    }
}

} // verus!
