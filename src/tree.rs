//! The tree of a context, held as its leaves in canonical order: a sequence
//! of (key, value) entries strictly sorted by `key_lt`.
use std::rc::Rc;
use vstd::prelude::*;
use crate::keys::{
    is_prefix, is_strict_prefix, key_eq, key_has_prefix, key_less, key_lt, key_view,
    lemma_key_lt_asymmetric, lemma_key_lt_irreflexive, lemma_key_lt_total,
    lemma_key_lt_transitive, KeyView,
};

verus! {

/// A leaf of the tree: its full key and its value.
pub struct Entry {
    pub key: Vec<String>,
    pub value: Vec<u8>,
}

pub type EntryView = (KeyView, Seq<u8>);

pub open spec fn entry_view(e: Entry) -> EntryView {
    (key_view(&e.key), e.value@)
}

/// Entries are shared between the contexts and snapshots that hold them.
pub open spec fn entries_view(v: Seq<Rc<Entry>>) -> Seq<EntryView> {
    v.map_values(|e: Rc<Entry>| entry_view(*e))
}

/// The leaves that a sequence of entries describes.
pub open spec fn leaf_map(s: Seq<EntryView>) -> Map<KeyView, Seq<u8>>
    decreases s.len(),
{
    if s.len() == 0 {
        Map::empty()
    } else {
        leaf_map(s.drop_first()).insert(s[0].0, s[0].1)
    }
}

/// Entries strictly ascending by key: the canonical order.
pub open spec fn sorted(s: Seq<EntryView>) -> bool {
    forall|i: int, j: int| 0 <= i < j < s.len() ==> key_lt(#[trigger] s[i].0, #[trigger] s[j].0)
}

/// Whether a leaf at `p` is dropped when the subtree at `k` is cleared; with
/// `ancestors`, leaves on the path to `k` are dropped as well.
pub open spec fn pruned(k: KeyView, p: KeyView, ancestors: bool) -> bool {
    is_prefix(k, p) || (ancestors && is_strict_prefix(p, k))
}

pub open spec fn prune(m: Map<KeyView, Seq<u8>>, k: KeyView, ancestors: bool) -> Map<KeyView, Seq<u8>> {
    Map::new(|p: KeyView| m.contains_key(p) && !pruned(k, p, ancestors), |p: KeyView| m[p])
}

pub proof fn lemma_leaf_map_keys(s: Seq<EntryView>)
    ensures
        forall|k: KeyView|
            #[trigger] leaf_map(s).contains_key(k) <==> exists|i: int| 0 <= i < s.len() && s[i].0 == k,
    decreases s.len(),
{
    if s.len() > 0 {
        lemma_leaf_map_keys(s.drop_first());
        assert forall|k: KeyView| #[trigger] leaf_map(s).contains_key(k) <==> exists|i: int|
            0 <= i < s.len() && s[i].0 == k by {
            if k == s[0].0 {
                assert(0 <= 0 < s.len() && s[0].0 == k);
            } else if leaf_map(s).contains_key(k) {
                assert(leaf_map(s.drop_first()).contains_key(k));
                let j = choose|j: int| 0 <= j < s.drop_first().len() && s.drop_first()[j].0 == k;
                assert(s[j + 1].0 == k);
            }
            if exists|i: int| 0 <= i < s.len() && s[i].0 == k {
                let i = choose|i: int| 0 <= i < s.len() && s[i].0 == k;
                if i > 0 {
                    assert(s.drop_first()[i - 1].0 == k);
                    assert(leaf_map(s.drop_first()).contains_key(k));
                }
            }
        }
    }
}

pub proof fn lemma_leaf_map_at(s: Seq<EntryView>, i: int)
    requires
        sorted(s),
        0 <= i < s.len(),
    ensures
        leaf_map(s).contains_key(s[i].0),
        leaf_map(s)[s[i].0] == s[i].1,
    decreases i,
{
    if i > 0 {
        assert(sorted(s.drop_first()));
        lemma_leaf_map_at(s.drop_first(), i - 1);
        assert(key_lt(s[0].0, s[i].0));
        lemma_key_lt_irreflexive(s[0].0);
    }
}

/// Keys at two positions of a sorted sequence differ.
pub proof fn lemma_key_lt_irreflexive_at(s: Seq<EntryView>, j: int, i: int)
    requires
        sorted(s),
        0 <= j < i < s.len(),
    ensures
        s[j].0 != s[i].0,
{
    assert(key_lt(s[j].0, s[i].0));
    lemma_key_lt_irreflexive(s[i].0);
}

pub proof fn lemma_leaf_map_push(s: Seq<EntryView>, e: EntryView)
    requires
        !leaf_map(s).contains_key(e.0),
    ensures
        leaf_map(s.push(e)) == leaf_map(s).insert(e.0, e.1),
    decreases s.len(),
{
    if s.len() == 0 {
        assert(s.push(e).drop_first() =~= s);
    } else {
        assert(s.push(e).drop_first() =~= s.drop_first().push(e));
        lemma_leaf_map_push(s.drop_first(), e);
        assert(leaf_map(s.push(e)) =~= leaf_map(s).insert(e.0, e.1));
    }
}

pub proof fn lemma_leaf_map_insert(s: Seq<EntryView>, pos: int, e: EntryView)
    requires
        0 <= pos <= s.len(),
        !leaf_map(s).contains_key(e.0),
    ensures
        leaf_map(s.insert(pos, e)) == leaf_map(s).insert(e.0, e.1),
    decreases pos,
{
    if pos == 0 {
        assert(s.insert(0, e).drop_first() =~= s);
    } else {
        assert(s.insert(pos, e).drop_first() =~= s.drop_first().insert(pos - 1, e));
        assert(!leaf_map(s.drop_first()).contains_key(e.0)) by {
            lemma_leaf_map_keys(s);
            lemma_leaf_map_keys(s.drop_first());
            if leaf_map(s.drop_first()).contains_key(e.0) {
                let j = choose|j: int| 0 <= j < s.drop_first().len() && s.drop_first()[j].0 == e.0;
                assert(s[j + 1].0 == e.0);
            }
        }
        lemma_leaf_map_insert(s.drop_first(), pos - 1, e);
        assert(leaf_map(s.insert(pos, e)) =~= leaf_map(s).insert(e.0, e.1));
    }
}

/// Two sorted entry sequences that describe the same leaves are equal.
pub proof fn lemma_sorted_unique(x: Seq<EntryView>, y: Seq<EntryView>)
    requires
        sorted(x),
        sorted(y),
        leaf_map(x) == leaf_map(y),
    ensures
        x == y,
    decreases x.len(),
{
    lemma_leaf_map_keys(x);
    lemma_leaf_map_keys(y);
    if x.len() == 0 {
        if y.len() > 0 {
            assert(leaf_map(y).contains_key(y[0].0));
        }
        assert(x =~= y);
    } else if y.len() == 0 {
        assert(leaf_map(x).contains_key(x[0].0));
    } else {
        assert(leaf_map(y).contains_key(x[0].0));
        assert(leaf_map(x).contains_key(y[0].0));
        let j = choose|j: int| 0 <= j < y.len() && y[j].0 == x[0].0;
        let i = choose|i: int| 0 <= i < x.len() && x[i].0 == y[0].0;
        if j > 0 {
            assert(key_lt(y[0].0, y[j].0));
            if i > 0 {
                assert(key_lt(x[0].0, x[i].0));
                lemma_key_lt_asymmetric(x[0].0, y[0].0);
            } else {
                lemma_key_lt_irreflexive(y[0].0);
            }
        }
        assert(y[0].0 == x[0].0);
        lemma_leaf_map_at(x, 0);
        lemma_leaf_map_at(y, 0);
        assert(x[0] == y[0]);
        let k = x[0].0;
        assert(!leaf_map(x.drop_first()).contains_key(k)) by {
            lemma_leaf_map_keys(x.drop_first());
            if leaf_map(x.drop_first()).contains_key(k) {
                let m = choose|m: int| 0 <= m < x.drop_first().len() && x.drop_first()[m].0 == k;
                assert(key_lt(x[0].0, x[m + 1].0));
                lemma_key_lt_irreflexive(k);
            }
        }
        assert(!leaf_map(y.drop_first()).contains_key(k)) by {
            lemma_leaf_map_keys(y.drop_first());
            if leaf_map(y.drop_first()).contains_key(k) {
                let m = choose|m: int| 0 <= m < y.drop_first().len() && y.drop_first()[m].0 == k;
                assert(key_lt(y[0].0, y[m + 1].0));
                lemma_key_lt_irreflexive(k);
            }
        }
        assert(leaf_map(x.drop_first()) =~= leaf_map(x).remove(k));
        assert(leaf_map(y.drop_first()) =~= leaf_map(y).remove(k));
        assert(sorted(x.drop_first()));
        assert(sorted(y.drop_first()));
        lemma_sorted_unique(x.drop_first(), y.drop_first());
        assert(x =~= seq![x[0]] + x.drop_first());
        assert(y =~= seq![y[0]] + y.drop_first());
    }
}

/// A copy of a byte string.
pub fn copy_bytes(v: &Vec<u8>) -> (r: Vec<u8>)
    ensures
        r@ == v@,
{
    vstd::slice::slice_to_vec(v.as_slice())
}

/// A copy of a key.
pub fn copy_key(k: &Vec<String>) -> (r: Vec<String>)
    ensures
        key_view(&r) == key_view(k),
{
    let mut r: Vec<String> = Vec::new();
    let mut i: usize = 0;
    while i < k.len()
        invariant
            i <= k@.len(),
            r@.len() == i,
            forall|j: int| 0 <= j < i ==> #[trigger] r@[j]@ == k@[j]@,
        decreases k@.len() - i,
    {
        r.push(k[i].clone());
        i = i + 1;
    }
    assert(key_view(&r) =~= key_view(k));
    r
}

/// A new sequence that shares the entries of `s`.
pub fn copy_entries(s: &Vec<Rc<Entry>>) -> (r: Vec<Rc<Entry>>)
    ensures
        entries_view(r@) == entries_view(s@),
{
    let mut r: Vec<Rc<Entry>> = Vec::new();
    let mut i: usize = 0;
    while i < s.len()
        invariant
            i <= s@.len(),
            r@.len() == i,
            forall|j: int| 0 <= j < i ==> #[trigger] r@[j] == s@[j],
        decreases s@.len() - i,
    {
        r.push(s[i].clone());
        i = i + 1;
    }
    assert(entries_view(r@) =~= entries_view(s@));
    r
}

/// The position of the entry with key `k`, if there is one.
pub fn find_entry(s: &Vec<Rc<Entry>>, k: &Vec<String>) -> (r: Option<usize>)
    ensures
        match r {
            Some(i) => i < s@.len() && entries_view(s@)[i as int].0 == key_view(k),
            None => !leaf_map(entries_view(s@)).contains_key(key_view(k)),
        },
{
    let ghost sv = entries_view(s@);
    let mut i: usize = 0;
    while i < s.len()
        invariant
            sv == entries_view(s@),
            i <= s@.len(),
            forall|j: int| 0 <= j < i ==> #[trigger] sv[j].0 != key_view(k),
        decreases s@.len() - i,
    {
        if key_eq(&s[i].key, k) {
            return Some(i);
        }
        i = i + 1;
    }
    proof {
        lemma_leaf_map_keys(sv);
    }
    None
}

/// Whether some leaf lies strictly below `k`.
pub fn has_leaf_below(s: &Vec<Rc<Entry>>, k: &Vec<String>) -> (r: bool)
    ensures
        r == exists|p: KeyView|
            #[trigger] leaf_map(entries_view(s@)).contains_key(p) && is_strict_prefix(key_view(k), p),
{
    let ghost sv = entries_view(s@);
    proof {
        lemma_leaf_map_keys(sv);
    }
    let mut i: usize = 0;
    while i < s.len()
        invariant
            sv == entries_view(s@),
            i <= s@.len(),
            forall|j: int| 0 <= j < i ==> !is_strict_prefix(key_view(k), #[trigger] sv[j].0),
            forall|p: KeyView|
                #[trigger] leaf_map(sv).contains_key(p) <==> exists|j: int| 0 <= j < sv.len() && sv[j].0 == p,
        decreases s@.len() - i,
    {
        if key_has_prefix(k, &s[i].key, true) {
            assert(leaf_map(sv).contains_key(sv[i as int].0));
            return true;
        }
        i = i + 1;
    }
    false
}

/// The entries that remain when the subtree at `k` is cleared (with
/// `ancestors`, also the leaves on the path to `k`).
pub fn prune_entries(s: &Vec<Rc<Entry>>, k: &Vec<String>, ancestors: bool) -> (r: Vec<Rc<Entry>>)
    requires
        sorted(entries_view(s@)),
    ensures
        sorted(entries_view(r@)),
        leaf_map(entries_view(r@)) == prune(leaf_map(entries_view(s@)), key_view(k), ancestors),
{
    let ghost sv = entries_view(s@);
    let ghost kv = key_view(k);
    let mut r: Vec<Rc<Entry>> = Vec::new();
    let mut i: usize = 0;
    assert(sv.take(0) =~= Seq::<EntryView>::empty());
    assert(entries_view(r@) =~= Seq::<EntryView>::empty());
    assert(prune(leaf_map(sv.take(0)), kv, ancestors) =~= Map::empty());
    while i < s.len()
        invariant
            sv == entries_view(s@),
            kv == key_view(k),
            sorted(sv),
            i <= s@.len(),
            sorted(entries_view(r@)),
            forall|j: int, m: int|
                0 <= j < r@.len() && i <= m < sv.len() ==> key_lt(
                    #[trigger] entries_view(r@)[j].0,
                    #[trigger] sv[m].0,
                ),
            leaf_map(entries_view(r@)) == prune(leaf_map(sv.take(i as int)), kv, ancestors),
        decreases s@.len() - i,
    {
        let ghost rv = entries_view(r@);
        let drop = key_has_prefix(k, &s[i].key, false) || (ancestors && key_has_prefix(
            &s[i].key,
            k,
            true,
        ));
        proof {
            lemma_leaf_map_keys(sv.take(i as int));
            assert(!leaf_map(sv.take(i as int)).contains_key(sv[i as int].0)) by {
                if leaf_map(sv.take(i as int)).contains_key(sv[i as int].0) {
                    let j = choose|j: int|
                        0 <= j < sv.take(i as int).len() && sv.take(i as int)[j].0 == sv[i as int].0;
                    assert(key_lt(sv[j].0, sv[i as int].0));
                    lemma_key_lt_irreflexive(sv[i as int].0);
                }
            }
            assert(sv.take(i + 1) =~= sv.take(i as int).push(sv[i as int]));
            lemma_leaf_map_push(sv.take(i as int), sv[i as int]);
        }
        if !drop {
            r.push(s[i].clone());
            proof {
                assert(entries_view(r@) =~= rv.push(sv[i as int]));
                lemma_leaf_map_keys(rv);
                assert(!leaf_map(rv).contains_key(sv[i as int].0)) by {
                    if leaf_map(rv).contains_key(sv[i as int].0) {
                        let j = choose|j: int| 0 <= j < rv.len() && rv[j].0 == sv[i as int].0;
                        assert(key_lt(rv[j].0, sv[i as int].0));
                        lemma_key_lt_irreflexive(sv[i as int].0);
                    }
                }
                lemma_leaf_map_push(rv, sv[i as int]);
                assert(leaf_map(entries_view(r@)) =~= prune(leaf_map(sv.take(i + 1)), kv, ancestors));
            }
        } else {
            proof {
                assert(leaf_map(entries_view(r@)) =~= prune(leaf_map(sv.take(i + 1)), kv, ancestors));
            }
        }
        i = i + 1;
    }
    assert(sv.take(i as int) =~= sv);
    r
}

/// Adds an entry at its place in the order.
pub fn insert_entry(s: &mut Vec<Rc<Entry>>, e: Rc<Entry>)
    requires
        sorted(entries_view(old(s)@)),
        !leaf_map(entries_view(old(s)@)).contains_key(entry_view(*e).0),
    ensures
        sorted(entries_view(final(s)@)),
        leaf_map(entries_view(final(s)@)) == leaf_map(entries_view(old(s)@)).insert(
            entry_view(*e).0,
            entry_view(*e).1,
        ),
{
    let ghost sv = entries_view(s@);
    let ghost kv = key_view(&e.key);
    proof {
        lemma_leaf_map_keys(sv);
    }
    let mut pos: usize = 0;
    while pos < s.len()
        invariant
            sv == entries_view(s@),
            kv == entry_view(*e).0,
            pos <= s@.len(),
            forall|j: int| 0 <= j < pos ==> key_lt(#[trigger] sv[j].0, kv),
            forall|j: int| 0 <= j < sv.len() ==> #[trigger] sv[j].0 != kv,
        ensures
            pos <= s@.len(),
            forall|j: int| 0 <= j < pos ==> key_lt(#[trigger] sv[j].0, kv),
            pos < sv.len() ==> key_lt(kv, sv[pos as int].0),
        decreases s@.len() - pos,
    {
        if key_less(&e.key, &s[pos].key) {
            break;
        }
        proof {
            assert(sv[pos as int].0 != kv);
            lemma_key_lt_total(sv[pos as int].0, kv);
        }
        pos = pos + 1;
    }
    assert(pos < sv.len() ==> key_lt(kv, sv[pos as int].0));
    let ghost ev = (key_view(&e.key), e.value@);
    s.insert(pos, e);
    proof {
        assert(entries_view(s@) =~= sv.insert(pos as int, ev));
        lemma_leaf_map_insert(sv, pos as int, ev);
        let nv = entries_view(s@);
        assert forall|i: int, j: int| 0 <= i < j < nv.len() implies key_lt(
            #[trigger] nv[i].0,
            #[trigger] nv[j].0,
        ) by {
            if j < pos {
            } else if j == pos {
            } else if i < pos {
                if j - 1 > pos {
                    assert(key_lt(sv[pos as int].0, sv[j - 1].0));
                    lemma_key_lt_transitive(kv, sv[pos as int].0, sv[j - 1].0);
                }
                lemma_key_lt_transitive(sv[i].0, kv, sv[j - 1].0);
            } else if i == pos {
                if j - 1 > pos {
                    assert(key_lt(sv[pos as int].0, sv[j - 1].0));
                    lemma_key_lt_transitive(kv, sv[pos as int].0, sv[j - 1].0);
                }
            } else {
                assert(key_lt(sv[i - 1].0, sv[j - 1].0));
            }
        }
    }
}

} // verus!
