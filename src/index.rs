//! The store: a table from commit hash to committed snapshot, opened by
//! `init` and extended by `commit`.
use std::rc::Rc;
use vstd::prelude::*;
use vstd::string::*;
use vstd::utf8::encode_utf8;
use crate::context::{prefix_free, spec_set, tree_set, ContextView, IrminContext};
use crate::encode::{blake2b_256, commit_bytes, digest, encode_commit};
use crate::keys::{key_view, KeyView};
use crate::tree::{copy_bytes, copy_entries, entries_view, leaf_map, sorted, Entry, EntryView};

verus! {

/// The hash of a committed context.
pub struct ContextHash(pub Vec<u8>);

/// The hash of a protocol.
pub struct ProtocolHash(pub Vec<u8>);

/// A committed snapshot under its hash.
pub struct Commit {
    pub hash: Vec<u8>,
    pub protocol: Vec<u8>,
    pub entries: Vec<Rc<Entry>>,
}

/// A committed snapshot: its protocol hash and its entries.
pub type SnapshotView = (Seq<u8>, Seq<EntryView>);

pub open spec fn commit_view(c: Commit) -> (Seq<u8>, SnapshotView) {
    (c.hash@, (c.protocol@, entries_view(c.entries@)))
}

pub open spec fn commits_view(s: Seq<Commit>) -> Seq<(Seq<u8>, SnapshotView)> {
    s.map_values(|c: Commit| commit_view(c))
}

/// The commit table; a later commit under the same hash wins.
pub open spec fn store_map(s: Seq<(Seq<u8>, SnapshotView)>) -> Map<Seq<u8>, SnapshotView>
    decreases s.len(),
{
    if s.len() == 0 {
        Map::empty()
    } else {
        store_map(s.drop_last()).insert(s.last().0, s.last().1)
    }
}

/// The hash that `commit` gives a context at a time with a message.
pub open spec fn context_hash(time: i64, message: Seq<char>, c: IrminContext) -> Seq<u8> {
    blake2b_256(commit_bytes(time, message, c.protocol@, entries_view(c.entries@)))
}

/// An open store.
pub struct IrminContextIndex {
    pub data_dir: String,
    pub commits: Vec<Commit>,
}

impl IrminContextIndex {
    /// Every committed snapshot is in canonical order, with no leaf below
    /// another.
    pub open spec fn wf(&self) -> bool {
        forall|i: int|
            0 <= i < self.commits@.len() ==> sorted(#[trigger] commits_view(self.commits@)[i].1.1)
                && prefix_free(leaf_map(commits_view(self.commits@)[i].1.1))
    }

    /// The committed snapshots by hash.
    pub open spec fn store(&self) -> Map<Seq<u8>, SnapshotView> {
        store_map(commits_view(self.commits@))
    }
}

/// The three identifiers of the genesis and the optional patch, as given.
pub open spec fn init_rejected(
    data_dir: Seq<char>,
    network: Seq<char>,
    chain: Seq<char>,
    protocol: Seq<char>,
    patch: Option<(Seq<char>, Seq<char>)>,
) -> bool {
    data_dir.len() == 0 || network.len() == 0 || chain.len() == 0 || protocol.len() == 0 || (
    patch matches Some(p) && p.0.len() == 0)
}

pub open spec fn genesis_network_key() -> KeyView {
    seq!["genesis"@, "network"@]
}

pub open spec fn genesis_chain_key() -> KeyView {
    seq!["genesis"@, "chain"@]
}

/// The genesis state before its patch: the protocol identifier as protocol
/// hash, and the network and chain identifiers as leaves.
pub open spec fn genesis_base(network: Seq<char>, chain: Seq<char>, protocol: Seq<char>) -> ContextView {
    ContextView {
        protocol: encode_utf8(protocol),
        leaves: tree_set(
            tree_set(Map::empty(), genesis_network_key(), encode_utf8(network)),
            genesis_chain_key(),
            encode_utf8(chain),
        ),
    }
}

/// The genesis state: the base with the patch written as by `set` at the
/// one-segment key it names.
pub open spec fn genesis_state(
    network: Seq<char>,
    chain: Seq<char>,
    protocol: Seq<char>,
    patch: Option<(Seq<char>, Seq<char>)>,
) -> ContextView {
    let base = genesis_base(network, chain, protocol);
    match patch {
        None => base,
        Some(p) => spec_set(base, seq![p.0], encode_utf8(p.1)),
    }
}

/// The state a committed snapshot stands for.
pub open spec fn snapshot_state(s: SnapshotView) -> ContextView {
    ContextView { protocol: s.0, leaves: leaf_map(s.1) }
}

pub open spec fn patch_view(p: Option<(String, String)>) -> Option<(Seq<char>, Seq<char>)> {
    match p {
        Some(kv) => Some((kv.0@, kv.1@)),
        None => None,
    }
}

fn bytes_equal(a: &Vec<u8>, b: &Vec<u8>) -> (r: bool)
    ensures
        r == (a@ == b@),
{
    if a.len() != b.len() {
        return false;
    }
    let mut i: usize = 0;
    while i < a.len()
        invariant
            a@.len() == b@.len(),
            i <= a@.len(),
            forall|j: int| 0 <= j < i ==> a@[j] == b@[j],
        decreases a@.len() - i,
    {
        if a[i] != b[i] {
            return false;
        }
        i = i + 1;
    }
    assert(a@ =~= b@);
    true
}

/// The context committed under `hash`; none if no commit has that hash.
pub fn checkout(ctxt_idx: &IrminContextIndex, hash: &ContextHash) -> (r: Option<IrminContext>)
    requires
        ctxt_idx.wf(),
    ensures
        r is None <==> !ctxt_idx.store().contains_key(hash.0@),
        r matches Some(c) ==> c.wf() && (c.protocol@, entries_view(c.entries@)) == ctxt_idx.store()[hash.0@]
            && c@ == snapshot_state(ctxt_idx.store()[hash.0@]),
{
    let ghost cv = commits_view(ctxt_idx.commits@);
    let ghost h = hash.0@;
    let mut i: usize = ctxt_idx.commits.len();
    assert(cv.take(i as int) =~= cv);
    while i > 0
        invariant
            ctxt_idx.wf(),
            cv == commits_view(ctxt_idx.commits@),
            h == hash.0@,
            i <= cv.len(),
            store_map(cv).contains_key(h) == store_map(cv.take(i as int)).contains_key(h),
            store_map(cv).contains_key(h) ==> store_map(cv)[h] == store_map(cv.take(i as int))[h],
        decreases i,
    {
        assert(cv.take(i as int).drop_last() =~= cv.take(i - 1));
        assert(cv.take(i as int).last() == cv[i - 1]);
        if bytes_equal(&ctxt_idx.commits[i - 1].hash, &hash.0) {
            let c = &ctxt_idx.commits[i - 1];
            assert(sorted(cv[i - 1].1.1) && prefix_free(leaf_map(cv[i - 1].1.1)));
            return Some(IrminContext { protocol: copy_bytes(&c.protocol), entries: copy_entries(&c.entries) });
        }
        i = i - 1;
    }
    assert(cv.take(0) =~= Seq::<(Seq<u8>, SnapshotView)>::empty());
    None
}

/// Registers the context in the store under its hash, which covers the
/// time, the message, the protocol hash and the whole tree, and returns the
/// hash. The context itself is left as it was.
pub fn commit(ctxt_idx: &mut IrminContextIndex, time: i64, message: &str, ctxt: &IrminContext) -> (r: ContextHash)
    requires
        old(ctxt_idx).wf(),
        ctxt.wf(),
    ensures
        final(ctxt_idx).wf(),
        final(ctxt_idx).data_dir == old(ctxt_idx).data_dir,
        r.0@ == context_hash(time, message@, *ctxt),
        final(ctxt_idx).store() == old(ctxt_idx).store().insert(
            r.0@,
            (ctxt.protocol@, entries_view(ctxt.entries@)),
        ),
{
    let bytes = encode_commit(time, message, &ctxt.protocol, &ctxt.entries);
    let hash = digest(&bytes);
    let entry = Commit { hash: copy_bytes(&hash), protocol: copy_bytes(&ctxt.protocol), entries: copy_entries(&ctxt.entries) };
    let ghost before = commits_view(ctxt_idx.commits@);
    ctxt_idx.commits.push(entry);
    proof {
        let after = commits_view(ctxt_idx.commits@);
        assert(after =~= before.push(commit_view(entry)));
        assert(after.drop_last() =~= before);
        assert forall|i: int| 0 <= i < after.len() implies sorted(#[trigger] after[i].1.1) && prefix_free(
            leaf_map(after[i].1.1),
        ) by {
            if i < before.len() {
                assert(after[i] == before[i]);
            }
        }
    }
    ContextHash(hash)
}

/// Opens a store at `data_dir` and commits its genesis: the protocol
/// identifier as protocol hash, the network and chain identifiers as leaves
/// under `genesis`, and the patch, if any, written at the key it names.
/// Empty identifiers, an empty directory or an empty patch key are refused.
pub fn init(
    data_dir: &str,
    genesis: (String, String, String),
    sandbox_json_patch_context: Option<(String, String)>,
) -> (r: Result<(IrminContextIndex, ContextHash), String>)
    ensures
        r is Err <==> init_rejected(
            data_dir@,
            genesis.0@,
            genesis.1@,
            genesis.2@,
            patch_view(sandbox_json_patch_context),
        ),
        r matches Ok((idx, h)) ==> {
            let g = genesis_state(
                genesis.0@,
                genesis.1@,
                genesis.2@,
                patch_view(sandbox_json_patch_context),
            );
            &&& idx.wf()
            &&& idx.data_dir@ == data_dir@
            &&& idx.store().dom() == set![h.0@]
            &&& snapshot_state(idx.store()[h.0@]) == g
            &&& h.0@ == blake2b_256(
                commit_bytes(0, "genesis"@, idx.store()[h.0@].0, idx.store()[h.0@].1),
            )
        },
{
    let (network, chain, protocol) = genesis;
    if data_dir.unicode_len() == 0 {
        return Err(String::from_str("the data directory is empty"));
    }
    if network.as_str().unicode_len() == 0 || chain.as_str().unicode_len() == 0
        || protocol.as_str().unicode_len() == 0 {
        return Err(String::from_str("a genesis identifier is empty"));
    }
    if let Some((k, _)) = &sandbox_json_patch_context {
        if k.as_str().unicode_len() == 0 {
            return Err(String::from_str("the sandbox patch names an empty key"));
        }
    }
    let empty = IrminContext { protocol: protocol.as_str().as_bytes_vec(), entries: Vec::new() };
    proof {
        assert(entries_view(empty.entries@) =~= Seq::<EntryView>::empty());
        assert(leaf_map(entries_view(empty.entries@)) =~= Map::empty());
        assert(empty.wf());
    }
    let network_key = vec![String::from_str("genesis"), String::from_str("network")];
    let chain_key = vec![String::from_str("genesis"), String::from_str("chain")];
    assert(key_view(&network_key) =~= genesis_network_key());
    assert(key_view(&chain_key) =~= genesis_chain_key());
    let c1 = crate::context::set(&empty, &network_key, &network.as_str().as_bytes_vec());
    let c2 = crate::context::set(&c1, &chain_key, &chain.as_str().as_bytes_vec());
    let c3 = match sandbox_json_patch_context {
        Some((k, v)) => {
            let key = vec![k];
            assert(key_view(&key) =~= seq![key@[0]@]);
            crate::context::set(&c2, &key, &v.as_str().as_bytes_vec())
        },
        None => c2,
    };
    let mut idx = IrminContextIndex { data_dir: String::from_str(data_dir), commits: Vec::new() };
    proof {
        assert(commits_view(idx.commits@) =~= Seq::<(Seq<u8>, SnapshotView)>::empty());
        assert(idx.store() =~= Map::empty());
    }
    let h = commit(&mut idx, 0, "genesis", &c3);
    assert(idx.store().dom() =~= set![h.0@]);
    Ok((idx, h))
}

/// Closes the store.
pub fn close(index: IrminContextIndex) {
    let _ = index;
}

} // verus!
