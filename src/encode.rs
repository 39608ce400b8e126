//! The byte string that a commit hash is taken over, and the digest itself.
use std::rc::Rc;
use vstd::prelude::*;
use vstd::utf8::encode_utf8;
use crate::keys::{key_view, KeyView};
use crate::tree::{entries_view, Entry, EntryView};

verus! {

/// `n` bytes of `x`, least significant first.
pub open spec fn le_bytes(x: nat, n: nat) -> Seq<u8>
    decreases n,
{
    if n == 0 {
        Seq::empty()
    } else {
        seq![(x % 256) as u8] + le_bytes(x / 256, (n - 1) as nat)
    }
}

pub open spec fn u64_bytes(x: u64) -> Seq<u8> {
    le_bytes(x as nat, 8)
}

/// A byte string preceded by its length.
pub open spec fn framed(b: Seq<u8>) -> Seq<u8> {
    u64_bytes(b.len() as u64) + b
}

pub open spec fn segments_bytes(k: KeyView) -> Seq<u8>
    decreases k.len(),
{
    if k.len() == 0 {
        Seq::empty()
    } else {
        segments_bytes(k.drop_last()) + framed(encode_utf8(k.last()))
    }
}

pub open spec fn key_bytes(k: KeyView) -> Seq<u8> {
    u64_bytes(k.len() as u64) + segments_bytes(k)
}

pub open spec fn entry_bytes(e: EntryView) -> Seq<u8> {
    key_bytes(e.0) + framed(e.1)
}

pub open spec fn entries_bytes(s: Seq<EntryView>) -> Seq<u8>
    decreases s.len(),
{
    if s.len() == 0 {
        Seq::empty()
    } else {
        entries_bytes(s.drop_last()) + entry_bytes(s.last())
    }
}

/// What a commit hash covers: the time, the message, the protocol hash and
/// every leaf in canonical order.
pub open spec fn commit_bytes(time: i64, message: Seq<char>, protocol: Seq<u8>, s: Seq<EntryView>) -> Seq<u8> {
    u64_bytes(time as u64) + framed(encode_utf8(message)) + framed(protocol) + u64_bytes(
        s.len() as u64,
    ) + entries_bytes(s)
}

/// The 32-byte BLAKE2b digest of a byte string.
pub uninterp spec fn blake2b_256(data: Seq<u8>) -> Seq<u8>;

/// Relies on `blake2::Blake2b<U32>` through `Digest::digest`: the BLAKE2b
/// digest of the input with a 32-byte output.
#[verifier::external_body]
pub(crate) fn digest(data: &Vec<u8>) -> (r: Vec<u8>)
    ensures
        r@ == blake2b_256(data@),
        r@.len() == 32,
{
    <blake2::Blake2b<blake2::digest::consts::U32> as blake2::Digest>::digest(data.as_slice()).to_vec()
}

fn push_u64(out: &mut Vec<u8>, x: u64)
    ensures
        final(out)@ == old(out)@ + u64_bytes(x),
{
    let ghost start = out@;
    let mut cur: u64 = x;
    let mut i: usize = 0;
    assert(start + u64_bytes(x) =~= out@ + le_bytes(cur as nat, 8));
    while i < 8
        invariant
            i <= 8,
            start + u64_bytes(x) == out@ + le_bytes(cur as nat, (8 - i) as nat),
        decreases 8 - i,
    {
        let ghost rest = le_bytes(cur as nat, (8 - i) as nat);
        assert(rest == seq![(cur as nat % 256) as u8] + le_bytes(cur as nat / 256, (8 - i - 1) as nat));
        let ghost before = out@;
        out.push((cur % 256) as u8);
        assert(out@ + le_bytes((cur / 256) as nat, (8 - (i + 1)) as nat) =~= before + rest);
        cur = cur / 256;
        i = i + 1;
    }
    assert(le_bytes(cur as nat, 0) =~= Seq::<u8>::empty());
    assert(out@ =~= start + u64_bytes(x));
}

fn push_bytes(out: &mut Vec<u8>, b: &[u8])
    ensures
        final(out)@ == old(out)@ + b@,
{
    let ghost start = out@;
    let mut i: usize = 0;
    while i < b.len()
        invariant
            i <= b@.len(),
            out@ == start + b@.subrange(0, i as int),
        decreases b@.len() - i,
    {
        out.push(b[i]);
        assert(b@.subrange(0, i + 1) =~= b@.subrange(0, i as int).push(b@[i as int]));
        i = i + 1;
    }
    assert(b@.subrange(0, b@.len() as int) =~= b@);
}

fn push_framed(out: &mut Vec<u8>, b: &[u8])
    ensures
        final(out)@ == old(out)@ + framed(b@),
{
    push_u64(out, b.len() as u64);
    push_bytes(out, b);
    assert(final(out)@ =~= old(out)@ + framed(b@));
}

fn push_key(out: &mut Vec<u8>, k: &Vec<String>)
    ensures
        final(out)@ == old(out)@ + key_bytes(key_view(k)),
{
    let ghost kv = key_view(k);
    push_u64(out, k.len() as u64);
    let ghost mid = out@;
    let mut i: usize = 0;
    assert(kv.take(0) =~= Seq::<Seq<char>>::empty());
    assert(mid =~= mid + segments_bytes(kv.take(0)));
    while i < k.len()
        invariant
            kv == key_view(k),
            i <= k@.len(),
            out@ == mid + segments_bytes(kv.take(i as int)),
        decreases k@.len() - i,
    {
        push_framed(out, k[i].as_str().as_bytes());
        assert(kv.take(i + 1).drop_last() =~= kv.take(i as int));
        assert(kv.take(i + 1).last() == k@[i as int]@);
        assert(out@ =~= mid + segments_bytes(kv.take(i + 1)));
        i = i + 1;
    }
    assert(kv.take(i as int) =~= kv);
    assert(out@ =~= old(out)@ + key_bytes(kv));
}

/// The bytes that `commit_bytes` describes.
pub fn encode_commit(time: i64, message: &str, protocol: &Vec<u8>, entries: &Vec<Rc<Entry>>) -> (r: Vec<u8>)
    ensures
        r@ == commit_bytes(time, message@, protocol@, entries_view(entries@)),
{
    let ghost sv = entries_view(entries@);
    let mut out: Vec<u8> = Vec::new();
    push_u64(&mut out, time as u64);
    push_framed(&mut out, message.as_bytes());
    push_framed(&mut out, protocol.as_slice());
    push_u64(&mut out, entries.len() as u64);
    let ghost mid = out@;
    let mut i: usize = 0;
    assert(sv.take(0) =~= Seq::<EntryView>::empty());
    assert(mid =~= mid + entries_bytes(sv.take(0)));
    while i < entries.len()
        invariant
            sv == entries_view(entries@),
            i <= entries@.len(),
            out@ == mid + entries_bytes(sv.take(i as int)),
        decreases entries@.len() - i,
    {
        let ghost before = out@;
        push_key(&mut out, &entries[i].key);
        push_framed(&mut out, entries[i].value.as_slice());
        assert(sv.take(i + 1).drop_last() =~= sv.take(i as int));
        assert(sv.take(i + 1).last() == sv[i as int]);
        assert(out@ =~= mid + entries_bytes(sv.take(i + 1)));
        i = i + 1;
    }
    assert(sv.take(i as int) =~= sv);
    assert(out@ =~= commit_bytes(time, message@, protocol@, sv));
    out
}

} // verus!
