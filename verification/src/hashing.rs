//! A hash of a key, by which a keyed map finds a key without looking at every
//! entry. Equal keys have equal hashes; nothing else is asked of it.

use vstd::prelude::*;
use vstd::utf8::encode_utf8;

verus! {

/// The hash after one more byte.
pub open spec fn hash_step(h: u64, byte: u8) -> u64 {
    ((h * 1000003 + byte + 1) % 4294967291) as u64
}

/// The hash after a run of bytes.
pub open spec fn hash_bytes(h: u64, bytes: Seq<u8>) -> u64
    decreases bytes.len(),
{
    if bytes.len() == 0 {
        h
    } else {
        hash_step(hash_bytes(h, bytes.drop_last()), bytes.last())
    }
}

/// The hash of a key: its cells one after the other, each as its bytes in
/// UTF-8 and followed by a byte that no cell holds.
pub open spec fn key_hash(key: Seq<Seq<char>>) -> u64
    decreases key.len(),
{
    if key.len() == 0 {
        0
    } else {
        hash_step(hash_bytes(key_hash(key.drop_last()), encode_utf8(key.last())), 0xff)
    }
}

/// The hash after one more byte.
fn step(h: u64, byte: u8) -> (r: u64)
    requires
        h < 0x1_0000_0000,
    ensures
        r == hash_step(h, byte),
        r < 0x1_0000_0000,
{
    (h * 1000003 + (byte as u64) + 1) % 4294967291
}

/// The hash after the bytes of one cell.
fn hash_text(h: u64, text: &String) -> (r: u64)
    requires
        h < 0x1_0000_0000,
    ensures
        r == hash_bytes(h, encode_utf8(text@)),
        r < 0x1_0000_0000,
{
    let bytes = text.as_str().as_bytes();
    let mut r = h;
    let mut i: usize = 0;
    while i < bytes.len()
        invariant
            i <= bytes.len(),
            r < 0x1_0000_0000,
            r == hash_bytes(h, bytes@.take(i as int)),
        decreases bytes.len() - i,
    {
        assert(bytes@.take(i as int + 1).drop_last() =~= bytes@.take(i as int));
        r = step(r, bytes[i]);
        i += 1;
    }
    assert(bytes@.take(i as int) =~= bytes@);
    r
}

/// The hash of a key.
pub fn hash_key(key: &Vec<String>) -> (r: u64)
    ensures
        r == key_hash(key.deep_view()),
{
    let ghost all = key.deep_view();
    let mut r: u64 = 0;
    let mut i: usize = 0;
    while i < key.len()
        invariant
            i <= key.len(),
            all == key.deep_view(),
            r < 0x1_0000_0000,
            r == key_hash(all.take(i as int)),
        decreases key.len() - i,
    {
        assert(all.take(i as int + 1).drop_last() =~= all.take(i as int));
        r = hash_text(r, &key[i]);
        r = step(r, 0xff);
        i += 1;
    }
    assert(all.take(i as int) =~= all);
    r
}

} // verus!
