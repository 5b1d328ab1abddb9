//! Identities of server actions: a 64-bit hash of the module's location and
//! the exported name, the same in every process and on every machine.

use vstd::prelude::*;

verus! {

/// The hash state before the first byte.
pub const HASH_OFFSET: u64 = 0xcbf29ce484222325;

/// The multiplier of each step.
pub const HASH_PRIME: u64 = 0x100000001b3;

/// The byte that parts the location from the exported name. It occurs in no
/// UTF-8 text, so two different pairs are never hashed as the same bytes.
pub const HASH_SEPARATOR: u8 = 0xff;

/// One step of the hash: mix in a byte, then multiply, modulo 2^64.
pub open spec fn hash_step(h: u64, b: u8) -> u64 {
    ((((h ^ (b as u64)) as nat) * (HASH_PRIME as nat)) % 0x1_0000_0000_0000_0000) as u64
}

/// The hash state `h` after the first `n` bytes of `s`.
pub open spec fn hash_feed(h: u64, s: Seq<u8>, n: nat) -> u64
    decreases n,
{
    if n == 0 {
        h
    } else {
        hash_step(hash_feed(h, s, (n - 1) as nat), s[n - 1])
    }
}

/// The id of the action that the module at `location` exports as `export`.
pub open spec fn action_id_spec(location: Seq<u8>, export: Seq<u8>) -> u64 {
    let h = hash_feed(HASH_OFFSET, location, location.len());
    hash_feed(hash_step(h, HASH_SEPARATOR), export, export.len())
}

/// The hash state `h` after all the bytes of `s`.
fn feed(h: u64, s: &[u8]) -> (r: u64)
    ensures
        r == hash_feed(h, s@, s@.len()),
{
    let mut r: u64 = h;
    let mut i: usize = 0;
    while i < s.len()
        invariant
            i <= s@.len(),
            r == hash_feed(h, s@, i as nat),
        decreases s@.len() - i,
    {
        r = (r ^ (s[i] as u64)).wrapping_mul(HASH_PRIME);
        i += 1;
    }
    r
}

/// The id of a server action, from the location of its module and its
/// exported name.
pub fn action_id(location: &[u8], export: &[u8]) -> (id: u64)
    ensures
        id == action_id_spec(location@, export@),
{
    let h = feed(HASH_OFFSET, location);
    let h = (h ^ (HASH_SEPARATOR as u64)).wrapping_mul(HASH_PRIME);
    feed(h, export)
}

/// An id depends on the location and the exported name alone: a pair that
/// does not change between two builds keeps its id.
pub proof fn lemma_action_id_stable(location_a: Seq<u8>, export_a: Seq<u8>, location_b: Seq<u8>, export_b: Seq<u8>)
    requires
        location_a == location_b,
        export_a == export_b,
    ensures
        action_id_spec(location_a, export_a) == action_id_spec(location_b, export_b),
{
}

} // verus!
