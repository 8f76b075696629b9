//! What a channel is called in the operating system.

use vstd::arithmetic::div_mod::lemma_add_mod_noop;
use vstd::prelude::*;
use vstd::utf8::encode_utf8;

verus! {

/// A hash of a name's bytes: multiply by `factor` and add, byte by byte, modulo 2^32.
pub open spec fn byte_hash(bytes: Seq<u8>, factor: nat) -> nat
    decreases bytes.len(),
{
    if bytes.len() == 0 {
        0
    } else {
        (byte_hash(bytes.drop_last(), factor) * factor + bytes.last() as nat) % 0x1_0000_0000
    }
}

/// The hash of a name.
pub open spec fn name_hash(name: Seq<char>, factor: nat) -> nat {
    byte_hash(encode_utf8(name), factor)
}

/// The hash of a name's bytes.
pub fn hash_name(name: &str, factor: u32) -> (hash: u32)
    ensures
        hash == name_hash(name@, factor as nat),
{
    let bytes: &[u8] = name.as_bytes();
    let mut hash: u32 = 0;
    let mut i: usize = 0;
    while i < bytes.len()
        invariant
            i <= bytes@.len(),
            hash == byte_hash(bytes@.take(i as int), factor as nat),
        decreases bytes@.len() - i,
    {
        let ghost next = bytes@.take(i + 1);
        assert(next.drop_last() =~= bytes@.take(i as int));
        proof {
            let product = hash as nat * factor as nat;
            lemma_add_mod_noop(
                product as int,
                bytes@[i as int] as int,
                0x1_0000_0000,
            );
        }
        hash = hash.wrapping_mul(factor).wrapping_add(bytes[i] as u32);
        i = i + 1;
    }
    assert(bytes@.take(i as int) =~= bytes@);
    hash
}

/// What became of a file that was to be removed.
#[derive(Debug, Clone, Copy, PartialEq, Eq, Structural)]
pub enum Removal {
    Removed,
    /// There was no such file.
    Missing,
    Failed,
}

/// Whether a channel's file is gone. A file that was not there counts as gone.
pub fn is_gone(removal: Removal) -> (gone: bool)
    ensures
        gone == (removal == Removal::Removed || removal == Removal::Missing),
{
    match removal {
        Removal::Removed => true,
        Removal::Missing => true,
        Removal::Failed => false,
    }
}

/// Text between the same two pieces tells names apart.
pub proof fn lemma_surrounded_names_differ(
    prefix: Seq<char>,
    left: Seq<char>,
    right: Seq<char>,
    suffix: Seq<char>,
)
    requires
        prefix + left + suffix == prefix + right + suffix,
    ensures
        left == right,
{
    let one = prefix + left + suffix;
    let two = prefix + right + suffix;
    assert(one.len() == prefix.len() + left.len() + suffix.len());
    assert(two.len() == prefix.len() + right.len() + suffix.len());
    assert(left =~= one.subrange(prefix.len() as int, (prefix.len() + left.len()) as int));
    assert(right =~= two.subrange(prefix.len() as int, (prefix.len() + right.len()) as int));
}

/// The hash of a name grows byte by byte: an empty name has the hash 0, and one more byte
/// multiplies the hash by the factor and adds the byte, modulo 2^32.
pub proof fn law_hash_grows(
    name: &str,
    longer: &str,
    byte: u8,
    factor: u32,
    hash: u32,
    longer_hash: u32,
)
    requires
        call_ensures(hash_name, (name, factor), hash),
        call_ensures(hash_name, (longer, factor), longer_hash),
    ensures
        encode_utf8(name@).len() == 0 ==> hash == 0,
        encode_utf8(longer@) == encode_utf8(name@).push(byte) ==> longer_hash == (hash * factor
            + byte) % 4294967296,
{
    if encode_utf8(longer@) == encode_utf8(name@).push(byte) {
        assert(encode_utf8(longer@).drop_last() =~= encode_utf8(name@));
        assert(longer_hash == (hash as nat * factor as nat + byte as nat) % 0x1_0000_0000);
    }
}

/// A file is gone unless its removal failed.
pub proof fn law_is_gone(removal: Removal, gone: bool)
    requires
        call_ensures(is_gone, (removal,), gone),
    ensures
        !gone <==> removal is Failed,
{
}

} // verus!
