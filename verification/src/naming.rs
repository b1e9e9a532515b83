//! Deterministic key-to-name mapping.
//!
//! A chunk's filesystem name is the key's bytes rendered as lowercase hex,
//! two digits per byte: a reversible, filesystem-safe direct encoding.  The
//! name therefore grows with the key, and keys whose rendering would exceed
//! the supported file-name length are rejected.  Distinct keys always get
//! distinct names (`lemma_chunk_names_unique`).

use vstd::prelude::*;

use crate::error::Error;

verus! {

/// The longest chunk file name the store supports; the runner probes the
/// filesystem for a name of exactly this length before accepting a root
/// directory.
pub const MAX_CHUNK_FILE_NAME_LENGTH: usize = 104;

/// The lowercase hex digit (as an ASCII byte) for a value below sixteen.
pub open spec fn hex_digit(n: u8) -> u8
    recommends
        n < 16,
{
    if n < 10 {
        (0x30 + n) as u8
    } else {
        (0x57 + n) as u8
    }
}

/// The name of a chunk: each key byte rendered as two lowercase hex digits,
/// high nibble first.
pub open spec fn hex_bytes_of(key: Seq<u8>) -> Seq<u8>
    decreases key.len(),
{
    if key.len() == 0 {
        Seq::empty()
    } else {
        seq![
            hex_digit((key[0] / 16) as u8),
            hex_digit((key[0] % 16) as u8),
        ] + hex_bytes_of(key.drop_first())
    }
}

/// Whether a key is small enough to be named: its hex rendering must fit the
/// supported file-name length.
pub open spec fn key_has_name(key: Seq<u8>) -> bool {
    2 * key.len() <= MAX_CHUNK_FILE_NAME_LENGTH
}

/// Whether a key is small enough to be named.
pub fn key_fits(key: &Vec<u8>) -> (r: bool)
    ensures
        r == key_has_name(key@),
{
    key.len() <= MAX_CHUNK_FILE_NAME_LENGTH / 2
}

/// Relies on `hex::encode`: it renders each input byte as two lowercase hex
/// digits from the table `0123456789abcdef`, high nibble first, in input
/// order.
#[verifier::external_body]
fn hex_encode_bytes(key: &Vec<u8>) -> (r: Vec<u8>)
    ensures
        r@ == hex_bytes_of(key@),
{
    hex::encode(key).into_bytes()
}

/// The filesystem name under which a chunk for `key` is stored, as ASCII
/// bytes.  Fails with `Serialisation` exactly when the key is too long for
/// its name to fit `MAX_CHUNK_FILE_NAME_LENGTH`.
pub fn chunk_name(key: &Vec<u8>) -> (r: Result<Vec<u8>, Error>)
    ensures
        match r {
            Ok(name) => key_has_name(key@) && name@ == hex_bytes_of(key@),
            Err(e) => e == Error::Serialisation && !key_has_name(key@),
        },
{
    if key_fits(key) {
        Ok(hex_encode_bytes(key))
    } else {
        Err(Error::Serialisation)
    }
}

/// A chunk name is exactly twice as long as its key.
pub proof fn lemma_hex_bytes_len(key: Seq<u8>)
    ensures
        hex_bytes_of(key).len() == 2 * key.len(),
    decreases key.len(),
{
    if key.len() > 0 {
        lemma_hex_bytes_len(key.drop_first());
    }
}

/// Two values below sixteen with the same hex digit are the same value.
proof fn lemma_hex_digit_injective(a: u8, b: u8)
    requires
        a < 16,
        b < 16,
        hex_digit(a) == hex_digit(b),
    ensures
        a == b,
{
}

/// Law: the naming never collides — two keys with the same chunk name are
/// the same key.  Together with the naming being a function of the key alone,
/// the key-to-name mapping is a bijection onto its range.
pub proof fn lemma_chunk_names_unique(k1: Seq<u8>, k2: Seq<u8>)
    requires
        hex_bytes_of(k1) == hex_bytes_of(k2),
    ensures
        k1 == k2,
    decreases k1.len(),
{
    lemma_hex_bytes_len(k1);
    lemma_hex_bytes_len(k2);
    if k1.len() == 0 {
        assert(k1 =~= k2);
    } else {
        let n1 = hex_bytes_of(k1);
        let n2 = hex_bytes_of(k2);
        assert(n1[0] == hex_digit((k1[0] / 16) as u8));
        assert(n1[1] == hex_digit((k1[0] % 16) as u8));
        lemma_hex_digit_injective((k1[0] / 16) as u8, (k2[0] / 16) as u8);
        lemma_hex_digit_injective((k1[0] % 16) as u8, (k2[0] % 16) as u8);
        assert(k1[0] == k2[0]);
        assert(hex_bytes_of(k1.drop_first()) =~= n1.subrange(2, n1.len() as int));
        assert(hex_bytes_of(k2.drop_first()) =~= n2.subrange(2, n2.len() as int));
        lemma_chunk_names_unique(k1.drop_first(), k2.drop_first());
        assert forall|i: int| 0 <= i < k1.len() implies k1[i] == k2[i] by {
            if i > 0 {
                assert(k1[i] == k1.drop_first()[i - 1]);
                assert(k2[i] == k2.drop_first()[i - 1]);
            }
        }
        assert(k1 =~= k2);
    }
}

} // verus!
