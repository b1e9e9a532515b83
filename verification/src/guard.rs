//! Directory guard decisions.
//!
//! A store owns its root directory exclusively for its whole life.  The
//! runner acquires that ownership: it creates the directory tree if absent,
//! creates a lock file inside it and takes a non-blocking exclusive lock on
//! it — failing with `AlreadyLocked` at once if another instance holds it —
//! probes that the filesystem can host a file name of the maximum supported
//! length, and then deletes every other file already present: opening a
//! store is destructive to pre-existing directory contents by design, since
//! the store is scratch space, not an archive.  On release it unlocks the
//! file and removes the root directory with everything in it; chunk data
//! never survives the owning store.
//!
//! The decisions in that protocol are verified here: the lock file's name,
//! the probe name of the maximum supported length, and which of the files
//! found in the directory are to be cleared — all of them but the lock
//! file.  A chunk file can never be mistaken for the lock file:
//! `lemma_chunk_name_is_not_lock`.

use vstd::prelude::*;
use vstd::seq_lib::group_seq_properties;

use crate::naming::hex_bytes_of;
use crate::naming::hex_digit;
use crate::naming::lemma_hex_bytes_len;
use crate::naming::MAX_CHUNK_FILE_NAME_LENGTH;
use crate::store::bytes_equal;
use crate::store::copy_bytes;
use crate::store::seq_views;

verus! {

/// The name of the lock file inside the root directory, as ASCII bytes:
/// `lock`.  It is never a chunk.
pub open spec fn lock_name() -> Seq<u8> {
    seq![0x6cu8, 0x6fu8, 0x63u8, 0x6bu8]
}

/// The name of the lock file, for the runner to create and lock.
pub fn lock_file_name() -> (r: Vec<u8>)
    ensures
        r@ == lock_name(),
{
    let mut r: Vec<u8> = Vec::new();
    r.push(0x6c);
    r.push(0x6f);
    r.push(0x63);
    r.push(0x6b);
    proof {
        assert(r@ =~= lock_name());
    }
    r
}

/// The probe name: a name of exactly the maximum supported length, made of
/// ASCII zeros.  The runner creates and removes a file of this name to
/// verify that the filesystem can host every name the store may produce; a
/// failure signals a filesystem or path-length incompatibility.
pub fn probe_name() -> (r: Vec<u8>)
    ensures
        r@.len() == MAX_CHUNK_FILE_NAME_LENGTH,
        forall|i: int| 0 <= i < r@.len() ==> r@[i] == 0x30u8,
{
    let mut r: Vec<u8> = Vec::new();
    let mut i: usize = 0;
    while i < MAX_CHUNK_FILE_NAME_LENGTH
        invariant
            i <= MAX_CHUNK_FILE_NAME_LENGTH,
            r@.len() == i,
            forall|j: int| 0 <= j < r@.len() ==> r@[j] == 0x30u8,
        decreases MAX_CHUNK_FILE_NAME_LENGTH - i,
    {
        r.push(0x30);
        i = i + 1;
    }
    r
}

/// The file names a directory listing holds besides the lock file.
pub open spec fn names_to_clear(listing: Seq<Seq<u8>>) -> Seq<Seq<u8>> {
    listing.filter(|n: Seq<u8>| n != lock_name())
}

/// Which of the files found in the root directory the runner is to delete
/// on acquisition: every one but the lock file, in listing order.
pub fn files_to_clear(listing: &Vec<Vec<u8>>) -> (r: Vec<Vec<u8>>)
    ensures
        seq_views(r@) == names_to_clear(seq_views(listing@)),
{
    broadcast use group_seq_properties;

    let lock = lock_file_name();
    let mut r: Vec<Vec<u8>> = Vec::new();
    let mut i: usize = 0;
    proof {
        reveal(Seq::filter);
        assert(seq_views(listing@).subrange(0, 0) =~= Seq::<Seq<u8>>::empty());
        assert(seq_views(r@) =~= names_to_clear(seq_views(listing@).subrange(0, 0)));
    }
    while i < listing.len()
        invariant
            i <= listing@.len(),
            seq_views(r@) == names_to_clear(seq_views(listing@).subrange(0, i as int)),
            lock@ == lock_name(),
        decreases listing@.len() - i,
    {
        let ghost r_prev = r@;
        let keep = !bytes_equal(&listing[i], &lock);
        if keep {
            r.push(copy_bytes(&listing[i]));
        }
        proof {
            reveal(Seq::filter);
            let seen = seq_views(listing@).subrange(0, i as int);
            let seen1 = seq_views(listing@).subrange(0, i + 1);
            assert(seen1.drop_last() =~= seen);
            assert(seen1.last() == listing@[i as int]@);
            if keep {
                assert(seq_views(r@) =~= seq_views(r_prev).push(listing@[i as int]@));
            } else {
                assert(seq_views(r@) =~= seq_views(r_prev));
            }
            assert(seq_views(r@) =~= names_to_clear(seen1));
        }
        i = i + 1;
    }
    proof {
        assert(seq_views(listing@).subrange(0, listing@.len() as int) =~= seq_views(listing@));
    }
    r
}

/// Law: a chunk file can never be mistaken for the lock file — no chunk
/// name equals the lock file's name, whatever the key.  Chunk names are made
/// of lowercase hex digits, and the lock file's name holds a byte that is
/// none.
pub proof fn lemma_chunk_name_is_not_lock(key: Seq<u8>)
    ensures
        hex_bytes_of(key) != lock_name(),
{
    lemma_hex_bytes_len(key);
    if hex_bytes_of(key).len() == 4 {
        assert(hex_bytes_of(key)[1] == hex_digit((key[0] % 16) as u8));
        assert(hex_digit((key[0] % 16) as u8) != 0x6fu8);
        assert(lock_name()[1] == 0x6fu8);
    }
}

} // verus!
