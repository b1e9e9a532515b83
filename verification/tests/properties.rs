//! Concrete checks of the store's stated properties: the quota scenarios,
//! the error cases, the naming, and the guard decisions.

use chunk_store::guard;
use chunk_store::map_storage::MapStorage;
use chunk_store::naming;
use chunk_store::payment::Payments;
use chunk_store::{ChunkStore, Error};
use maidsafe_utilities::serialisation;

fn ser_bytes(data: &Vec<u8>) -> Vec<u8> {
    serialisation::serialise(data).unwrap()
}

fn ser_u64(x: u64) -> Vec<u8> {
    serialisation::serialise(&x).unwrap()
}

#[test]
fn quota_scenario_length_framing() {
    let mut store = ChunkStore::new(64);
    let four_bytes: Vec<u8> = vec![1, 2, 3, 4];
    let value = ser_bytes(&four_bytes);
    assert!(value.len() > 4); // length framing
    store.put(&ser_u64(1), &value).unwrap();
    assert!(store.has(&ser_u64(1)));
    assert_eq!(store.used_space(), value.len() as u64);

    let hundred_bytes: Vec<u8> = (0..100).map(|i| i as u8).collect();
    let big = ser_bytes(&hundred_bytes);
    assert!(matches!(
        store.put(&ser_u64(2), &big),
        Err(Error::NotEnoughSpace)
    ));
    assert_eq!(store.used_space(), value.len() as u64);
    assert!(!store.has(&ser_u64(2)));
}

#[test]
fn overwrite_accounts_only_new_size() {
    let mut store = ChunkStore::new(1024);
    let a: Vec<u8> = vec![7; 20];
    let b: Vec<u8> = vec![8; 300];
    let sa = ser_bytes(&a);
    let sb = ser_bytes(&b);
    assert_ne!(sa.len(), sb.len());
    store.put(&ser_u64(1), &sa).unwrap();
    assert_eq!(store.used_space(), sa.len() as u64);
    store.put(&ser_u64(1), &sb).unwrap();
    assert_eq!(store.used_space(), sb.len() as u64);
}

#[test]
fn delete_then_has_is_false() {
    let mut store = ChunkStore::new(128);
    let key = ser_u64(9);
    store.put(&key, &vec![1, 2, 3]).unwrap();
    assert!(store.has(&key));
    store.delete(&key).unwrap();
    assert!(!store.has(&key));
    assert_eq!(store.used_space(), 0);
}

#[test]
fn delete_absent_key_is_noop() {
    let mut store = ChunkStore::new(128);
    store.put(&ser_u64(1), &vec![5; 10]).unwrap();
    let used = store.used_space();
    store.delete(&ser_u64(2)).unwrap();
    assert_eq!(store.used_space(), used);
    assert!(store.has(&ser_u64(1)));
}

#[test]
fn keys_are_insertion_order_independent() {
    let pairs: Vec<(Vec<u8>, Vec<u8>)> = (0u64..8)
        .map(|i| (ser_u64(i), vec![i as u8; (i as usize) + 1]))
        .collect();
    let mut forward = ChunkStore::new(1024);
    for (k, v) in pairs.iter() {
        forward.put(k, v).unwrap();
    }
    let mut backward = ChunkStore::new(1024);
    for (k, v) in pairs.iter().rev() {
        backward.put(k, v).unwrap();
    }
    let mut keys_fwd = forward.keys();
    let mut keys_bwd = backward.keys();
    keys_fwd.sort();
    keys_bwd.sort();
    assert_eq!(keys_fwd, keys_bwd);
    assert_eq!(keys_fwd.len(), 8);
}

#[test]
fn used_space_never_exceeds_max_space() {
    let mut store = ChunkStore::new(100);
    for i in 0u64..50 {
        let _ = store.put(&ser_u64(i % 7), &vec![i as u8; (i as usize * 13) % 60]);
        assert!(store.used_space() <= store.max_space());
        if i % 5 == 0 {
            let _ = store.delete(&ser_u64(i % 3));
            assert!(store.used_space() <= store.max_space());
        }
    }
}

#[test]
fn get_after_reaped_write_returns_value() {
    let mut store = ChunkStore::new(256);
    let key = ser_u64(42);
    let value: Vec<u8> = vec![9, 8, 7, 6, 5];
    store.put(&key, &value).unwrap();
    store.clean_up_threads(&key).unwrap();
    assert_eq!(store.get(&key).unwrap(), value);
}

#[test]
fn oversized_key_is_rejected() {
    let mut store = ChunkStore::new(256);
    let long_key: Vec<u8> = vec![1; 53];
    assert!(matches!(
        store.put(&long_key, &vec![1]),
        Err(Error::Serialisation)
    ));
    assert!(matches!(store.get(&long_key), Err(Error::Serialisation)));
    assert!(!store.has(&long_key));
    assert_eq!(store.used_space(), 0);
}

#[test]
fn chunk_name_is_lowercase_hex_of_key() {
    let name = naming::chunk_name(&vec![0xab, 0x01, 0xff]).unwrap();
    assert_eq!(name, b"ab01ff".to_vec());
    let empty = naming::chunk_name(&Vec::new()).unwrap();
    assert!(empty.is_empty());
}

#[test]
fn chunk_name_length_bound() {
    let boundary: Vec<u8> = vec![0x55; 52];
    let name = naming::chunk_name(&boundary).unwrap();
    assert_eq!(name.len(), naming::MAX_CHUNK_FILE_NAME_LENGTH);
    let too_long: Vec<u8> = vec![0x55; 53];
    assert!(matches!(
        naming::chunk_name(&too_long),
        Err(Error::Serialisation)
    ));
}

#[test]
fn guard_clears_everything_but_the_lock() {
    let lock = guard::lock_file_name();
    assert_eq!(lock, b"lock".to_vec());
    let listing: Vec<Vec<u8>> = vec![
        b"0a0b".to_vec(),
        b"lock".to_vec(),
        b"ffee".to_vec(),
    ];
    let cleared = guard::files_to_clear(&listing);
    assert_eq!(cleared, vec![b"0a0b".to_vec(), b"ffee".to_vec()]);
}

#[test]
fn guard_probe_name_has_maximum_length() {
    let probe = guard::probe_name();
    assert_eq!(probe.len(), naming::MAX_CHUNK_FILE_NAME_LENGTH);
    assert!(probe.iter().all(|b| *b == b'0'));
}

#[test]
fn map_storage_round_trip() {
    let mut storage = MapStorage::new(512);
    let address = ser_u64(77);
    let data: Vec<u8> = vec![3, 1, 4, 1, 5];
    storage.put_chunk(&address, &data).unwrap();
    assert_eq!(storage.get_chunk(&address).unwrap(), data);
    assert!(matches!(
        storage.get_chunk(&ser_u64(78)),
        Err(Error::NotFound)
    ));
}

#[test]
fn payments_replica_access() {
    let mut payments = Payments::new(ChunkStore::new(128));
    let key = ser_u64(5);
    payments.replica_mut().put(&key, &vec![1, 2]).unwrap();
    assert!(payments.replica_mut().has(&key));
    assert_eq!(payments.replica_mut().used_space(), 2);
}
