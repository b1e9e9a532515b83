//! The chunk store exercised through its public byte-oriented surface, with
//! the callers owning serialisation of their keys and values.

use chunk_store::{ChunkStore, Error};
use maidsafe_utilities::serialisation;

fn generate_random_bytes(size: u64) -> Vec<u8> {
    (0..size).map(|_| rand::random::<u8>()).collect()
}

fn ser_bytes(data: &Vec<u8>) -> Vec<u8> {
    serialisation::serialise(data).unwrap()
}

fn ser_index(index: usize) -> Vec<u8> {
    serialisation::serialise(&index).unwrap()
}

fn de_bytes(raw: &[u8]) -> Vec<u8> {
    serialisation::deserialise(raw).unwrap()
}

struct Chunks {
    data_and_sizes: Vec<(Vec<u8>, u64)>,
    total_size: u64,
}

// Construct random amount of randomly-sized chunks, keeping track of the total size of all
// chunks when serialised.
fn generate_random_chunks() -> Chunks {
    let mut chunks = Chunks {
        data_and_sizes: vec![],
        total_size: 0,
    };
    let chunk_count: u8 = rand::random();
    for _ in 0..chunk_count {
        let size: u8 = rand::random();
        let data = generate_random_bytes(size as u64);
        let serialised_size = ser_bytes(&data).len() as u64;
        chunks.total_size += serialised_size;
        chunks.data_and_sizes.push((data, serialised_size));
    }
    chunks
}

#[test]
fn successful_put() {
    let chunks = generate_random_chunks();
    let mut chunk_store = ChunkStore::new(chunks.total_size);
    for (index, (data, size)) in chunks.data_and_sizes.iter().enumerate().rev() {
        let key = ser_index(index);
        let size_before_insert = chunk_store.used_space();
        assert!(!chunk_store.has(&key));
        chunk_store.put(&key, &ser_bytes(data)).unwrap();
        assert_eq!(chunk_store.used_space(), size + size_before_insert);
        assert!(chunk_store.has(&key));
        assert!(chunk_store.used_space() <= chunks.total_size);
    }
    assert_eq!(chunk_store.used_space(), chunks.total_size);

    let mut keys = chunk_store.keys();
    keys.sort();
    let mut expected: Vec<Vec<u8>> = (0..chunks.data_and_sizes.len()).map(ser_index).collect();
    expected.sort();
    assert_eq!(expected, keys);
}

#[test]
fn failed_put_when_not_enough_space() {
    let k_disk_size: u64 = 32;
    let mut store = ChunkStore::new(k_disk_size);
    let key: u8 = rand::random();
    let key = serialisation::serialise(&key).unwrap();
    let data = generate_random_bytes(k_disk_size + 1);

    assert!(matches!(
        store.put(&key, &ser_bytes(&data)),
        Err(Error::NotEnoughSpace)
    ));
}

#[test]
fn delete() {
    let chunks = generate_random_chunks();
    let mut chunk_store = ChunkStore::new(chunks.total_size);
    for (index, (data, size)) in chunks.data_and_sizes.iter().enumerate() {
        let key = ser_index(index);
        chunk_store.put(&key, &ser_bytes(data)).unwrap();
        assert_eq!(chunk_store.used_space(), *size);
        assert!(chunk_store.has(&key));
        chunk_store.delete(&key).unwrap();
        assert!(!chunk_store.has(&key));
        assert_eq!(chunk_store.used_space(), 0);
    }
}

#[test]
fn put_and_get_value_should_be_same() {
    let chunks = generate_random_chunks();
    let mut chunk_store = ChunkStore::new(chunks.total_size);
    for (index, (data, _)) in chunks.data_and_sizes.iter().enumerate() {
        let key = serialisation::serialise(&(index as u32)).unwrap();
        chunk_store.put(&key, &ser_bytes(data)).unwrap();
    }
    for (index, (data, _)) in chunks.data_and_sizes.iter().enumerate() {
        let key = serialisation::serialise(&(index as u32)).unwrap();
        let retrieved_value = de_bytes(&chunk_store.get(&key).unwrap());
        assert_eq!(*data, retrieved_value);
    }
}

#[test]
fn overwrite_value() {
    let chunks = generate_random_chunks();
    let mut chunk_store = ChunkStore::new(chunks.total_size);
    let key = ser_index(0);
    for (data, size) in chunks.data_and_sizes {
        chunk_store.put(&key, &ser_bytes(&data)).unwrap();
        assert_eq!(chunk_store.used_space(), size);
        let retrieved_value = de_bytes(&chunk_store.get(&key).unwrap());
        assert_eq!(data, retrieved_value);
    }
}

#[test]
fn get_fails_when_key_does_not_exist() {
    let chunk_store = ChunkStore::new(64);
    let key: u8 = rand::random();
    let key = serialisation::serialise(&key).unwrap();
    assert!(matches!(chunk_store.get(&key), Err(Error::NotFound)));
}

#[test]
fn keys() {
    let chunks = generate_random_chunks();
    let mut chunk_store = ChunkStore::new(chunks.total_size);

    for (index, (data, _)) in chunks.data_and_sizes.iter().enumerate() {
        let key = ser_index(index);
        assert!(!chunk_store.keys().contains(&key));
        chunk_store.put(&key, &ser_bytes(data)).unwrap();
        assert!(chunk_store.keys().contains(&key));
        assert_eq!(chunk_store.keys().len(), index + 1);
    }

    for (index, _) in chunks.data_and_sizes.iter().enumerate() {
        let key = ser_index(index);
        assert!(chunk_store.keys().contains(&key));
        chunk_store.delete(&key).unwrap();
        assert!(!chunk_store.keys().contains(&key));
        assert_eq!(
            chunk_store.keys().len(),
            chunks.data_and_sizes.len() - index - 1
        );
    }
}

#[test]
fn performance() {
    let one_mb: u64 = 1024 * 1024;
    let nums: u64 = 100;
    let mut data = generate_random_bytes(one_mb);
    // 1MB (1048576) random data will have 1048584 serialised size.
    let mut chunk_store = ChunkStore::new(nums * (one_mb + 8));
    let mut write_total_time = std::time::Duration::new(0, 0);
    let mut read_total_time = std::time::Duration::new(0, 0);

    for i in 0..nums as usize {
        let write_begin = std::time::Instant::now();
        chunk_store.put(&ser_index(i), &ser_bytes(&data)).unwrap();
        write_total_time += write_begin.elapsed();
        data[i] = generate_random_bytes(1)[0];

        let get_index = rand::random_range(0..i + 1);
        let key = ser_index(get_index);
        let read_begin = std::time::Instant::now();
        let _ = chunk_store.clean_up_threads(&key);
        let _ = chunk_store.get(&key).unwrap();
        read_total_time += read_begin.elapsed();
    }
    println!(
        "completed with {:?} MB/s writing speed and {:?} MB/s reading speed",
        nums / (write_total_time.as_secs() + 1),
        nums / (read_total_time.as_secs() + 1)
    )
}
