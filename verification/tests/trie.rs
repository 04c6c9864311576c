use hamt::errors::Error;
use hamt::hash::{hash_key, HashAlgorithm};
use hamt::store::MemoryStore;
use hamt::trie::Trie;

fn b(s: &[u8]) -> Vec<u8> {
    s.to_vec()
}

#[test]
fn sha256_of_known_vectors() {
    // Pins the trusted digest wrapper to the published SHA-256 values.
    let empty = hash_key(HashAlgorithm::Sha256, &b(b""));
    let expect_empty: [u8; 32] = [
        0xe3, 0xb0, 0xc4, 0x42, 0x98, 0xfc, 0x1c, 0x14, 0x9a, 0xfb, 0xf4, 0xc8, 0x99, 0x6f, 0xb9,
        0x24, 0x27, 0xae, 0x41, 0xe4, 0x64, 0x9b, 0x93, 0x4c, 0xa4, 0x95, 0x99, 0x1b, 0x78, 0x52,
        0xb8, 0x55,
    ];
    assert_eq!(empty, expect_empty);
    let abc = hash_key(HashAlgorithm::Sha256, &b(b"abc"));
    let expect_abc: [u8; 32] = [
        0xba, 0x78, 0x16, 0xbf, 0x8f, 0x01, 0xcf, 0xea, 0x41, 0x41, 0x40, 0xde, 0x5d, 0xae, 0x22,
        0x23, 0xb0, 0x03, 0x61, 0xa3, 0x96, 0x17, 0x7a, 0x9c, 0xb4, 0x10, 0xff, 0x61, 0xf2, 0x00,
        0x15, 0xad,
    ];
    assert_eq!(abc, expect_abc);
}

#[test]
fn identity_hash_pads_and_truncates() {
    let h = hash_key(HashAlgorithm::Identity, &b(b"ab"));
    assert_eq!(h[0], b'a');
    assert_eq!(h[1], b'b');
    assert_eq!(&h[2..], &[0u8; 30][..]);
}

#[test]
fn set_get_delete_roundtrip() {
    let store = MemoryStore::new();
    let mut t = Trie::new(HashAlgorithm::Sha256, 5, 3);
    assert_eq!(t.get(&store, &b(b"missing")).unwrap(), None);
    assert_eq!(t.set(&store, b(b"cat"), b(b"meow")).unwrap(), None);
    assert_eq!(t.set(&store, b(b"dog"), b(b"woof")).unwrap(), None);
    assert_eq!(t.get(&store, &b(b"cat")).unwrap(), Some(b(b"meow")));
    assert_eq!(t.get(&store, &b(b"dog")).unwrap(), Some(b(b"woof")));
    // Rebinding returns the previous value.
    assert_eq!(t.set(&store, b(b"cat"), b(b"purr")).unwrap(), Some(b(b"meow")));
    assert_eq!(t.get(&store, &b(b"cat")).unwrap(), Some(b(b"purr")));
    // Deleting returns the removed value; a second delete is a no-op.
    assert_eq!(t.delete(&store, &b(b"cat")).unwrap(), Some(b(b"purr")));
    assert_eq!(t.get(&store, &b(b"cat")).unwrap(), None);
    assert_eq!(t.delete(&store, &b(b"cat")).unwrap(), None);
    assert_eq!(t.get(&store, &b(b"dog")).unwrap(), Some(b(b"woof")));
}

#[test]
fn many_keys_split_and_survive_reload() {
    // Enough keys to force bucket splits at bit width 4 and threshold 2,
    // flushed and reloaded from the resulting root reference.
    let mut store = MemoryStore::new();
    let mut t = Trie::new(HashAlgorithm::Sha256, 4, 2);
    for i in 0..60u32 {
        let key = format!("key-{i}").into_bytes();
        let value = format!("value-{i}").into_bytes();
        assert_eq!(t.set(&store, key, value).unwrap(), None);
    }
    let root = t.flush(&mut store).unwrap();
    let loaded = Trie::load(&store, &root, HashAlgorithm::Sha256).unwrap();
    for i in 0..60u32 {
        let key = format!("key-{i}").into_bytes();
        let value = format!("value-{i}").into_bytes();
        assert_eq!(loaded.get(&store, &key).unwrap(), Some(value.clone()));
        assert_eq!(t.get(&store, &key).unwrap(), Some(value));
    }
    assert_eq!(loaded.get(&store, &b(b"key-60")).unwrap(), None);
}

#[test]
fn insertion_order_does_not_change_the_root() {
    // The central determinism property: the same logical contents, built by
    // different insertion histories, serialize to the same root reference.
    let mut store = MemoryStore::new();
    let pairs: Vec<(Vec<u8>, Vec<u8>)> = (0..20u32)
        .map(|i| (format!("k{i}").into_bytes(), format!("v{i}").into_bytes()))
        .collect();

    let mut t1 = Trie::new(HashAlgorithm::Sha256, 5, 3);
    for (k, v) in pairs.iter() {
        t1.set(&store, k.clone(), v.clone()).unwrap();
    }
    let r1 = t1.flush(&mut store).unwrap();

    let mut t2 = Trie::new(HashAlgorithm::Sha256, 5, 3);
    for (k, v) in pairs.iter().rev() {
        t2.set(&store, k.clone(), v.clone()).unwrap();
    }
    let r2 = t2.flush(&mut store).unwrap();
    assert_eq!(r1, r2);

    // A history that overwrites and deletes on the way to the same contents.
    let mut t3 = Trie::new(HashAlgorithm::Sha256, 5, 3);
    t3.set(&store, b(b"extra"), b(b"gone soon")).unwrap();
    for (k, v) in pairs.iter() {
        t3.set(&store, k.clone(), b(b"old")).unwrap();
        t3.set(&store, k.clone(), v.clone()).unwrap();
    }
    t3.delete(&store, &b(b"extra")).unwrap();
    let r3 = t3.flush(&mut store).unwrap();
    assert_eq!(r1, r3);
}

#[test]
fn flush_is_idempotent_and_writes_nothing_new() {
    let mut store = MemoryStore::new();
    let mut t = Trie::new(HashAlgorithm::Sha256, 5, 3);
    for i in 0..10u32 {
        t.set(&store, format!("k{i}").into_bytes(), format!("v{i}").into_bytes()).unwrap();
    }
    let r1 = t.flush(&mut store).unwrap();
    let blocks_after_first = store.blocks.len();
    let r2 = t.flush(&mut store).unwrap();
    assert_eq!(r1, r2);
    assert_eq!(store.blocks.len(), blocks_after_first);
}

#[test]
fn colliding_hashes_grow_one_terminal_bucket() {
    // With the identity hash, keys longer than 32 bytes that agree on their
    // first 32 bytes collide on every hash bit; more of them than the
    // threshold must still answer get correctly from the oversized bucket.
    let store = MemoryStore::new();
    let mut t = Trie::new(HashAlgorithm::Identity, 8, 2);
    let mut keys = Vec::new();
    for i in 0..6u8 {
        let mut key = vec![0xAB; 33];
        key[32] = i;
        keys.push(key);
    }
    for (i, key) in keys.iter().enumerate() {
        assert_eq!(t.set(&store, key.clone(), vec![i as u8]).unwrap(), None);
    }
    for (i, key) in keys.iter().enumerate() {
        assert_eq!(t.get(&store, key).unwrap(), Some(vec![i as u8]));
    }
}

#[test]
fn deleting_everything_restores_the_empty_root() {
    let mut store = MemoryStore::new();
    let mut empty = Trie::new(HashAlgorithm::Sha256, 5, 2);
    let empty_root = empty.flush(&mut store).unwrap();

    let mut t = Trie::new(HashAlgorithm::Sha256, 5, 2);
    let keys: Vec<Vec<u8>> = (0..12u32).map(|i| format!("k{i}").into_bytes()).collect();
    for k in keys.iter() {
        t.set(&store, k.clone(), b(b"v")).unwrap();
    }
    t.flush(&mut store).unwrap();
    for k in keys.iter() {
        assert_eq!(t.delete(&store, k).unwrap(), Some(b(b"v")));
    }
    let root = t.flush(&mut store).unwrap();
    assert_eq!(root, empty_root);
}

#[test]
fn load_reports_missing_and_malformed_blocks() {
    let mut store = MemoryStore::new();
    assert!(matches!(
        Trie::load(&store, &vec![0u8; 32], HashAlgorithm::Sha256),
        Err(Error::StorageError)
    ));
    let garbage = store.put(b(b"not a root block")).unwrap();
    assert!(matches!(
        Trie::load(&store, &garbage, HashAlgorithm::Sha256),
        Err(Error::DecodeError)
    ));
}

#[test]
fn store_is_content_addressed() {
    let mut store = MemoryStore::new();
    let r1 = store.put(b(b"block one")).unwrap();
    let r2 = store.put(b(b"block two")).unwrap();
    assert_ne!(r1, r2);
    assert_eq!(store.get(&r1), Some(b(b"block one")));
    assert_eq!(store.get(&r2), Some(b(b"block two")));
    assert_eq!(store.get(&vec![7u8; 32]), None);
    // Re-putting the same bytes yields the same reference and no new block.
    let n = store.blocks.len();
    let r3 = store.put(b(b"block one")).unwrap();
    assert_eq!(r1, r3);
    assert_eq!(store.blocks.len(), n);
}

#[test]
fn identity_trie_places_keys_by_their_own_bits() {
    // With the identity hash the first bits of the key itself navigate, so
    // two keys differing in their first nibble land in different slots and
    // both stay reachable after a flush and reload.
    let mut store = MemoryStore::new();
    let mut t = Trie::new(HashAlgorithm::Identity, 4, 1);
    t.set(&store, vec![0x00, 1], b(b"low")).unwrap();
    t.set(&store, vec![0xF0, 1], b(b"high")).unwrap();
    let root = t.flush(&mut store).unwrap();
    let loaded = Trie::load(&store, &root, HashAlgorithm::Identity).unwrap();
    assert_eq!(loaded.get(&store, &vec![0x00, 1]).unwrap(), Some(b(b"low")));
    assert_eq!(loaded.get(&store, &vec![0xF0, 1]).unwrap(), Some(b(b"high")));
    assert_eq!(loaded.bit_width, 4);
    assert_eq!(loaded.threshold, 1);
}

#[test]
fn entries_lists_every_pair_once() {
    let mut store = MemoryStore::new();
    let mut t = Trie::new(HashAlgorithm::Sha256, 4, 2);
    let mut expected: Vec<(Vec<u8>, Vec<u8>)> = (0..30u32)
        .map(|i| (format!("k{i}").into_bytes(), format!("v{i}").into_bytes()))
        .collect();
    for (k, v) in expected.iter() {
        t.set(&store, k.clone(), v.clone()).unwrap();
    }
    let listed = t.entries(&store).unwrap();
    let mut got: Vec<(Vec<u8>, Vec<u8>)> =
        listed.into_iter().map(|kv| (kv.key, kv.value)).collect();
    got.sort();
    expected.sort();
    assert_eq!(got, expected);

    // Iteration agrees between the live trie and a reload of its root, in
    // order, pair for pair.
    let root = t.flush(&mut store).unwrap();
    let loaded = Trie::load(&store, &root, HashAlgorithm::Sha256).unwrap();
    let a: Vec<(Vec<u8>, Vec<u8>)> =
        t.entries(&store).unwrap().into_iter().map(|kv| (kv.key, kv.value)).collect();
    let b: Vec<(Vec<u8>, Vec<u8>)> =
        loaded.entries(&store).unwrap().into_iter().map(|kv| (kv.key, kv.value)).collect();
    assert_eq!(a, b);
}

#[test]
fn deletion_keeps_a_surviving_split_level() {
    // The fixed canonicalization policy: splitting is permanent while the
    // child level holds any pair. Four identity-hashed keys sharing their
    // first byte split slot 0xAA at threshold 3; deleting one leaves the
    // child level in place, so the root differs from a direct build of the
    // same three pairs, while lookups and iteration agree pair for pair.
    let mut store = MemoryStore::new();
    let keys: Vec<Vec<u8>> = (0..4u8).map(|i| vec![0xAA, i]).collect();

    let mut split = Trie::new(HashAlgorithm::Identity, 8, 3);
    for k in keys.iter() {
        split.set(&store, k.clone(), b(b"v")).unwrap();
    }
    split.delete(&store, &keys[3]).unwrap();

    let mut direct = Trie::new(HashAlgorithm::Identity, 8, 3);
    for k in keys[..3].iter() {
        direct.set(&store, k.clone(), b(b"v")).unwrap();
    }

    for k in keys[..3].iter() {
        assert_eq!(split.get(&store, k).unwrap(), Some(b(b"v")));
        assert_eq!(direct.get(&store, k).unwrap(), Some(b(b"v")));
    }
    let entries_split: Vec<(Vec<u8>, Vec<u8>)> =
        split.entries(&store).unwrap().into_iter().map(|kv| (kv.key, kv.value)).collect();
    let entries_direct: Vec<(Vec<u8>, Vec<u8>)> =
        direct.entries(&store).unwrap().into_iter().map(|kv| (kv.key, kv.value)).collect();
    assert_eq!(entries_split, entries_direct);

    let r_split = split.flush(&mut store).unwrap();
    let r_direct = direct.flush(&mut store).unwrap();
    assert_ne!(r_split, r_direct);

    // Deleting the rest empties the child level, which is pruned, so the
    // canonical empty root returns.
    let mut empty = Trie::new(HashAlgorithm::Identity, 8, 3);
    let r_empty = empty.flush(&mut store).unwrap();
    for k in keys[..3].iter() {
        split.delete(&store, k).unwrap();
    }
    assert_eq!(split.flush(&mut store).unwrap(), r_empty);
}

#[test]
fn entries_after_resumes_the_traversal() {
    let store = MemoryStore::new();
    let mut t = Trie::new(HashAlgorithm::Sha256, 4, 2);
    for i in 0..12u32 {
        t.set(&store, format!("k{i}").into_bytes(), format!("v{i}").into_bytes()).unwrap();
    }
    let full: Vec<(Vec<u8>, Vec<u8>)> =
        t.entries(&store).unwrap().into_iter().map(|kv| (kv.key, kv.value)).collect();
    // Resuming after the fourth yielded key returns exactly the rest, in
    // the same order.
    let resume = full[3].0.clone();
    let rest: Vec<(Vec<u8>, Vec<u8>)> =
        t.entries_after(&store, &resume).unwrap().into_iter().map(|kv| (kv.key, kv.value)).collect();
    assert_eq!(rest, full[4..].to_vec());
    // After the last key nothing remains; after a never-yielded key nothing
    // remains either.
    let last = full.last().unwrap().0.clone();
    assert!(t.entries_after(&store, &last).unwrap().is_empty());
    assert!(t.entries_after(&store, &b(b"absent")).unwrap().is_empty());
}
