use std::collections::BTreeSet;

use parity_scale_codec::{Decode, Encode};

use spartan_plot::errors::RecordStoreError;
use spartan_plot::limited_store::LimitedSizeRecordStorageWrapper;
use spartan_plot::providers::MemoryProviderStorage;
use spartan_plot::records::{
    CustomRecordStore, GetOnlyRecordStorage, MemoryRecordStorage, NoRecordStorage, ProviderRecord,
    ProviderStorage, Record, RecordStorage, TableValueGetter,
};
use spartan_plot::scale_codec::{
    decode_byte_set, decode_record_fields, encode_byte_set, encode_record_fields, merge_records,
    union_sorted, SECTOR_MULTIHASH_CODE,
};

/// Little-endian base-128 groups, the unsigned varint of a multihash.
fn encode_varint(mut v: u64) -> Vec<u8> {
    let mut out = Vec::new();
    loop {
        let byte = (v & 0x7f) as u8;
        v >>= 7;
        if v == 0 {
            out.push(byte);
            return out;
        }
        out.push(byte | 0x80);
    }
}

/// A well-formed multihash key with the given code and digest.
fn multihash_key(code: u64, digest: &[u8]) -> Vec<u8> {
    let mut key = encode_varint(code);
    key.extend(encode_varint(digest.len() as u64));
    key.extend_from_slice(digest);
    key
}

fn record(key: Vec<u8>, value: Vec<u8>) -> Record {
    Record { key, value, publisher: None, expires: None }
}

fn set_value(items: &[&[u8]]) -> Vec<u8> {
    let set: BTreeSet<Vec<u8>> = items.iter().map(|s| s.to_vec()).collect();
    set.encode()
}

#[test]
fn memory_store_put_get_remove() {
    let mut store = MemoryRecordStorage::new();
    let key = vec![1, 2, 3];
    assert!(store.put(record(key.clone(), vec![9])).is_ok());
    let got = store.get(&key).expect("stored record");
    assert_eq!(got.value, vec![9]);
    // A second put under the same key replaces the value.
    store.put(record(key.clone(), vec![8])).unwrap();
    assert_eq!(store.get(&key).unwrap().value, vec![8]);
    assert_eq!(store.records().len(), 1);
    store.remove(&key);
    assert!(store.get(&key).is_none());
    assert_eq!(store.records().len(), 0);
}

#[test]
fn no_record_storage_stores_nothing() {
    let mut store = NoRecordStorage::new();
    assert!(store.put(record(vec![1], vec![2])).is_ok());
    assert!(store.get(&vec![1]).is_none());
    assert_eq!(store.records().len(), 0);
}

#[test]
fn get_only_storage_proxies_gets() {
    let key = multihash_key(0x12, &[0xAA]);
    let mut getter = TableValueGetter::new();
    getter.add_row(key.clone(), vec![7, 7]);
    let mut store = GetOnlyRecordStorage::new(getter);
    let got = store.get(&key).expect("value behind the getter");
    assert_eq!(got.key, key);
    assert_eq!(got.value, vec![7, 7]);
    assert_eq!(got.publisher, None);
    // Writes are refused.
    assert_eq!(store.put(record(key.clone(), vec![1])), Err(RecordStoreError::MaxRecords));
    // A key that is no well-formed multihash misses before the lookup.
    let mut getter2 = TableValueGetter::new();
    getter2.add_row(vec![0xFF], vec![1]);
    let store2 = GetOnlyRecordStorage::new(getter2);
    assert!(store2.get(&vec![0xFF]).is_none());
}

#[test]
fn provider_storage_add_list_remove() {
    let mut store = MemoryProviderStorage::new();
    let key = vec![5];
    store.add_provider(ProviderRecord { key: key.clone(), provider: vec![1] }).unwrap();
    store.add_provider(ProviderRecord { key: key.clone(), provider: vec![2] }).unwrap();
    // Appended without deduplication.
    store.add_provider(ProviderRecord { key: key.clone(), provider: vec![2] }).unwrap();
    assert_eq!(store.providers(&key).len(), 3);
    assert_eq!(store.provided().len(), 3);
    store.remove_provider(&key, &vec![2]);
    let left = store.providers(&key);
    assert_eq!(left.len(), 1);
    assert_eq!(left[0].provider, vec![1]);
    store.remove_provider(&vec![9], &vec![1]);
    assert_eq!(store.providers(&key).len(), 1);
}

#[test]
fn custom_record_store_delegates() {
    let mut store = CustomRecordStore::new(MemoryRecordStorage::new(), MemoryProviderStorage::new());
    store.put(record(vec![1], vec![2])).unwrap();
    assert_eq!(store.get(&vec![1]).unwrap().value, vec![2]);
    store.add_provider(ProviderRecord { key: vec![1], provider: vec![9] }).unwrap();
    assert_eq!(store.providers(&vec![1]).len(), 1);
    assert_eq!(store.provided().len(), 1);
    store.remove(&vec![1]);
    assert!(store.get(&vec![1]).is_none());
    store.remove_provider(&vec![1], &vec![9]);
    assert_eq!(store.providers(&vec![1]).len(), 0);
}

/// The eviction scenario: a bound of two, and a third key that is closer
/// than one already cached. The farthest key leaves, cache and store
/// agree on what is left, and the size stays within the bound.
#[test]
fn eviction_drops_farthest_key() {
    let peer = vec![0x00u8];
    let k1 = vec![0x02u8];
    let k2 = vec![0x07u8];
    let k3 = vec![0x01u8];
    let mut wrapper = LimitedSizeRecordStorageWrapper::new(MemoryRecordStorage::new(), 2, peer);
    wrapper.put(record(k1.clone(), vec![1])).unwrap();
    assert_eq!(wrapper.size(), wrapper.records().len());
    wrapper.put(record(k2.clone(), vec![2])).unwrap();
    assert_eq!(wrapper.size(), wrapper.records().len());
    wrapper.put(record(k3.clone(), vec![3])).unwrap();
    // xor(k3, peer) < xor(k1, peer) < xor(k2, peer): k2 is evicted.
    assert_eq!(wrapper.size(), 2);
    assert_eq!(wrapper.records().len(), 2);
    assert!(wrapper.get(&k1).is_some());
    assert!(wrapper.get(&k3).is_some());
    assert!(wrapper.get(&k2).is_none());
}

#[test]
fn eviction_wrapper_replacement_does_not_grow() {
    let peer = vec![0x00u8];
    let key = vec![0x05u8];
    let mut wrapper = LimitedSizeRecordStorageWrapper::new(MemoryRecordStorage::new(), 2, peer);
    wrapper.put(record(key.clone(), vec![1])).unwrap();
    wrapper.put(record(key.clone(), vec![2])).unwrap();
    assert_eq!(wrapper.size(), 1);
    assert_eq!(wrapper.get(&key).unwrap().value, vec![2]);
    wrapper.remove(&key);
    assert_eq!(wrapper.size(), 0);
    assert!(wrapper.get(&key).is_none());
}

#[test]
fn wrapper_loads_existing_records() {
    let mut inner = MemoryRecordStorage::new();
    inner.put(record(vec![0x01], vec![1])).unwrap();
    inner.put(record(vec![0x02], vec![2])).unwrap();
    let wrapper = LimitedSizeRecordStorageWrapper::new(inner, 4, vec![0x00]);
    assert_eq!(wrapper.size(), 2);
    assert_eq!(wrapper.records().len(), 2);
}

#[test]
fn record_fields_codec_round_trip() {
    let encoded = encode_record_fields(&vec![1, 2], &vec![3], &Some(vec![4, 5, 6]));
    // The wire form is what the codec itself produces.
    let expected = (vec![1u8, 2], vec![3u8], Some(vec![4u8, 5, 6])).encode();
    assert_eq!(encoded, expected);
    let (key, value, publisher) = decode_record_fields(&encoded).expect("round trip");
    assert_eq!(key, vec![1, 2]);
    assert_eq!(value, vec![3]);
    assert_eq!(publisher, Some(vec![4, 5, 6]));
    assert!(decode_record_fields(&vec![0xFF]).is_none());
}

#[test]
fn byte_set_codec_round_trip() {
    let items = vec![vec![1u8], vec![2u8, 2], vec![3u8]];
    let encoded = encode_byte_set(&items);
    let expected = set_value(&[&[1], &[2, 2], &[3]]);
    assert_eq!(encoded, expected);
    assert_eq!(decode_byte_set(&encoded), Some(items));
}

#[test]
fn union_sorted_merges_ascending() {
    let a = vec![vec![1u8], vec![3u8]];
    let b = vec![vec![2u8], vec![3u8], vec![4u8]];
    assert_eq!(union_sorted(&a, &b), vec![vec![1u8], vec![2u8], vec![3u8], vec![4u8]]);
}

/// The sector accumulation scenario: a set `{a, b}` stored, a set
/// `{b, c}` put over it under a sector-coded key, and the stored value
/// decoding to `{a, b, c}`.
#[test]
fn sector_merge_accumulates_sets() {
    let key = multihash_key(SECTOR_MULTIHASH_CODE, &[0x01, 0x02]);
    let old_rec = record(key.clone(), set_value(&[b"a", b"b"]));
    let new_rec = record(key.clone(), set_value(&[b"b", b"c"]));
    let merged = merge_records(new_rec, Some(old_rec));
    let decoded = BTreeSet::<Vec<u8>>::decode(&mut merged.value.as_slice()).expect("set value");
    let expected: BTreeSet<Vec<u8>> =
        [b"a".to_vec(), b"b".to_vec(), b"c".to_vec()].into_iter().collect();
    assert_eq!(decoded, expected);
    assert_eq!(merged.key, key);
}

#[test]
fn merge_replaces_for_other_multihash() {
    let key = multihash_key(0x12, &[0x01]);
    let old_rec = record(key.clone(), set_value(&[b"a"]));
    let new_rec = record(key.clone(), set_value(&[b"b"]));
    let merged = merge_records(new_rec, Some(old_rec));
    assert_eq!(merged.value, set_value(&[b"b"]));
}

#[test]
fn merge_replaces_on_non_canonical_set_value() {
    let key = multihash_key(SECTOR_MULTIHASH_CODE, &[0x01]);
    // A set encoding with a trailing byte decodes loosely but is the
    // canonical encoding of no set: the merge replaces instead.
    let mut sloppy = set_value(&[b"a"]);
    sloppy.push(0x00);
    let old_rec = record(key.clone(), sloppy);
    let new_rec = record(key.clone(), set_value(&[b"b"]));
    let merged = merge_records(new_rec, Some(old_rec));
    assert_eq!(merged.value, set_value(&[b"b"]));
}

#[test]
fn merge_replaces_on_undecodable_value() {
    let key = multihash_key(SECTOR_MULTIHASH_CODE, &[0x01]);
    let old_rec = record(key.clone(), vec![0xFF, 0xFF, 0xFF]);
    let new_rec = record(key.clone(), vec![42]);
    let merged = merge_records(new_rec, Some(old_rec));
    assert_eq!(merged.value, vec![42]);
}

#[test]
fn merge_without_old_record_keeps_new() {
    let rec = record(vec![1], vec![2]);
    let merged = merge_records(rec, None);
    assert_eq!(merged.value, vec![2]);
}
