use vstd::prelude::*;

use std::sync::Arc;

use crate::errors::RecordStoreError;
use crate::record_heap::bytes_lt;
use crate::records::{Record, RecordStorage, RecordView};
use crate::scale_codec::{
    decode_record_fields, encodable_record, encode_record_fields, merge_records, record_encoding,
};

verus! {

/// The handle to one parity-db instance with a single b-tree indexed
/// column. The database itself is opaque; `db_contents` names what the
/// column currently holds for a reader of this process.
#[verifier::external_body]
pub struct ParityDbHandle {
    db: Arc<parity_db::Db>,
}

/// The key-value pairs the database column holds, as this process reads
/// them.
pub uninterp spec fn db_contents(h: &ParityDbHandle) -> Map<Seq<u8>, Seq<u8>>;

/// Relies on parity_db::Options::with_columns and parity_db::Db::open_or_create:
/// opens or creates the database at `path` with one b-tree indexed column
/// and no statistics, `None` when opening fails.
#[verifier::external_body]
pub fn open_parity_db(path: &str) -> (r: Option<ParityDbHandle>) {
    let mut options = parity_db::Options::with_columns(std::path::Path::new(path), 1);
    options.columns[0].btree_index = true;
    options.stats = false;
    match parity_db::Db::open_or_create(&options) {
        Ok(db) => Some(ParityDbHandle { db: Arc::new(db) }),
        Err(_) => None,
    }
}

/// Relies on parity_db::Db::get: the value stored under the key, `None`
/// when the key is absent; a read error is reported as such.
#[verifier::external_body]
pub fn db_get(h: &ParityDbHandle, key: &Vec<u8>) -> (r: Result<Option<Vec<u8>>, ()>)
    ensures
        match r {
            Ok(found) => match found {
                Some(v) => db_contents(h).contains_key(key@) && v@ == db_contents(h)[key@],
                None => !db_contents(h).contains_key(key@),
            },
            Err(e) => true,
        },
{
    match h.db.get(0, key.as_slice()) {
        Ok(v) => Ok(v),
        Err(_) => Err(()),
    }
}

/// Relies on parity_db::Db::commit: one set or one removal, visible to
/// later reads when the commit is accepted; a single-change commit that
/// is refused changes nothing, as the change set is validated before it
/// is enqueued.
#[verifier::external_body]
pub fn db_commit(h: &mut ParityDbHandle, key: &Vec<u8>, value: Option<Vec<u8>>) -> (ok: bool)
    ensures
        ok && (value matches Some(v)) ==> db_contents(final(h)) == db_contents(old(h)).insert(
            key@,
            value->Some_0@,
        ),
        ok && value is None ==> db_contents(final(h)) == db_contents(old(h)).remove(key@),
        !ok ==> db_contents(final(h)) == db_contents(old(h)),
{
    let tx = [(0u8, key.clone(), value)];
    h.db.commit(tx).is_ok()
}

/// Relies on parity_db::Db::iter and parity_db::BTreeIterator
/// (seek_to_first, next): all stored pairs, ascending by key; any
/// iteration error is reported as such.
#[verifier::external_body]
pub fn db_iter_all(h: &ParityDbHandle) -> (r: Option<Vec<(Vec<u8>, Vec<u8>)>>)
    ensures
        match r {
            Some(v) => {
                &&& forall|i: int, j: int|
                    0 <= i < j < v@.len() ==> bytes_lt(
                        (#[trigger] v@[i]).0@,
                        (#[trigger] v@[j]).0@,
                    )
                &&& forall|i: int|
                    0 <= i < v@.len() ==> db_contents(h).contains_key((#[trigger] v@[i]).0@)
                        && v@[i].1@ == db_contents(h)[v@[i].0@]
                &&& forall|k: Seq<u8>|
                    db_contents(h).contains_key(k) ==> exists|i: int|
                        0 <= i < v@.len() && (#[trigger] v@[i]).0@ == k
            },
            None => true,
        },
{
    let mut out: Vec<(Vec<u8>, Vec<u8>)> = Vec::new();
    let mut iter = match h.db.iter(0) {
        Ok(it) => it,
        Err(_) => return None,
    };
    if iter.seek_to_first().is_err() {
        return None;
    }
    loop {
        match iter.next() {
            Ok(Some(p)) => out.push(p),
            Ok(None) => return Some(out),
            Err(_) => return None,
        }
    }
}

/// Turns a stored byte value back into a record: the decoded key, value
/// and publisher, with no expiry, as expiry is never persisted. Only a
/// canonical encoding counts: the fields must encode back to the stored
/// bytes, so a hit names its own preimage.
pub fn convert_to_record(data: &Vec<u8>) -> (r: Option<Record>)
    ensures
        match r {
            Some(rec) => data@ == record_encoding(rec@.key, rec@.value, rec@.publisher)
                && encodable_record(rec@.key, rec@.value, rec@.publisher) && rec@.expires is None,
            None => forall|k: Seq<u8>, v: Seq<u8>, p: Option<Seq<u8>>|
                encodable_record(k, v, p) ==> data@ != record_encoding(k, v, p),
        },
{
    let (key, value, publisher) = match decode_record_fields(data) {
        Some(t) => t,
        None => {
            return None;
        },
    };
    if key.len() > u32::MAX as usize || value.len() > u32::MAX as usize {
        return None;
    }
    match &publisher {
        Some(pb) => {
            if pb.len() > u32::MAX as usize {
                return None;
            }
        },
        None => {},
    }
    let enc = encode_record_fields(&key, &value, &publisher);
    if !crate::util::bytes_equal(&enc, data) {
        return None;
    }
    Some(Record { key, value, publisher, expires: None })
}

/// The record store persisted in parity-db. On put the new record is
/// merged with the stored one by the sector rule of `merge_records`; a
/// database error on read is treated as a miss and one on write is
/// ignored, as the engine's error policy prescribes, so the contents are
/// not tracked as a map (`obeys_contents` is off). What each call
/// promises is stated over `db_contents`.
pub struct ParityDbRecordStorage {
    pub handle: ParityDbHandle,
}

impl ParityDbRecordStorage {
    pub fn new(path: &str) -> (r: Option<ParityDbRecordStorage>) {
        match open_parity_db(path) {
            Some(handle) => Some(ParityDbRecordStorage { handle }),
            None => None,
        }
    }
}

impl RecordStorage for ParityDbRecordStorage {
    open spec fn inv(&self) -> bool {
        true
    }

    /// Not tracked: the records live on disk behind `db_contents`, and
    /// the methods state their promises over that map directly.
    open spec fn contents(&self) -> Map<Seq<u8>, RecordView> {
        Map::empty()
    }

    open spec fn obeys_contents() -> bool {
        false
    }

    open spec fn stored_record(prior: Map<Seq<u8>, RecordView>, r: RecordView) -> RecordView {
        r
    }

    /// A hit decodes the stored bytes, which are exactly the encoding of
    /// the returned fields; a miss may be an absent key, a read error or
    /// an undecodable value.
    fn get(&self, key: &Vec<u8>) -> (r: Option<Record>)
        ensures
            r matches Some(rec) ==> db_contents(&self.handle).contains_key(key@) && db_contents(
                &self.handle,
            )[key@] == record_encoding(rec@.key, rec@.value, rec@.publisher) && rec@.expires
                is None,
    {
        match db_get(&self.handle, key) {
            Ok(Some(data)) => convert_to_record(&data),
            Ok(None) => None,
            Err(_) => None,
        }
    }

    /// Merges with the stored record by the sector rule, then writes the
    /// result under the record's key. A refused write, or a merged record
    /// whose field lengths the codec cannot encode, leaves the column
    /// alone; either way the call reports success, as a background write
    /// failure must not fail the request. When the write lands, the
    /// stored bytes are the encoding of a merged record that keeps the
    /// put record's key and publisher, and its value whenever the key was
    /// absent before.
    fn put(&mut self, r: Record) -> (res: Result<(), RecordStoreError>)
        ensures
            res == Result::<(), RecordStoreError>::Ok(()),
            db_contents(&final(self).handle) == db_contents(&old(self).handle) || exists|
                m: RecordView,
            |
                {
                    &&& m.key == r@.key
                    &&& m.publisher == r@.publisher
                    &&& (!db_contents(&old(self).handle).contains_key(r@.key) ==> m.value
                        == r@.value)
                    &&& db_contents(&final(self).handle) == db_contents(
                        &old(self).handle,
                    ).insert(r@.key, #[trigger] record_encoding(m.key, m.value, m.publisher))
                },
    {
        let key = crate::util::clone_bytes(&r.key);
        let ghost rv = r@;
        let old_rec = self.get(&key);
        let merged = merge_records(r, old_rec);
        // The codec's compact length prefixes carry 32-bit values; a
        // record with an over-long field cannot be encoded, and the write
        // is skipped like any other refused write.
        if merged.key.len() > u32::MAX as usize || merged.value.len() > u32::MAX as usize {
            return Ok(());
        }
        match &merged.publisher {
            Some(pb) => {
                if pb.len() > u32::MAX as usize {
                    return Ok(());
                }
            },
            None => {},
        }
        let encoded = encode_record_fields(&merged.key, &merged.value, &merged.publisher);
        let ghost mv = merged@;
        let ok = db_commit(&mut self.handle, &key, Some(encoded));
        proof {
            if ok {
                assert(mv.key == rv.key && mv.publisher == rv.publisher);
                assert(!db_contents(&old(self).handle).contains_key(rv.key) ==> mv.value
                    == rv.value);
                assert(db_contents(&self.handle) == db_contents(&old(self).handle).insert(
                    rv.key,
                    record_encoding(mv.key, mv.value, mv.publisher),
                ));
            }
        }
        Ok(())
    }

    /// Removes the key's record; a refused write leaves the column alone.
    fn remove(&mut self, key: &Vec<u8>)
        ensures
            db_contents(&final(self).handle) == db_contents(&old(self).handle).remove(key@)
                || db_contents(&final(self).handle) == db_contents(&old(self).handle),
    {
        let _ = db_commit(&mut self.handle, key, None);
    }

    /// All stored records in ascending key order, up to the first pair
    /// that does not decode; an iteration error yields nothing, as the
    /// error policy treats it as an empty scan. Every returned record is
    /// the decoding of a value stored under some key, those keys strictly
    /// ascending in store order.
    fn records(&self) -> (v: Vec<Record>)
        ensures
            exists|ks: Seq<Seq<u8>>| records_listing(&self.handle, v@, ks),
    {
        let pairs = match db_iter_all(&self.handle) {
            Some(p) => p,
            None => {
                let empty_out: Vec<Record> = Vec::new();
                proof {
                    assert(records_listing(&self.handle, empty_out@, Seq::<Seq<u8>>::empty()));
                }
                return empty_out;
            },
        };
        let mut out: Vec<Record> = Vec::new();
        let mut i: usize = 0;
        while i < pairs.len()
            invariant
                out@.len() == i,
                i <= pairs@.len(),
                forall|a: int, b: int|
                    0 <= a < b < pairs@.len() ==> bytes_lt(
                        (#[trigger] pairs@[a]).0@,
                        (#[trigger] pairs@[b]).0@,
                    ),
                forall|a: int|
                    0 <= a < pairs@.len() ==> db_contents(&self.handle).contains_key(
                        (#[trigger] pairs@[a]).0@,
                    ) && pairs@[a].1@ == db_contents(&self.handle)[pairs@[a].0@],
                forall|j: int|
                    0 <= j < i ==> db_contents(&self.handle)[pairs@[j].0@] == record_encoding(
                        (#[trigger] out@[j])@.key,
                        out@[j]@.value,
                        out@[j]@.publisher,
                    ) && out@[j]@.expires is None,
            decreases pairs@.len() - i,
        {
            match convert_to_record(&pairs[i].1) {
                Some(rec) => out.push(rec),
                None => {
                    proof {
                        lemma_records_prefix(&self.handle, pairs@, out@, i as int);
                    }
                    return out;
                },
            }
            i += 1;
        }
        proof {
            lemma_records_prefix(&self.handle, pairs@, out@, pairs@.len() as int);
        }
        out
    }
}

/// The relation `records` promises: one strictly ascending stored key per
/// returned record, whose stored value is exactly that record's encoding.
pub open spec fn records_listing(h: &ParityDbHandle, recs: Seq<Record>, ks: Seq<Seq<u8>>) -> bool {
    &&& ks.len() == recs.len()
    &&& forall|a: int, b: int| 0 <= a < b < ks.len() ==> bytes_lt(#[trigger] ks[a], #[trigger] ks[b])
    &&& forall|i: int|
        0 <= i < ks.len() ==> db_contents(h).contains_key(#[trigger] ks[i]) && db_contents(h)[ks[i]]
            == record_encoding(recs[i]@.key, recs[i]@.value, recs[i]@.publisher) && recs[i]@.expires
            is None
}

/// A decoded prefix of the stored pairs is a listing under the prefix of
/// the stored keys.
proof fn lemma_records_prefix(
    h: &ParityDbHandle,
    pairs: Seq<(Vec<u8>, Vec<u8>)>,
    recs: Seq<Record>,
    n: int,
)
    requires
        0 <= n <= pairs.len(),
        recs.len() == n,
        forall|a: int, b: int|
            0 <= a < b < pairs.len() ==> bytes_lt((#[trigger] pairs[a]).0@, (#[trigger] pairs[b]).0@),
        forall|a: int| 0 <= a < pairs.len() ==> db_contents(h).contains_key((#[trigger] pairs[a]).0@),
        forall|j: int|
            0 <= j < n ==> db_contents(h)[pairs[j].0@] == record_encoding(
                (#[trigger] recs[j])@.key,
                recs[j]@.value,
                recs[j]@.publisher,
            ) && recs[j]@.expires is None,
    ensures
        exists|ks: Seq<Seq<u8>>| records_listing(h, recs, ks),
{
    let ks = Seq::new(n as nat, |i: int| pairs[i].0@);
    assert forall|a: int, b: int| 0 <= a < b < ks.len() implies bytes_lt(
        #[trigger] ks[a],
        #[trigger] ks[b],
    ) by {
        assert(ks[a] == pairs[a].0@ && ks[b] == pairs[b].0@);
    }
    assert forall|i: int|
        0 <= i < ks.len() implies db_contents(h).contains_key(#[trigger] ks[i]) && db_contents(
        h,
    )[ks[i]] == record_encoding(recs[i]@.key, recs[i]@.value, recs[i]@.publisher)
        && recs[i]@.expires is None by {
        assert(ks[i] == pairs[i].0@);
        assert(db_contents(h).contains_key(pairs[i].0@));
        assert(db_contents(h)[pairs[i].0@] == record_encoding(
            recs[i]@.key,
            recs[i]@.value,
            recs[i]@.publisher,
        ));
    }
    assert(records_listing(h, recs, ks));
}

} // verus!
