//! Append-only, content-addressed storage of encoded records, backed by a
//! `sled` tree keyed by the 32-byte record ids. Writes are idempotent: a
//! record already stored is never overwritten.

use vstd::prelude::*;
use crate::error::AkashaError;
use crate::ext::store::{db_location, tree_location, 
    tree_contents, sled_open, sled_open_temporary_tree, db_open_tree, tree_contains_key, tree_insert,
    tree_get, tree_remove, tree_entries, db_flush, db_size_on_disk,
};
use crate::record::RecordId;

verus! {

/// The name of the tree that holds the records.
pub const RECORDS_TREE: &'static str = "records";

/// What the store holds after putting `value` under `key`: a key already
/// present keeps its value.
pub open spec fn after_put(m: Map<Seq<u8>, Seq<u8>>, key: Seq<u8>, value: Seq<u8>) -> Map<Seq<u8>, Seq<u8>> {
    if m.contains_key(key) { m } else { m.insert(key, value) }
}

/// The value stored under `key`, if any.
pub open spec fn lookup(m: Map<Seq<u8>, Seq<u8>>, key: Seq<u8>) -> Option<Seq<u8>> {
    if m.contains_key(key) { Some(m[key]) } else { None }
}

/// Strict byte-wise lexicographic order: the order of `sled` keys.
pub open spec fn bytes_less(a: Seq<u8>, b: Seq<u8>) -> bool
    decreases a.len(),
{
    if a.len() == 0 {
        b.len() > 0
    } else if b.len() == 0 {
        false
    } else if a[0] != b[0] {
        a[0] < b[0]
    } else {
        bytes_less(a.drop_first(), b.drop_first())
    }
}

/// `ks` lists every key of `m`, each once, in increasing byte order.
pub open spec fn keys_in_order(m: Map<Seq<u8>, Seq<u8>>, ks: Seq<Seq<u8>>) -> bool {
    &&& forall|a: int, b: int| 0 <= a < b < ks.len() ==> bytes_less(#[trigger] ks[a], #[trigger] ks[b])
    &&& forall|a: int| 0 <= a < ks.len() ==> m.contains_key(#[trigger] ks[a])
    &&& forall|k: Seq<u8>| m.contains_key(k) ==> ks.contains(k)
}

/// `vals` are the values of `m`, in increasing byte order of their keys.
pub open spec fn values_in_key_order(m: Map<Seq<u8>, Seq<u8>>, vals: Seq<Seq<u8>>) -> bool {
    exists|ks: Seq<Seq<u8>>| #[trigger] keys_in_order(m, ks) && ks.len() == vals.len()
        && forall|i: int| 0 <= i < vals.len() ==> vals[i] == m[ks[i]]
}

/// No byte string comes before itself.
pub proof fn lemma_bytes_less_irreflexive(a: Seq<u8>)
    ensures
        !bytes_less(a, a),
    decreases a.len(),
{
    if a.len() > 0 {
        lemma_bytes_less_irreflexive(a.drop_first());
    }
}

/// A listing of every key in order has as many entries as there are keys.
pub proof fn lemma_keys_in_order_count(m: Map<Seq<u8>, Seq<u8>>, ks: Seq<Seq<u8>>)
    requires
        keys_in_order(m, ks),
    ensures
        m.dom().finite(),
        ks.len() == m.dom().len(),
{
    assert(ks.no_duplicates()) by {
        assert forall|a: int, b: int| 0 <= a < b < ks.len() implies ks[a] != ks[b] by {
            if ks[a] == ks[b] {
                lemma_bytes_less_irreflexive(ks[a]);
            }
        }
    }
    ks.unique_seq_to_set();
    assert forall|k: Seq<u8>| ks.to_set().contains(k) == m.dom().contains(k) by {
        if ks.contains(k) {
            let a = choose|a: int| 0 <= a < ks.len() && ks[a] == k;
        }
    }
    assert(ks.to_set() =~= m.dom());
}

/// The views of the items of a scan.
pub open spec fn entry_views(r: Seq<Option<(Vec<u8>, Vec<u8>)>>) -> Seq<Option<(Seq<u8>, Seq<u8>)>> {
    r.map_values(|o: Option<(Vec<u8>, Vec<u8>)>| match o {
        Some(e) => Some((e.0@, e.1@)),
        None => None,
    })
}

/// The items of a scan that were read, in order.
pub open spec fn present(es: Seq<Option<(Seq<u8>, Seq<u8>)>>) -> Seq<(Seq<u8>, Seq<u8>)>
    decreases es.len(),
{
    if es.len() == 0 {
        Seq::empty()
    } else {
        match es.last() {
            Some(e) => present(es.drop_last()).push(e),
            None => present(es.drop_last()),
        }
    }
}

/// The values of the items of a scan that were read, in order.
pub fn readable_values(entries: &Vec<Option<(Vec<u8>, Vec<u8>)>>) -> (r: Vec<Vec<u8>>)
    ensures
        r@.map_values(|v: Vec<u8>| v@) == present(entry_views(entries@)).map_values(|e: (Seq<u8>, Seq<u8>)| e.1),
{
    let ghost es = entry_views(entries@);
    let mut out: Vec<Vec<u8>> = Vec::new();
    let mut i: usize = 0;
    proof {
        assert(es.take(0) =~= Seq::<Option<(Seq<u8>, Seq<u8>)>>::empty());
        assert(out@.map_values(|v: Vec<u8>| v@) =~= Seq::<Seq<u8>>::empty());
        assert(present(es.take(0)).map_values(|e: (Seq<u8>, Seq<u8>)| e.1) =~= Seq::<Seq<u8>>::empty());
    }
    while i < entries.len()
        invariant
            i <= entries.len(),
            es == entry_views(entries@),
            out@.map_values(|v: Vec<u8>| v@) == present(es.take(i as int)).map_values(|e: (Seq<u8>, Seq<u8>)| e.1),
        decreases entries.len() - i,
    {
        let ghost prev = out@;
        proof {
            let t = es.take(i + 1);
            assert(t.drop_last() =~= es.take(i as int));
            assert(t.last() == es[i as int]);
        }
        match &entries[i] {
            Some(e) => {
                out.push(e.1.clone());
                proof {
                    assert(es[i as int] == Some((e.0@, e.1@)));
                    let p = present(es.take(i as int));
                    assert(present(es.take(i + 1)) == p.push((e.0@, e.1@)));
                    assert(out@.map_values(|v: Vec<u8>| v@) =~= prev.map_values(|v: Vec<u8>| v@).push(e.1@));
                    assert(p.push((e.0@, e.1@)).map_values(|e: (Seq<u8>, Seq<u8>)| e.1)
                        =~= p.map_values(|e: (Seq<u8>, Seq<u8>)| e.1).push(e.1@));
                }
            },
            None => {
                proof {
                    assert(es[i as int] is None);
                }
            },
        }
        i = i + 1;
    }
    proof {
        assert(es.take(i as int) =~= es);
    }
    out
}

/// A store of encoded records keyed by their ids.
pub struct StorageEngine {
    db: sled::Db,
    records: sled::Tree,
}

impl StorageEngine {
    /// The encoded records held, by id.
    pub closed spec fn stored(&self) -> Map<Seq<u8>, Seq<u8>> {
        tree_contents(self.records)
    }

    /// The path of the database the store was opened at.
    pub closed spec fn location(&self) -> Seq<char> {
        db_location(self.db)
    }

    /// The tree the records are kept in: the path of its database and its name.
    pub closed spec fn records_at(&self) -> (Seq<char>, Seq<char>) {
        tree_location(self.records)
    }

    /// Opens (or creates) the store at `path`: its records are kept in the
    /// tree `records` of the database at `path`.
    pub fn open(path: &str) -> (r: Result<Self, AkashaError>)
        ensures
            r matches Ok(e) ==> e.location() == path@ && e.records_at() == (path@, RECORDS_TREE@),
            r matches Err(e) ==> e is Storage,
    {
        let db = match sled_open(path) {
            Ok(db) => db,
            Err(e) => return Err(AkashaError::Storage(e)),
        };
        match db_open_tree(&db, RECORDS_TREE) {
            Ok(records) => Ok(StorageEngine { db, records }),
            Err(e) => Err(AkashaError::Storage(e)),
        }
    }

    /// Opens an empty store in a fresh temporary location, deleted when
    /// dropped.
    pub fn open_memory() -> (r: Result<Self, AkashaError>)
        ensures
            r matches Ok(e) ==> e.stored().is_empty(),
            r matches Err(e) ==> e is Storage,
    {
        match sled_open_temporary_tree(RECORDS_TREE) {
            Ok((db, records)) => Ok(StorageEngine { db, records }),
            Err(e) => Err(AkashaError::Storage(e)),
        }
    }

    /// Stores `encoded` under `id` unless `id` is already stored: `true` when
    /// it was newly stored, `false` when it was there already (and is left
    /// as it was).
    pub fn put(&mut self, id: &RecordId, encoded: Vec<u8>) -> (r: Result<bool, AkashaError>)
        ensures
            r matches Ok(fresh) ==> {
                &&& fresh == !old(self).stored().contains_key(id@)
                &&& final(self).stored() == after_put(old(self).stored(), id@, encoded@)
            },
            r matches Err(e) ==> e is Storage,
            final(self).location() == old(self).location(),
            final(self).records_at() == old(self).records_at(),
    {
        let key = id.as_slice();
        match tree_contains_key(&self.records, key) {
            Err(e) => Err(AkashaError::Storage(e)),
            Ok(true) => Ok(false),
            Ok(false) => match tree_insert(&mut self.records, key, encoded) {
                Ok(_) => Ok(true),
                Err(e) => Err(AkashaError::Storage(e)),
            },
        }
    }

    /// The encoded record stored under `id`, if any.
    pub fn get(&self, id: &RecordId) -> (r: Result<Option<Vec<u8>>, AkashaError>)
        ensures
            r matches Ok(found) ==> match found {
                Some(v) => lookup(self.stored(), id@) == Some(v@),
                None => lookup(self.stored(), id@) is None,
            },
            r matches Err(e) ==> e is Storage,
    {
        match tree_get(&self.records, id.as_slice()) {
            Ok(found) => Ok(found),
            Err(e) => Err(AkashaError::Storage(e)),
        }
    }

    /// Deletes the record stored under `id`: `true` when there was one.
    pub fn delete(&mut self, id: &RecordId) -> (r: Result<bool, AkashaError>)
        ensures
            r matches Ok(existed) ==> {
                &&& existed == old(self).stored().contains_key(id@)
                &&& final(self).stored() == old(self).stored().remove(id@)
            },
            r matches Err(e) ==> e is Storage,
            final(self).location() == old(self).location(),
            final(self).records_at() == old(self).records_at(),
    {
        match tree_remove(&mut self.records, id.as_slice()) {
            Ok(prev) => Ok(prev.is_some()),
            Err(e) => Err(AkashaError::Storage(e)),
        }
    }

    /// Every encoded record, in increasing byte order of the ids. Reads that
    /// fail are tried again by the scan, so every record comes back once.
    pub fn scan_all(&self) -> (r: Result<Vec<Vec<u8>>, AkashaError>)
        ensures
            r matches Ok(vals) && values_in_key_order(self.stored(), vals@.map_values(|v: Vec<u8>| v@)),
    {
        let entries = tree_entries(&self.records);
        let vals = readable_values(&entries);
        proof {
            let m = self.stored();
            let p = present(entry_views(entries@));
            let ks = p.map_values(|e: (Seq<u8>, Seq<u8>)| e.0);
            let vs = vals@.map_values(|v: Vec<u8>| v@);
            assert(keys_in_order(m, ks));
            assert(vs == p.map_values(|e: (Seq<u8>, Seq<u8>)| e.1));
            assert forall|i: int| 0 <= i < vs.len() implies vs[i] == m[ks[i]] by {
                assert(m[(p[i]).0] == p[i].1);
            }
        }
        Ok(vals)
    }

    /// The number of records stored.
    pub fn count(&self) -> (r: usize)
        ensures
            self.stored().dom().finite(),
            r == self.stored().dom().len(),
    {
        let entries = tree_entries(&self.records);
        let ghost es = entry_views(entries@);
        let mut n: usize = 0;
        let mut i: usize = 0;
        proof {
            assert(es.take(0) =~= Seq::<Option<(Seq<u8>, Seq<u8>)>>::empty());
        }
        while i < entries.len()
            invariant
                i <= entries.len(),
                es == entry_views(entries@),
                n <= i,
                n == present(es.take(i as int)).len(),
            decreases entries.len() - i,
        {
            proof {
                let t = es.take(i + 1);
                assert(t.drop_last() =~= es.take(i as int));
                assert(t.last() == es[i as int]);
            }
            if entries[i].is_some() {
                proof {
                    assert(es[i as int] is Some);
                }
                n = n + 1;
            } else {
                proof {
                    assert(es[i as int] is None);
                }
            }
            i = i + 1;
        }
        proof {
            assert(es.take(i as int) =~= es);
            let m = self.stored();
            let ks = present(es).map_values(|e: (Seq<u8>, Seq<u8>)| e.0);
            lemma_keys_in_order_count(m, ks);
        }
        n
    }

    /// Writes pending changes to disk.
    pub fn flush(&self) -> (r: Result<(), AkashaError>)
        ensures
            r matches Err(e) ==> e is Storage,
    {
        match db_flush(&self.db) {
            Ok(_) => Ok(()),
            Err(e) => Err(AkashaError::Storage(e)),
        }
    }

    /// The size of the database files, in bytes.
    pub fn size_on_disk(&self) -> (r: Result<u64, AkashaError>)
        ensures
            r matches Err(e) ==> e is Storage,
    {
        match db_size_on_disk(&self.db) {
            Ok(n) => Ok(n),
            Err(e) => Err(AkashaError::Storage(e)),
        }
    }
}


/// Read after write: after a put, a get of the same id gives what was put,
/// unless the id was stored before, in which case the earlier value stays.
pub proof fn law_put_then_get(m: Map<Seq<u8>, Seq<u8>>, key: Seq<u8>, value: Seq<u8>)
    ensures
        lookup(after_put(m, key, value), key) == Some(if m.contains_key(key) { m[key] } else { value }),
{
}

/// Puts are idempotent: putting under a stored id again changes nothing.
pub proof fn law_put_idempotent(m: Map<Seq<u8>, Seq<u8>>, key: Seq<u8>, first: Seq<u8>, second: Seq<u8>)
    ensures
        after_put(m, key, first).contains_key(key),
        after_put(after_put(m, key, first), key, second) == after_put(m, key, first),
{
}

/// Deleting a freshly put id leaves the store as it was before the put.
pub proof fn law_delete_undoes_put(m: Map<Seq<u8>, Seq<u8>>, key: Seq<u8>, value: Seq<u8>)
    requires
        !m.contains_key(key),
    ensures
        after_put(m, key, value).remove(key) == m,
        lookup(after_put(m, key, value).remove(key), key) is None,
{
    assert(m.insert(key, value).remove(key) =~= m);
}

} // verus!
