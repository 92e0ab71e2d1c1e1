use vstd::prelude::*;
use crate::storage::engine::{keys_in_order, present, entry_views};

verus! {

/// The error type of the `sled` crate, carried opaquely.
#[verifier::external_type_specification]
#[verifier::external_body]
pub struct ExSledError(sled::Error);

/// A `sled` database handle, carried opaquely.
#[verifier::external_type_specification]
#[verifier::external_body]
pub struct ExSledDb(sled::Db);

/// A `sled` tree (a keyspace of a database), carried opaquely.
#[verifier::external_type_specification]
#[verifier::external_body]
pub struct ExSledTree(sled::Tree);

/// What a `sled` tree holds: its keys and their values.
pub uninterp spec fn tree_contents(t: sled::Tree) -> Map<Seq<u8>, Seq<u8>>;

/// The path a `sled` database was opened at.
pub uninterp spec fn db_location(db: sled::Db) -> Seq<char>;

/// Which tree a `sled` tree handle is: the path of its database and the
/// tree's name.
pub uninterp spec fn tree_location(t: sled::Tree) -> (Seq<char>, Seq<char>);

/// `sled::Config::new().path(path).open()`: opens (or creates) the database
/// stored at `path`; the handle is the database at `path`. What it holds
/// comes from the disk: that is not stated.
#[verifier::external_body]
pub(crate) fn sled_open(path: &str) -> (r: Result<sled::Db, sled::Error>)
    ensures
        r matches Ok(db) ==> db_location(db) == path@,
{
    sled::Config::new().path(path).open()
}

/// `sled::Config::new().temporary(true).open()` followed by `Db::open_tree`:
/// a new database in a fresh temporary location (deleted when dropped), and
/// its tree called `name`, which holds nothing yet.
#[verifier::external_body]
pub(crate) fn sled_open_temporary_tree(name: &str) -> (r: Result<(sled::Db, sled::Tree), sled::Error>)
    ensures
        r matches Ok(opened) ==> tree_contents(opened.1).is_empty(),
{
    let db = sled::Config::new().temporary(true).open()?;
    let tree = db.open_tree(name)?;
    Ok((db, tree))
}

/// `Db::open_tree`: opens (or creates) the tree called `name` of `db`; the
/// handle is that tree. What it holds comes from the database: that is not
/// stated.
#[verifier::external_body]
pub(crate) fn db_open_tree(db: &sled::Db, name: &str) -> (r: Result<sled::Tree, sled::Error>)
    ensures
        r matches Ok(t) ==> tree_location(t) == (db_location(*db), name@),
{
    db.open_tree(name)
}

/// `Tree::contains_key`: whether `key` is bound, when the read succeeds.
#[verifier::external_body]
pub(crate) fn tree_contains_key(t: &sled::Tree, key: &[u8]) -> (r: Result<bool, sled::Error>)
    ensures
        r matches Ok(b) ==> b == tree_contents(*t).contains_key(key@),
{
    t.contains_key(key)
}

/// `Tree::insert`: binds `key` to `value` and returns the value it replaced,
/// when the write succeeds. After a failed write nothing is stated of the
/// tree's contents; the handle stays the same tree either way.
#[verifier::external_body]
pub(crate) fn tree_insert(t: &mut sled::Tree, key: &[u8], value: Vec<u8>) -> (r: Result<Option<Vec<u8>>, sled::Error>)
    ensures
        tree_location(*final(t)) == tree_location(*old(t)),
        r matches Ok(prev) ==> {
            &&& tree_contents(*final(t)) == tree_contents(*old(t)).insert(key@, value@)
            &&& match prev {
                Some(v) => tree_contents(*old(t)).contains_key(key@) && v@ == tree_contents(*old(t))[key@],
                None => !tree_contents(*old(t)).contains_key(key@),
            }
        },
{
    t.insert(key, value).map(|prev| prev.map(|v| v.to_vec()))
}

/// `Tree::get`: the value bound to `key`, when the read succeeds.
#[verifier::external_body]
pub(crate) fn tree_get(t: &sled::Tree, key: &[u8]) -> (r: Result<Option<Vec<u8>>, sled::Error>)
    ensures
        r matches Ok(found) ==> match found {
            Some(v) => tree_contents(*t).contains_key(key@) && v@ == tree_contents(*t)[key@],
            None => !tree_contents(*t).contains_key(key@),
        },
{
    t.get(key).map(|found| found.map(|v| v.to_vec()))
}

/// `Tree::remove`: unbinds `key` and returns the value it was bound to, when
/// the write succeeds. After a failed write nothing is stated of the tree's
/// contents; the handle stays the same tree either way.
#[verifier::external_body]
pub(crate) fn tree_remove(t: &mut sled::Tree, key: &[u8]) -> (r: Result<Option<Vec<u8>>, sled::Error>)
    ensures
        tree_location(*final(t)) == tree_location(*old(t)),
        r matches Ok(prev) ==> {
            &&& tree_contents(*final(t)) == tree_contents(*old(t)).remove(key@)
            &&& match prev {
                Some(v) => tree_contents(*old(t)).contains_key(key@) && v@ == tree_contents(*old(t))[key@],
                None => !tree_contents(*old(t)).contains_key(key@),
            }
        },
{
    t.remove(key).map(|prev| prev.map(|v| v.to_vec()))
}

/// `Tree::iter`, each item taken as its key and value when it was read
/// without error and as `None` when the read failed. A failed read leaves
/// the scan where it was, so the items read without error are every entry
/// of the tree, each once, in increasing byte order of the keys.
#[verifier::external_body]
pub(crate) fn tree_entries(t: &sled::Tree) -> (r: Vec<Option<(Vec<u8>, Vec<u8>)>>)
    ensures
        keys_in_order(tree_contents(*t), present(entry_views(r@)).map_values(|e: (Seq<u8>, Seq<u8>)| e.0)),
        forall|a: int| 0 <= a < present(entry_views(r@)).len() ==>
            tree_contents(*t)[(#[trigger] present(entry_views(r@))[a]).0] == present(entry_views(r@))[a].1,
{
    t.iter().map(|item| match item {
        Ok((k, v)) => Some((k.to_vec(), v.to_vec())),
        Err(_) => None,
    }).collect()
}

/// `Db::flush`: writes pending changes to disk, returning the number of
/// bytes flushed.
#[verifier::external_body]
pub(crate) fn db_flush(db: &sled::Db) -> (r: Result<usize, sled::Error>) {
    db.flush()
}

/// `Db::size_on_disk`: the size of the database files, in bytes.
#[verifier::external_body]
pub(crate) fn db_size_on_disk(db: &sled::Db) -> (r: Result<u64, sled::Error>) {
    db.size_on_disk()
}

} // verus!
