//! The persistent index store: a thin trusted layer over the `sled`
//! embedded key-value database.
//!
//! The store is modelled by two names: `db_trees`, the named subtrees (each
//! a map from byte key to byte value, keyed by the subtree's byte name), and
//! `db_default`, the default keyspace. Every wrapper states over those names
//! what the `sled` source shows of the call it makes. Opening a subtree
//! creates it empty when it does not exist, so read wrappers may grow the
//! domain of `db_trees`; the sequence of values a subtree hands out follows
//! its keys in ascending byte order.

use vstd::prelude::*;
use vstd::string::StringSliceAdditionalSpecFns;

verus! {

#[verifier::external_type_specification]
#[verifier::external_body]
pub struct ExDb(sled::Db);

#[verifier::external_type_specification]
#[verifier::external_body]
pub struct ExSledError(sled::Error);

/// What the named subtrees of the store hold.
pub uninterp spec fn db_trees(db: sled::Db) -> Map<Seq<u8>, Map<Seq<u8>, Seq<u8>>>;

/// What the default keyspace of the store holds.
pub uninterp spec fn db_default(db: sled::Db) -> Map<Seq<u8>, Seq<u8>>;

/// The name `sled` gives its default keyspace.
pub open spec fn default_tree_id() -> Seq<u8> {
    vstd::utf8::encode_utf8("__sled__default"@)
}

/// The contents of subtree `name`: empty when the subtree does not exist.
pub open spec fn tree_of(m: Map<Seq<u8>, Map<Seq<u8>, Seq<u8>>>, name: Seq<u8>) -> Map<
    Seq<u8>,
    Seq<u8>,
> {
    if m.dom().contains(name) {
        m[name]
    } else {
        Map::empty()
    }
}

/// `m` once subtree `name` exists, created empty when it was absent.
pub open spec fn with_tree(m: Map<Seq<u8>, Map<Seq<u8>, Seq<u8>>>, name: Seq<u8>) -> Map<
    Seq<u8>,
    Map<Seq<u8>, Seq<u8>>,
> {
    if m.dom().contains(name) {
        m
    } else {
        m.insert(name, Map::empty())
    }
}

/// Subtree `name` holds at least one key.
pub open spec fn tree_nonempty(m: Map<Seq<u8>, Map<Seq<u8>, Seq<u8>>>, name: Seq<u8>) -> bool {
    exists|k: Seq<u8>| tree_of(m, name).dom().contains(k)
}

/// Strict byte-wise lexicographic order, a proper prefix ordering first.
pub open spec fn lex_lt(a: Seq<u8>, b: Seq<u8>) -> bool
    decreases a.len(),
{
    if b.len() == 0 {
        false
    } else if a.len() == 0 {
        true
    } else if a[0] < b[0] {
        true
    } else if a[0] > b[0] {
        false
    } else {
        lex_lt(a.drop_first(), b.drop_first())
    }
}

/// The lexicographic order is irreflexive.
proof fn lemma_lex_irrefl(a: Seq<u8>)
    ensures
        !lex_lt(a, a),
    decreases a.len(),
{
    if a.len() > 0 {
        lemma_lex_irrefl(a.drop_first());
    }
}

/// Lexicographically ordered byte strings differ.
pub proof fn lemma_lex_lt_ne(a: Seq<u8>, b: Seq<u8>)
    requires
        lex_lt(a, b),
    ensures
        a != b,
{
    if a == b {
        lemma_lex_irrefl(a);
    }
}

/// The views of a vector of byte vectors.
pub open spec fn views_of(vs: Seq<Vec<u8>>) -> Seq<Seq<u8>> {
    vs.map(|i: int, v: Vec<u8>| v@)
}

/// Opens the store rooted at `path`, creating it when absent.
///
/// Relies on `sled::open`: what the opened store holds depends on what is on
/// disk, so nothing is claimed of its contents.
#[verifier::external_body]
pub fn open_db(path: &str) -> (r: Result<sled::Db, sled::Error>) {
    sled::open(path)
}

/// Opens a fresh store backed by a temporary directory that is removed when
/// the store is dropped.
///
/// Relies on `sled::Config::new`, `Config::temporary` and `Config::open`:
/// a temporary store starts at a fresh path, so it starts empty.
#[verifier::external_body]
pub fn open_db_temporary() -> (r: Result<sled::Db, sled::Error>)
    ensures
        match r {
            Ok(db) => db_trees(db) == Map::<Seq<u8>, Map<Seq<u8>, Seq<u8>>>::empty()
                && db_default(db) == Map::<Seq<u8>, Seq<u8>>::empty(),
            Err(_) => true,
        },
{
    sled::Config::new().temporary(true).open()
}

/// Inserts `val` under `key` in subtree `tree`, creating the subtree when
/// absent. The default keyspace's own name is excluded: `sled` would hand
/// back the default keyspace itself under that name.
///
/// Relies on `sled::Db::open_tree` (opens or creates the named subtree) and
/// `sled::Tree::insert` (maps the key to the value).
#[verifier::external_body]
pub fn tree_insert(db: &mut sled::Db, tree: &str, key: &str, val: &[u8]) -> (r: Result<
    (),
    sled::Error,
>)
    requires
        tree.spec_bytes() != default_tree_id(),
    ensures
        r is Ok ==> db_trees(*final(db)) == db_trees(*old(db)).insert(
            tree.spec_bytes(),
            tree_of(db_trees(*old(db)), tree.spec_bytes()).insert(key.spec_bytes(), val@),
        ),
        r is Ok ==> db_default(*final(db)) == db_default(*old(db)),
{
    db.open_tree(tree.as_bytes())?.insert(key.as_bytes(), val)?;
    Ok(())
}

/// Whether subtree `tree` holds no key, creating the subtree when absent.
/// The default keyspace's own name is excluded, as in [`tree_insert`].
///
/// Relies on `sled::Db::open_tree` and `sled::Tree::iter` (whether the
/// subtree's iterator yields a first pair); a failure while reading that
/// pair surfaces as the error it is.
#[verifier::external_body]
pub fn tree_is_empty(db: &mut sled::Db, tree: &str) -> (r: Result<bool, sled::Error>)
    requires
        tree.spec_bytes() != default_tree_id(),
    ensures
        r matches Ok(b) ==> {
            &&& db_trees(*final(db)) == with_tree(db_trees(*old(db)), tree.spec_bytes())
            &&& db_default(*final(db)) == db_default(*old(db))
            &&& b == !tree_nonempty(db_trees(*old(db)), tree.spec_bytes())
        },
{
    let t = db.open_tree(tree.as_bytes())?;
    match t.iter().next() {
        None => Ok(true),
        Some(pair) => {
            pair?;
            Ok(false)
        },
    }
}

/// The values of subtree `tree`, in ascending byte order of their keys,
/// creating the subtree when absent. The default keyspace's own name is
/// excluded, as in [`tree_insert`].
///
/// Relies on `sled::Db::open_tree` and `sled::Tree::iter` (yields the
/// subtree's pairs in ascending key order).
#[verifier::external_body]
pub fn tree_values(db: &mut sled::Db, tree: &str) -> (r: Result<Vec<Vec<u8>>, sled::Error>)
    requires
        tree.spec_bytes() != default_tree_id(),
    ensures
        r matches Ok(vs) ==> {
            &&& db_trees(*final(db)) == with_tree(db_trees(*old(db)), tree.spec_bytes())
            &&& db_default(*final(db)) == db_default(*old(db))
            &&& exists|ks: Seq<Seq<u8>>|
                #![trigger ks.to_set()]
                {
                    let t = tree_of(db_trees(*old(db)), tree.spec_bytes());
                    &&& ks.to_set() == t.dom()
                    &&& forall|i: int, j: int| 0 <= i < j < ks.len() ==> lex_lt(ks[i], ks[j])
                    &&& views_of(vs@) =~= ks.map(|i: int, k: Seq<u8>| t[k])
                }
        },
{
    let t = db.open_tree(tree.as_bytes())?;
    let mut out: Vec<Vec<u8>> = Vec::new();
    for pair in t.iter() {
        out.push(pair?.1.to_vec());
    }
    Ok(out)
}

/// The names of every subtree of the store, the default keyspace included.
///
/// Relies on `sled::Db::tree_names`: every open or persisted subtree name,
/// in no promised order.
#[verifier::external_body]
pub fn db_tree_names(db: &sled::Db) -> (r: Vec<Vec<u8>>)
    ensures
        views_of(r@).to_set() == db_trees(*db).dom().insert(default_tree_id()),
        forall|i: int, j: int|
            0 <= i < j < r@.len() ==> #[trigger] r@[i]@ != #[trigger] r@[j]@,
{
    db.tree_names().into_iter().map(|n| n.to_vec()).collect()
}

/// Drops subtree `tree`; tells whether it existed.
///
/// Relies on `sled::Db::drop_tree`: removes the named subtree, refuses to
/// remove the default keyspace.
#[verifier::external_body]
pub fn db_drop_tree(db: &mut sled::Db, tree: &str) -> (r: Result<bool, sled::Error>)
    ensures
        r matches Ok(b) ==> {
            &&& db_trees(*final(db)) == db_trees(*old(db)).remove(tree.spec_bytes())
            &&& db_default(*final(db)) == db_default(*old(db))
            &&& b == db_trees(*old(db)).dom().contains(tree.spec_bytes())
        },
{
    db.drop_tree(tree.as_bytes())
}

/// Durably persists all pending writes; the contents do not change.
///
/// Relies on `sled::Tree::flush` through the default keyspace of the store.
#[verifier::external_body]
pub fn db_flush(db: &mut sled::Db) -> (r: Result<(), sled::Error>)
    ensures
        db_trees(*final(db)) == db_trees(*old(db)),
        db_default(*final(db)) == db_default(*old(db)),
{
    db.flush()?;
    Ok(())
}

/// Inserts `val` under `key` in the default keyspace.
///
/// Relies on `sled::Tree::insert` on the default keyspace of the store.
#[verifier::external_body]
pub fn default_insert(db: &mut sled::Db, key: &str, val: &[u8]) -> (r: Result<(), sled::Error>)
    ensures
        r is Ok ==> db_default(*final(db)) == db_default(*old(db)).insert(key.spec_bytes(), val@),
        r is Ok ==> db_trees(*final(db)) == db_trees(*old(db)),
{
    db.insert(key.as_bytes(), val)?;
    Ok(())
}

/// The value under `key` in the default keyspace.
///
/// Relies on `sled::Tree::get` on the default keyspace of the store.
#[verifier::external_body]
pub fn default_get(db: &sled::Db, key: &str) -> (r: Result<Option<Vec<u8>>, sled::Error>)
    ensures
        r matches Ok(ov) ==> match ov {
            Some(v) => db_default(*db).dom().contains(key.spec_bytes()) && v@ == db_default(
                *db,
            )[key.spec_bytes()],
            None => !db_default(*db).dom().contains(key.spec_bytes()),
        },
{
    Ok(db.get(key.as_bytes())?.map(|v| v.to_vec()))
}

} // verus!
