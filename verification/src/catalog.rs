//! The catalog: owner of the persistent index store.
//!
//! Each archive is indexed into its own `tar::<leaf-name>` subtree, keyed by
//! member path, with one encoded record per member. A `inotree::<ino>`
//! subtree holds the child inodes of each directory member, and the key
//! `last_ino` of the default keyspace persists the monotone inode counter.

use vstd::prelude::*;
use vstd::string::StringSliceAdditionalSpecFns;
use vstd::utf8::{decode_utf8, encode_utf8, valid_utf8};
use crate::entry::{File, FileTar, FileTarV, FileV};
use crate::codec::{bytes_to_string, decode_entry, encode_entry, spec_decode, spec_encode, u64_dec_vec};
use crate::listing::{archive_listing, decode_archive, entries_view, RawEntry, RawEntryV};
use crate::numbers::{
    dec_bytes, dec_chars, lemma_dec_bytes_utf8, lemma_dec_round_trip, parse_u64_bytes,
    spec_parse_u64, u64_to_string,
};
use crate::store::{
    db_default, db_drop_tree, db_flush, db_tree_names, db_trees, default_get, default_insert,
    default_tree_id, open_db, open_db_temporary, tree_insert, tree_is_empty, tree_nonempty,
    tree_of, tree_values, views_of, with_tree,
};
use crate::strings::{
    count_char, count_char_in, is_suffix, leaf_of, lemma_leaf_occurs, spec_leaf, spec_rfind,
    str_ends_with, str_eq, str_rfind,
};

verus! {

/// Why a catalog operation failed.
#[derive(Clone, Copy, Debug, PartialEq, Eq, Structural)]
pub enum CatalogError {
    /// The index store failed to read, write or flush.
    Store,
    /// The archive bytes, or a stored record, do not decode.
    ArchiveMalformed,
    /// The 64-bit inode space is exhausted.
    InodesExhausted,
}

/// The catalog: the index store and the directory that holds extracted
/// member files.
pub struct Catalog {
    pub db: sled::Db,
    pub cache_extract: String,
}

/// The byte name of the subtree that indexes archive `name`.
pub open spec fn tar_key(name: Seq<char>) -> Seq<u8> {
    encode_utf8("tar::"@ + name)
}

/// The byte name of the subtree that lists the children of inode `ino`.
pub open spec fn ino_key(ino: u64) -> Seq<u8> {
    encode_utf8("inotree::"@ + dec_chars(ino))
}

/// The key of the persisted inode counter.
pub open spec fn last_ino_key() -> Seq<u8> {
    encode_utf8("last_ino"@)
}

/// The persisted inode counter: the stored decimal value, or its initial
/// value when nothing parseable is stored.
pub open spec fn last_ino_of(d: Map<Seq<u8>, Seq<u8>>) -> u64 {
    if d.dom().contains(last_ino_key()) {
        match spec_parse_u64(d[last_ino_key()]) {
            Some(n) => n,
            None => 20000,
        }
    } else {
        20000
    }
}

/// The views of a vector of indexed entries.
pub open spec fn files_view(s: Seq<File>) -> Seq<FileV> {
    s.map(|i: int, f: File| f@)
}

/// The views of a vector of archive descriptors.
pub open spec fn filetars_view(s: Seq<FileTar>) -> Seq<FileTarV> {
    s.map(|i: int, f: FileTar| f@)
}

/// `fs` enumerates the decoded records of the archive's subtree in `m`:
/// one per key, the keys in ascending byte order, as the store iterates.
pub open spec fn entries_match(
    m: Map<Seq<u8>, Map<Seq<u8>, Seq<u8>>>,
    name: Seq<char>,
    fs: Seq<FileV>,
) -> bool {
    exists|ks: Seq<Seq<u8>>|
        #![trigger ks.to_set()]
        {
            let t = tree_of(m, tar_key(name));
            &&& ks.to_set() == t.dom()
            &&& ks.no_duplicates()
            &&& forall|i: int, j: int|
                0 <= i < j < ks.len() ==> crate::store::lex_lt(ks[i], ks[j])
            &&& fs.len() == ks.len()
            &&& forall|i: int| 0 <= i < ks.len() ==> spec_decode(t[ks[i]]) == Some(#[trigger] fs[i])
        }
}

/// `vs` enumerates the parsed child inodes of inode `ino`'s subtree in `m`:
/// one per key, the keys in ascending byte order, as the store iterates.
pub open spec fn inos_match(m: Map<Seq<u8>, Map<Seq<u8>, Seq<u8>>>, ino: u64, vs: Seq<u64>) -> bool {
    exists|ks: Seq<Seq<u8>>|
        #![trigger ks.to_set()]
        {
            let t = tree_of(m, ino_key(ino));
            &&& ks.to_set() == t.dom()
            &&& ks.no_duplicates()
            &&& forall|i: int, j: int|
                0 <= i < j < ks.len() ==> crate::store::lex_lt(ks[i], ks[j])
            &&& vs.len() == ks.len()
            &&& forall|i: int| 0 <= i < ks.len() ==> Some(#[trigger] vs[i]) == spec_parse_u64(t[ks[i]])
        }
}

/// The bytes of the `tar::` subtree-name prefix.
pub open spec fn tar_prefix_bytes() -> Seq<u8> {
    encode_utf8("tar::"@)
}

/// The descriptor a subtree name contributes to the catalog listing: the
/// name must carry the `tar::` prefix and the rest must be a path with a
/// leaf.
pub open spec fn catalog_of_name(nb: Seq<u8>) -> Option<FileTarV> {
    if nb.len() >= tar_prefix_bytes().len() && nb.subrange(0, tar_prefix_bytes().len() as int)
        == tar_prefix_bytes() && valid_utf8(nb.skip(tar_prefix_bytes().len() as int))
        && spec_leaf(decode_utf8(nb.skip(tar_prefix_bytes().len() as int))) is Some {
        Some(
            FileTarV {
                full_path: decode_utf8(nb.skip(tar_prefix_bytes().len() as int)),
                file_name: spec_leaf(
                    decode_utf8(nb.skip(tar_prefix_bytes().len() as int)),
                )->Some_0,
            },
        )
    } else {
        None
    }
}

/// The catalog listing that a sequence of subtree names yields.
pub open spec fn cats_of(ns: Seq<Seq<u8>>) -> Seq<FileTarV>
    decreases ns.len(),
{
    if ns.len() == 0 {
        Seq::empty()
    } else {
        cats_of(ns.drop_last()) + match catalog_of_name(ns.last()) {
            Some(c) => seq![c],
            None => Seq::empty(),
        }
    }
}

/// Whether `p` is a prefix of the byte string `v`.
fn byte_prefix(v: &[u8], p: &[u8]) -> (r: bool)
    ensures
        r == (v@.len() >= p@.len() && v@.subrange(0, p@.len() as int) == p@),
{
    if p.len() > v.len() {
        return false;
    }
    let mut i: usize = 0;
    while i < p.len()
        invariant
            0 <= i <= p@.len() <= v@.len(),
            forall|k: int| 0 <= k < i ==> v@[k] == p@[k],
        decreases p@.len() - i,
    {
        if v[i] != p[i] {
            proof {
                assert(v@.subrange(0, p@.len() as int)[i as int] == v@[i as int]);
            }
            return false;
        }
        i = i + 1;
    }
    proof {
        assert(v@.subrange(0, p@.len() as int) =~= p@);
    }
    true
}

impl Catalog {
    /// Opens the catalog over the store rooted at `db_path`, extracting
    /// members into `cache_extract`.
    pub fn new(db_path: &str, cache_extract: String) -> (r: Result<Catalog, CatalogError>)
        ensures
            r matches Ok(c) ==> c.cache_extract == cache_extract,
    {
        match open_db(db_path) {
            Ok(db) => Ok(Catalog { db, cache_extract }),
            Err(_) => Err(CatalogError::Store),
        }
    }

    /// Opens a catalog over a fresh, temporary store.
    pub fn new_temporary(cache_extract: String) -> (r: Result<Catalog, CatalogError>)
        ensures
            r matches Ok(c) ==> {
                &&& c.cache_extract == cache_extract
                &&& db_trees(c.db) == Map::<Seq<u8>, Map<Seq<u8>, Seq<u8>>>::empty()
                &&& db_default(c.db) == Map::<Seq<u8>, Seq<u8>>::empty()
            },
    {
        match open_db_temporary() {
            Ok(db) => Ok(Catalog { db, cache_extract }),
            Err(_) => Err(CatalogError::Store),
        }
    }

    /// The persisted inode counter.
    fn get_last_ino(&self) -> (r: Result<u64, CatalogError>)
        ensures
            r matches Ok(n) ==> n == last_ino_of(db_default(self.db)),
    {
        match default_get(&self.db, "last_ino") {
            Err(_) => Err(CatalogError::Store),
            Ok(None) => Ok(20000),
            Ok(Some(v)) => match parse_u64_bytes(v.as_slice()) {
                Some(n) => Ok(n),
                None => Ok(20000),
            },
        }
    }

    /// Persists the inode counter.
    fn set_last_ino(&mut self, ino: u64) -> (r: Result<(), CatalogError>)
        ensures
            r is Ok ==> db_default(final(self).db) == db_default(old(self).db).insert(
                last_ino_key(),
                dec_bytes(ino),
            ),
            r is Ok ==> db_trees(final(self).db) == db_trees(old(self).db),
            final(self).cache_extract == old(self).cache_extract,
    {
        let v = u64_dec_vec(ino);
        match default_insert(&mut self.db, "last_ino", v.as_slice()) {
            Ok(_) => Ok(()),
            Err(_) => Err(CatalogError::Store),
        }
    }

    /// Whether the archive already has a non-empty index subtree.
    pub fn is_indexed(&mut self, tar: &FileTar) -> (r: Result<bool, CatalogError>)
        ensures
            r matches Ok(b) ==> {
                &&& b == tree_nonempty(db_trees(old(self).db), tar_key(tar@.file_name))
                &&& db_trees(final(self).db) == with_tree(
                    db_trees(old(self).db),
                    tar_key(tar@.file_name),
                )
                &&& db_default(final(self).db) == db_default(old(self).db)
            },
            final(self).cache_extract == old(self).cache_extract,
    {
        let tname = String::from_str("tar::").concat(tar.file_name.as_str());
        let tn = tname.as_str();
        proof {
            lemma_tar_key_not_default(tar@.file_name);
            assert(tn.spec_bytes() == tar_key(tar@.file_name));
        }
        match tree_is_empty(&mut self.db, tn) {
            Ok(b) => Ok(!b),
            Err(_) => Err(CatalogError::Store),
        }
    }

    /// Removes the archive's index subtree, when one exists. The matching
    /// `inotree::` subtrees are deliberately left behind.
    pub fn burn_catalog(&mut self, tar: &FileTar) -> (r: Result<(), CatalogError>)
        ensures
            r is Ok ==> db_trees(final(self).db) == if tree_nonempty(
                db_trees(old(self).db),
                tar_key(tar@.file_name),
            ) {
                db_trees(old(self).db).remove(tar_key(tar@.file_name))
            } else {
                with_tree(db_trees(old(self).db), tar_key(tar@.file_name))
            },
            r is Ok ==> db_default(final(self).db) == db_default(old(self).db),
            final(self).cache_extract == old(self).cache_extract,
    {
        let indexed = self.is_indexed(tar)?;
        if !indexed {
            return Ok(());
        }
        let tname = String::from_str("tar::").concat(tar.file_name.as_str());
        match db_drop_tree(&mut self.db, tname.as_str()) {
            Ok(_) => {
                proof {
                    assert(with_tree(db_trees(old(self).db), tar_key(tar@.file_name)).remove(
                        tar_key(tar@.file_name),
                    ) =~= db_trees(old(self).db).remove(tar_key(tar@.file_name)));
                }
                Ok(())
            },
            Err(_) => Err(CatalogError::Store),
        }
    }

    /// The children of inode `ino`, from its `inotree::` subtree.
    pub fn get_files_inos(&mut self, ino: u64) -> (r: Result<Vec<u64>, CatalogError>)
        ensures
            r matches Ok(vs) ==> {
                &&& db_trees(final(self).db) == with_tree(db_trees(old(self).db), ino_key(ino))
                &&& db_default(final(self).db) == db_default(old(self).db)
                &&& inos_match(db_trees(old(self).db), ino, vs@)
            },
            (r matches Err(e) && e == CatalogError::ArchiveMalformed) ==> db_trees(
                final(self).db,
            ) == with_tree(
                db_trees(old(self).db),
                ino_key(ino),
            ) && db_default(final(self).db) == db_default(old(self).db),
            final(self).cache_extract == old(self).cache_extract,
    {
        let tname = String::from_str("inotree::").concat(u64_to_string(ino).as_str());
        let tn = tname.as_str();
        proof {
            lemma_ino_key_not_default(ino);
            assert(tn.spec_bytes() == ino_key(ino));
        }
        let vals = match tree_values(&mut self.db, tn) {
            Ok(vs) => vs,
            Err(_) => {
                return Err(CatalogError::Store);
            },
        };
        let ghost t = tree_of(db_trees(old(self).db), ino_key(ino));
        let ghost ks = choose|ks: Seq<Seq<u8>>|
            #![trigger ks.to_set()]
            {
                &&& ks.to_set() == t.dom()
                &&& forall|i: int, j: int|
                    0 <= i < j < ks.len() ==> crate::store::lex_lt(ks[i], ks[j])
                &&& views_of(vals@) =~= ks.map(|i: int, k: Seq<u8>| t[k])
            };
        proof {
            assert(ks.to_set() == t.dom() && views_of(vals@) =~= ks.map(
                |i: int, k: Seq<u8>| t[k],
            ));
            assert forall|i: int, j: int| 0 <= i < j < ks.len() implies ks[i] != ks[j] by {
                crate::store::lemma_lex_lt_ne(ks[i], ks[j]);
            }
            assert(ks.no_duplicates());
            assert forall|k: int| 0 <= k < ks.len() implies #[trigger] vals@[k]@ == t[ks[k]] by {
                assert(views_of(vals@)[k] == vals@[k]@);
                assert(ks.map(|i: int, k: Seq<u8>| t[k])[k] == t[ks[k]]);
            }
        }
        let mut out: Vec<u64> = Vec::new();
        let mut i: usize = 0;
        while i < vals.len()
            invariant
                0 <= i <= vals@.len(),
                out@.len() == i,
                vals@.len() == ks.len(),
                self.cache_extract == old(self).cache_extract,
                db_trees(self.db) == with_tree(db_trees(old(self).db), ino_key(ino)),
                db_default(self.db) == db_default(old(self).db),
                forall|k: int| 0 <= k < ks.len() ==> #[trigger] vals@[k]@ == t[ks[k]],
                forall|k: int|
                    0 <= k < i ==> Some(#[trigger] out@[k]) == spec_parse_u64(t[ks[k]]),
            decreases vals@.len() - i,
        {
            match parse_u64_bytes(vals[i].as_slice()) {
                Some(n) => out.push(n),
                None => {
                    return Err(CatalogError::ArchiveMalformed);
                },
            }
            i = i + 1;
        }
        Ok(out)
    }

    /// The indexed entries of the archive, in ascending key order of its
    /// subtree.
    pub fn get_catalog(&mut self, tar: &FileTar) -> (r: Result<Vec<File>, CatalogError>)
        ensures
            r matches Ok(fs) ==> {
                &&& db_trees(final(self).db) == with_tree(
                    db_trees(old(self).db),
                    tar_key(tar@.file_name),
                )
                &&& db_default(final(self).db) == db_default(old(self).db)
                &&& entries_match(db_trees(old(self).db), tar@.file_name, files_view(fs@))
            },
            (r matches Err(e) && e == CatalogError::ArchiveMalformed) ==> db_trees(
                final(self).db,
            ) == with_tree(
                db_trees(old(self).db),
                tar_key(tar@.file_name),
            ) && db_default(final(self).db) == db_default(old(self).db),
            final(self).cache_extract == old(self).cache_extract,
    {
        let tname = String::from_str("tar::").concat(tar.file_name.as_str());
        let tn = tname.as_str();
        proof {
            lemma_tar_key_not_default(tar@.file_name);
            assert(tn.spec_bytes() == tar_key(tar@.file_name));
        }
        let vals = match tree_values(&mut self.db, tn) {
            Ok(vs) => vs,
            Err(_) => {
                return Err(CatalogError::Store);
            },
        };
        let ghost t = tree_of(db_trees(old(self).db), tar_key(tar@.file_name));
        let ghost ks = choose|ks: Seq<Seq<u8>>|
            #![trigger ks.to_set()]
            {
                &&& ks.to_set() == t.dom()
                &&& forall|i: int, j: int|
                    0 <= i < j < ks.len() ==> crate::store::lex_lt(ks[i], ks[j])
                &&& views_of(vals@) =~= ks.map(|i: int, k: Seq<u8>| t[k])
            };
        proof {
            assert(ks.to_set() == t.dom() && views_of(vals@) =~= ks.map(
                |i: int, k: Seq<u8>| t[k],
            ));
            assert forall|i: int, j: int| 0 <= i < j < ks.len() implies ks[i] != ks[j] by {
                crate::store::lemma_lex_lt_ne(ks[i], ks[j]);
            }
            assert(ks.no_duplicates());
            assert forall|k: int| 0 <= k < ks.len() implies #[trigger] vals@[k]@ == t[ks[k]] by {
                assert(views_of(vals@)[k] == vals@[k]@);
                assert(ks.map(|i: int, k: Seq<u8>| t[k])[k] == t[ks[k]]);
            }
        }
        let mut out: Vec<File> = Vec::new();
        let mut i: usize = 0;
        while i < vals.len()
            invariant
                0 <= i <= vals@.len(),
                out@.len() == i,
                vals@.len() == ks.len(),
                self.cache_extract == old(self).cache_extract,
                db_trees(self.db) == with_tree(db_trees(old(self).db), tar_key(tar@.file_name)),
                db_default(self.db) == db_default(old(self).db),
                forall|k: int| 0 <= k < ks.len() ==> #[trigger] vals@[k]@ == t[ks[k]],
                forall|k: int|
                    0 <= k < i ==> spec_decode(t[ks[k]]) == Some(#[trigger] out@[k]@),
            decreases vals@.len() - i,
        {
            match decode_entry(vals[i].as_slice()) {
                Some(f) => out.push(f),
                None => {
                    return Err(CatalogError::ArchiveMalformed);
                },
            }
            i = i + 1;
        }
        Ok(out)
    }

    /// Every catalogued archive: the subtrees whose name carries the `tar::`
    /// prefix, the prefix stripped.
    pub fn get_catalogs(&self) -> (r: Vec<FileTar>)
        ensures
            exists|ns: Seq<Seq<u8>>|
                #![trigger ns.to_set()]
                {
                    &&& ns.to_set() == db_trees(self.db).dom().insert(default_tree_id())
                    &&& ns.no_duplicates()
                    &&& filetars_view(r@) == cats_of(ns)
                },
    {
        let names = db_tree_names(&self.db);
        let prefix = "tar::";
        let prefix_bytes = prefix.as_bytes();
        proof {
            reveal_strlit("tar::");
            assert(vstd::utf8::is_ascii_chars("tar::"@));
            vstd::utf8::is_ascii_chars_encode_utf8("tar::"@);
            assert(prefix_bytes@ == tar_prefix_bytes());
            assert(tar_prefix_bytes().len() == 5);
        }
        let mut out: Vec<FileTar> = Vec::new();
        let mut i: usize = 0;
        while i < names.len()
            invariant
                0 <= i <= names@.len(),
                prefix_bytes@ == tar_prefix_bytes(),
                tar_prefix_bytes().len() == 5,
                filetars_view(out@) == cats_of(views_of(names@).subrange(0, i as int)),
            decreases names@.len() - i,
        {
            let nb = &names[i];
            proof {
                assert(views_of(names@).subrange(0, i + 1).drop_last() =~= views_of(
                    names@,
                ).subrange(0, i as int));
                assert(views_of(names@).subrange(0, i + 1).last() == names@[i as int]@);
            }
            if byte_prefix(nb.as_slice(), prefix_bytes) {
                let rest = vstd::slice::slice_to_vec(
                    vstd::slice::slice_subrange(nb.as_slice(), 5, nb.len()),
                );
                proof {
                    assert(rest@ =~= names@[i as int]@.skip(5));
                }
                match bytes_to_string(rest) {
                    Some(s) => {
                        match crate::strings::leaf_of(s.as_str()) {
                            Some(leaf) => {
                                out.push(FileTar { file_name: leaf, full_path: s });
                                proof {
                                    assert(filetars_view(out@) =~= cats_of(
                                        views_of(names@).subrange(0, i + 1),
                                    ));
                                }
                            },
                            None => {
                                proof {
                                    assert(filetars_view(out@) =~= cats_of(
                                        views_of(names@).subrange(0, i + 1),
                                    ));
                                }
                            },
                        }
                    },
                    None => {
                        proof {
                            assert(filetars_view(out@) =~= cats_of(
                                views_of(names@).subrange(0, i + 1),
                            ));
                        }
                    },
                }
            } else {
                proof {
                    assert(catalog_of_name(names@[i as int]@) is None);
                    assert(filetars_view(out@) =~= cats_of(views_of(names@).subrange(0, i + 1)));
                }
            }
            i = i + 1;
        }
        proof {
            assert(views_of(names@).subrange(0, i as int) =~= views_of(names@));
            assert forall|a: int, b: int|
                0 <= a < b < views_of(names@).len() implies views_of(names@)[a] != views_of(
                names@,
            )[b] by {
                assert(names@[a]@ != names@[b]@);
            }
            assert(views_of(names@).no_duplicates());
        }
        out
    }
}

/// One parent bucket built while indexing: a directory path, the inode that
/// stands for it, and the inodes of its children in archive order.
pub ghost struct Bucket {
    pub path: Seq<char>,
    pub ino: u64,
    pub kids: Seq<u64>,
}

/// The state of one indexing pass: the records written so far, the parent
/// buckets in registration order, and the last inode handed out.
pub ghost struct IndexState {
    pub recs: Map<Seq<u8>, Seq<u8>>,
    pub buckets: Seq<Bucket>,
    pub next: u64,
}

/// What indexing requires of one listing entry: a path with a leaf, and a
/// depth that fits the machine.
pub open spec fn entry_ok(e: RawEntryV) -> bool {
    &&& spec_leaf(e.path) is Some
    &&& count_char(e.path, '/') + (if e.is_file {
        1int
    } else {
        0int
    }) <= usize::MAX
}

/// Every entry of the listing is indexable.
pub open spec fn listing_ok(l: Seq<RawEntryV>) -> bool {
    forall|i: int| 0 <= i < l.len() ==> entry_ok(#[trigger] l[i])
}

/// The leaf name of a listing entry.
pub open spec fn entry_leaf(e: RawEntryV) -> Seq<char> {
    spec_leaf(e.path)->Some_0
}

/// The depth of a listing entry: its slash count, regular files one deeper.
pub open spec fn entry_level(e: RawEntryV) -> usize {
    (count_char(e.path, '/') + (if e.is_file {
        1int
    } else {
        0int
    })) as usize
}

/// The parent path of a listing entry: its path up to the last occurrence
/// of its leaf name.
pub open spec fn entry_parent(e: RawEntryV) -> Seq<char> {
    match spec_rfind(e.path, entry_leaf(e)) {
        Some(i) => e.path.subrange(0, i),
        None => e.path,
    }
}

/// The record one listing entry is stored as.
pub open spec fn entry_file(e: RawEntryV, ino: u64) -> FileV {
    FileV {
        size: e.size,
        mtime: e.mtime,
        file_name: entry_leaf(e),
        full_path: e.path,
        is_file: e.is_file,
        level_path: entry_level(e),
        ino,
    }
}

/// The first bucket whose path is `p`, searching from position `i`.
pub open spec fn bucket_idx_from(bs: Seq<Bucket>, p: Seq<char>, i: int) -> int
    decreases bs.len() - i when 0 <= i <= bs.len()
{
    if i >= bs.len() {
        -1
    } else if bs[i].path == p {
        i
    } else {
        bucket_idx_from(bs, p, i + 1)
    }
}

/// The first bucket whose path is `p`, or `-1`.
pub open spec fn bucket_idx(bs: Seq<Bucket>, p: Seq<char>) -> int {
    bucket_idx_from(bs, p, 0)
}

/// Indexing one entry: assign the next inode, register a new directory as a
/// bucket, append the inode to its parent's bucket when one is known, and
/// store the encoded record under the entry's path.
pub open spec fn index_step(st: IndexState, e: RawEntryV) -> IndexState {
    let ino = (st.next + 1) as u64;
    let bs1 = if e.is_dir && bucket_idx(st.buckets, e.path) < 0 {
        st.buckets.push(Bucket { path: e.path, ino, kids: Seq::empty() })
    } else {
        st.buckets
    };
    let k = bucket_idx(bs1, entry_parent(e));
    let bs2 = if k >= 0 {
        bs1.update(k, Bucket { path: bs1[k].path, ino: bs1[k].ino, kids: bs1[k].kids.push(ino) })
    } else {
        bs1
    };
    IndexState {
        recs: st.recs.insert(encode_utf8(e.path), spec_encode(entry_file(e, ino))),
        buckets: bs2,
        next: ino,
    }
}

/// The state an indexing pass starts from: one bucket for the archive root,
/// holding a fresh inode of its own.
pub open spec fn index_init(start: u64) -> IndexState {
    IndexState {
        recs: Map::empty(),
        buckets: seq![Bucket { path: Seq::empty(), ino: (start + 1) as u64, kids: Seq::empty() }],
        next: (start + 1) as u64,
    }
}

/// The indexing state after the first `i` entries of the listing.
pub open spec fn state_at(l: Seq<RawEntryV>, start: u64, i: int) -> IndexState
    decreases i when i >= 0
{
    if i <= 0 {
        index_init(start)
    } else {
        index_step(state_at(l, start, i - 1), l[i - 1])
    }
}

/// A child subtree after the first `j` children are written: each child
/// inode's decimal bytes, as key and as value.
pub open spec fn kids_tree(t0: Map<Seq<u8>, Seq<u8>>, cs: Seq<u64>, j: int) -> Map<Seq<u8>, Seq<u8>>
    decreases j when j >= 0
{
    if j <= 0 {
        t0
    } else {
        kids_tree(t0, cs, j - 1).insert(dec_bytes(cs[j - 1]), dec_bytes(cs[j - 1]))
    }
}

/// The store's subtrees after the child lists of the first `i` buckets are
/// written; a bucket without children writes nothing.
pub open spec fn buckets_tree_fold(
    m: Map<Seq<u8>, Map<Seq<u8>, Seq<u8>>>,
    bs: Seq<Bucket>,
    i: int,
) -> Map<Seq<u8>, Map<Seq<u8>, Seq<u8>>>
    decreases i when i >= 0
{
    if i <= 0 {
        m
    } else {
        let m1 = buckets_tree_fold(m, bs, i - 1);
        let b = bs[i - 1];
        if b.kids.len() == 0 {
            m1
        } else {
            m1.insert(ino_key(b.ino), kids_tree(tree_of(m1, ino_key(b.ino)), b.kids, b.kids.len() as int))
        }
    }
}

/// The store's subtrees after one archive is fully indexed.
pub open spec fn indexed_trees(
    m0: Map<Seq<u8>, Map<Seq<u8>, Seq<u8>>>,
    name: Seq<char>,
    l: Seq<RawEntryV>,
    start: u64,
) -> Map<Seq<u8>, Map<Seq<u8>, Seq<u8>>> {
    let st = state_at(l, start, l.len() as int);
    buckets_tree_fold(with_tree(m0, tar_key(name)).insert(tar_key(name), st.recs), st.buckets, st.buckets.len() as int)
}

/// Whether a subtree name carries the `tar::` prefix.
pub open spec fn is_tar_name(nb: Seq<u8>) -> bool {
    nb.len() >= tar_prefix_bytes().len() && nb.subrange(0, tar_prefix_bytes().len() as int)
        == tar_prefix_bytes()
}

/// The inode of the record stored under key `k` of subtree `nb`.
pub open spec fn rec_ino(m: Map<Seq<u8>, Map<Seq<u8>, Seq<u8>>>, nb: Seq<u8>, k: Seq<u8>) -> u64 {
    spec_decode(m[nb][k])->Some_0.ino
}

/// Every record of every archive subtree decodes, with an inode between the
/// initial counter value and the persisted counter.
pub open spec fn recs_wf(m: Map<Seq<u8>, Map<Seq<u8>, Seq<u8>>>, last: u64) -> bool {
    forall|nb: Seq<u8>, k: Seq<u8>|
        m.dom().contains(nb) && is_tar_name(nb) && #[trigger] m[nb].dom().contains(k) ==> {
            &&& spec_decode(m[nb][k]) is Some
            &&& 20000 <= rec_ino(m, nb, k) <= last
        }
}

/// No two records across all archive subtrees share an inode.
pub open spec fn inos_unique(m: Map<Seq<u8>, Map<Seq<u8>, Seq<u8>>>) -> bool {
    forall|nb1: Seq<u8>, k1: Seq<u8>, nb2: Seq<u8>, k2: Seq<u8>|
        #![trigger rec_ino(m, nb1, k1), rec_ino(m, nb2, k2)]
        (m.dom().contains(nb1) && is_tar_name(nb1) && m[nb1].dom().contains(k1)
            && m.dom().contains(nb2) && is_tar_name(nb2) && m[nb2].dom().contains(k2) && (nb1
            != nb2 || k1 != k2)) ==> rec_ino(m, nb1, k1) != rec_ino(m, nb2, k2)
}

/// The store's standing invariant: the counter is at or above its initial
/// value, every record decodes with an inode the counter covers, and no
/// inode is shared.
pub open spec fn store_inv(m: Map<Seq<u8>, Map<Seq<u8>, Seq<u8>>>, d: Map<Seq<u8>, Seq<u8>>) -> bool {
    &&& last_ino_of(d) >= 20000
    &&& recs_wf(m, last_ino_of(d))
    &&& inos_unique(m)
}

/// UTF-8 encoding distributes over concatenation.
pub proof fn lemma_encode_utf8_concat(a: Seq<char>, b: Seq<char>)
    ensures
        encode_utf8(a + b) == encode_utf8(a) + encode_utf8(b),
    decreases a.len(),
{
    if a.len() == 0 {
        assert(a + b =~= b);
        assert(encode_utf8(a) + encode_utf8(b) =~= encode_utf8(b));
    } else {
        lemma_encode_utf8_concat(a.drop_first(), b);
        assert((a + b).drop_first() =~= a.drop_first() + b);
        assert(encode_utf8(a + b) =~= encode_utf8(a) + encode_utf8(b));
    }
}

/// An archive's subtree name carries the `tar::` prefix.
pub proof fn lemma_tar_key_is_tar(name: Seq<char>)
    ensures
        is_tar_name(tar_key(name)),
{
    lemma_encode_utf8_concat("tar::"@, name);
    assert(tar_key(name).subrange(0, tar_prefix_bytes().len() as int) =~= tar_prefix_bytes());
}

/// A child subtree's name does not carry the `tar::` prefix.
pub proof fn lemma_ino_key_not_tar(n: u64)
    ensures
        !is_tar_name(ino_key(n)),
{
    lemma_encode_utf8_concat("inotree::"@, dec_chars(n));
    proof_ino_tar_first_bytes();
    let pre = encode_utf8("inotree::"@);
    if is_tar_name(ino_key(n)) {
        assert(ino_key(n)[0] == pre[0]);
        assert(ino_key(n).subrange(0, tar_prefix_bytes().len() as int)[0] == tar_prefix_bytes()[0]);
    }
}

/// The first bytes of the subtree-name prefixes and of the default
/// keyspace's name all differ.
proof fn proof_ino_tar_first_bytes()
    ensures
        encode_utf8("inotree::"@).len() >= 1,
        tar_prefix_bytes().len() == 5,
        encode_utf8("inotree::"@)[0] == 105u8,
        tar_prefix_bytes()[0] == 116u8,
        default_tree_id().len() >= 1,
        default_tree_id()[0] == 95u8,
{
    reveal_strlit("inotree::");
    reveal_strlit("tar::");
    reveal_strlit("__sled__default");
    assert(vstd::utf8::is_ascii_chars("inotree::"@));
    assert(vstd::utf8::is_ascii_chars("tar::"@));
    assert(vstd::utf8::is_ascii_chars("__sled__default"@));
    vstd::utf8::is_ascii_chars_encode_utf8("inotree::"@);
    vstd::utf8::is_ascii_chars_encode_utf8("tar::"@);
    vstd::utf8::is_ascii_chars_encode_utf8("__sled__default"@);
    assert("inotree::"@[0] == 'i');
    assert("tar::"@[0] == 't');
    assert("__sled__default"@[0] == '_');
    assert(encode_utf8("inotree::"@)[0] == 'i' as u8);
    assert(tar_prefix_bytes()[0] == 't' as u8);
    assert(default_tree_id()[0] == '_' as u8);
}

/// An archive's subtree name is never the default keyspace's.
pub proof fn lemma_tar_key_not_default(name: Seq<char>)
    ensures
        tar_key(name) != default_tree_id(),
{
    lemma_encode_utf8_concat("tar::"@, name);
    proof_ino_tar_first_bytes();
    if tar_key(name) == default_tree_id() {
        assert(tar_key(name)[0] == tar_prefix_bytes()[0]);
    }
}

/// A child subtree's name is never the default keyspace's.
pub proof fn lemma_ino_key_not_default(n: u64)
    ensures
        ino_key(n) != default_tree_id(),
{
    lemma_encode_utf8_concat("inotree::"@, dec_chars(n));
    proof_ino_tar_first_bytes();
    if ino_key(n) == default_tree_id() {
        assert(ino_key(n)[0] == encode_utf8("inotree::"@)[0]);
    }
}

/// One parent bucket while indexing, as built at run time.
struct BucketE {
    path: String,
    ino: u64,
    kids: Vec<u64>,
}

/// The value of one run-time bucket.
spec fn bucket_v(b: BucketE) -> Bucket {
    Bucket { path: b.path@, ino: b.ino, kids: b.kids@ }
}

/// The views of the run-time buckets.
spec fn buckets_view(s: Seq<BucketE>) -> Seq<Bucket> {
    s.map(|i: int, b: BucketE| bucket_v(b))
}

/// The first bucket whose path is `p`.
fn find_bucket(bs: &Vec<BucketE>, p: &str) -> (r: Option<usize>)
    ensures
        match r {
            Some(k) => 0 <= k < bs@.len() && bucket_idx(buckets_view(bs@), p@) == k as int,
            None => bucket_idx(buckets_view(bs@), p@) == -1,
        },
{
    let mut i: usize = 0;
    while i < bs.len()
        invariant
            0 <= i <= bs@.len(),
            bucket_idx(buckets_view(bs@), p@) == bucket_idx_from(
                buckets_view(bs@),
                p@,
                i as int,
            ),
        decreases bs@.len() - i,
    {
        if str_eq(bs[i].path.as_str(), p) {
            proof {
                assert(buckets_view(bs@)[i as int] == bucket_v(bs@[i as int]));
            }
            return Some(i);
        }
        proof {
            assert(buckets_view(bs@)[i as int] == bucket_v(bs@[i as int]));
        }
        i = i + 1;
    }
    None
}

/// Writing child lists touches no archive subtree.
pub proof fn lemma_buckets_fold_tar(
    m: Map<Seq<u8>, Map<Seq<u8>, Seq<u8>>>,
    bs: Seq<Bucket>,
    i: int,
    nb: Seq<u8>,
)
    requires
        0 <= i,
        is_tar_name(nb),
    ensures
        buckets_tree_fold(m, bs, i).dom().contains(nb) == m.dom().contains(nb),
        m.dom().contains(nb) ==> buckets_tree_fold(m, bs, i)[nb] == m[nb],
    decreases i,
{
    if i > 0 {
        lemma_buckets_fold_tar(m, bs, i - 1, nb);
        lemma_ino_key_not_tar(bs[i - 1].ino);
    }
}

impl Catalog {
    /// Indexes the archive at `path`, handed in as its bytes, into the
    /// store. Skips (with no result) what is not a regular file, what does
    /// not end in `.tar.gz`, and what is already indexed; otherwise assigns
    /// every member a fresh inode, stores one record per member, writes the
    /// per-directory child lists, persists the counter after every bump,
    /// and flushes once. A malformed archive is rejected before anything
    /// is written.
    #[verifier::rlimit(100)]
    #[verifier::spinoff_prover]
    pub fn catalog_file(&mut self, path: &str, is_file: bool, data: &[u8]) -> (r: Result<
        Option<FileTar>,
        CatalogError,
    >)
        requires
            spec_leaf(path@) is Some,
        ensures
            final(self).cache_extract == old(self).cache_extract,
            r is Err ==> is_file && is_suffix(spec_leaf(path@)->Some_0, ".tar.gz"@),
            ({
                let m0 = db_trees(old(self).db);
                let d0 = db_default(old(self).db);
                let name = spec_leaf(path@)->Some_0;
                let tk = tar_key(name);
                let start = last_ino_of(d0);
                let skip = !is_file || !is_suffix(name, ".tar.gz"@) || tree_nonempty(m0, tk);
                match r {
                    Ok(None) => skip && db_default(final(self).db) == d0 && db_trees(
                        final(self).db,
                    ) == (if !is_file || !is_suffix(name, ".tar.gz"@) {
                        m0
                    } else {
                        with_tree(m0, tk)
                    }),
                    Ok(Some(ft)) => {
                        let l = archive_listing(data@)->Some_0;
                        let st = state_at(l, start, l.len() as int);
                        &&& !skip
                        &&& archive_listing(data@) is Some
                        &&& listing_ok(l)
                        &&& start + 1 + l.len() <= u64::MAX
                        &&& st.next == start + 1 + l.len()
                        &&& ft@ == FileTarV { file_name: name, full_path: path@ }
                        &&& db_trees(final(self).db) == indexed_trees(m0, name, l, start)
                        &&& db_default(final(self).db) == d0.insert(
                            last_ino_key(),
                            dec_bytes(st.next),
                        )
                        &&& last_ino_of(db_default(final(self).db)) == st.next
                        &&& last_ino_of(db_default(final(self).db)) >= start
                        &&& l.len() > 0 ==> tree_nonempty(db_trees(final(self).db), tk)
                        &&& store_inv(m0, d0) ==> store_inv(
                            db_trees(final(self).db),
                            db_default(final(self).db),
                        )
                    },
                    Err(CatalogError::ArchiveMalformed) => {
                        &&& !skip
                        &&& (archive_listing(data@) is None || !listing_ok(
                            archive_listing(data@)->Some_0,
                        ))
                        &&& db_trees(final(self).db) == with_tree(m0, tk)
                        &&& db_default(final(self).db) == d0
                    },
                    Err(CatalogError::InodesExhausted) => {
                        &&& !skip
                        &&& archive_listing(data@) is Some
                        &&& start + 1 + archive_listing(data@)->Some_0.len() > u64::MAX
                        &&& db_trees(final(self).db) == with_tree(m0, tk)
                        &&& db_default(final(self).db) == d0
                    },
                    Err(CatalogError::Store) => true,
                }
            }),
    {
        let ghost m0 = db_trees(old(self).db);
        let ghost d0 = db_default(old(self).db);
        let ghost name = spec_leaf(path@)->Some_0;
        let ghost tk = tar_key(name);
        if !is_file {
            return Ok(None);
        }
        let name_s = FileTar::path_to_string(path, false);
        if !str_ends_with(name_s.as_str(), ".tar.gz") {
            return Ok(None);
        }
        let ftar = FileTar::from_path(path);
        let indexed = match self.is_indexed(&ftar) {
            Ok(b) => b,
            Err(_) => {
                return Err(CatalogError::Store);
            },
        };
        if indexed {
            return Ok(None);
        }
        let entries = match decode_archive(data) {
            Some(es) => es,
            None => {
                return Err(CatalogError::ArchiveMalformed);
            },
        };
        let ghost l = entries_view(entries@);
        let mut vi: usize = 0;
        while vi < entries.len()
            invariant
                0 <= vi <= entries@.len(),
                l == entries_view(entries@),
                forall|k: int| 0 <= k < vi ==> entry_ok(#[trigger] l[k]),
                archive_listing(data@) == Some(l),
                is_file,
                name == spec_leaf(path@)->Some_0,
                tk == tar_key(name),
                is_suffix(name, ".tar.gz"@),
                !tree_nonempty(m0, tk),
                m0 == db_trees(old(self).db),
                d0 == db_default(old(self).db),
                db_trees(self.db) == with_tree(m0, tk),
                db_default(self.db) == d0,
                self.cache_extract == old(self).cache_extract,
            decreases entries@.len() - vi,
        {
            let e = &entries[vi];
            proof {
                assert(l[vi as int] == entries@[vi as int]@);
            }
            if leaf_of(e.path.as_str()).is_none() {
                return Err(CatalogError::ArchiveMalformed);
            }
            let c = count_char_in(e.path.as_str(), '/');
            if e.is_file && c == usize::MAX {
                return Err(CatalogError::ArchiveMalformed);
            }
            vi = vi + 1;
        }
        assert(listing_ok(l));
        let start = match self.get_last_ino() {
            Ok(n) => n,
            Err(_) => {
                return Err(CatalogError::Store);
            },
        };
        if (start as u128) + 1 + (entries.len() as u128) > u64::MAX as u128 {
            return Err(CatalogError::InodesExhausted);
        }
        let root_ino = start + 1;
        let mut buckets: Vec<BucketE> = Vec::new();
        buckets.push(BucketE { path: String::new(), ino: root_ino, kids: Vec::new() });
        match self.set_last_ino(root_ino) {
            Ok(_) => {},
            Err(_) => {
                return Err(CatalogError::Store);
            },
        }
        let tname = String::from_str("tar::").concat(ftar.file_name.as_str());
        proof {
            assert(buckets_view(buckets@) =~= index_init(start).buckets);
            assert(tree_of(m0, tk) =~= Map::<Seq<u8>, Seq<u8>>::empty());
            assert(with_tree(m0, tk).insert(tk, index_init(start).recs) =~~= with_tree(m0, tk));
        }
        let mut cur: u64 = root_ino;
        let mut i: usize = 0;
        while i < entries.len()
            invariant
                0 <= i <= entries@.len(),
                l == entries_view(entries@),
                listing_ok(l),
                l.len() == entries@.len(),
                start + 1 + l.len() <= u64::MAX,
                cur == start + 1 + i,
                state_at(l, start, i as int).next == cur,
                buckets_view(buckets@) == state_at(l, start, i as int).buckets,
                encode_utf8(tname@) == tk,
                tk == tar_key(name),
                name == spec_leaf(path@)->Some_0,
                is_file,
                is_suffix(name, ".tar.gz"@),
                m0 == db_trees(old(self).db),
                d0 == db_default(old(self).db),
                db_trees(self.db) == with_tree(m0, tk).insert(
                    tk,
                    state_at(l, start, i as int).recs,
                ),
                db_default(self.db) == d0.insert(last_ino_key(), dec_bytes(cur)),
                self.cache_extract == old(self).cache_extract,
                forall|kk: Seq<u8>|
                    #[trigger] state_at(l, start, i as int).recs.dom().contains(kk) ==> {
                        &&& spec_decode(state_at(l, start, i as int).recs[kk]) is Some
                        &&& start + 2 <= spec_decode(
                            state_at(l, start, i as int).recs[kk],
                        )->Some_0.ino <= cur
                    },
                forall|k1: Seq<u8>, k2: Seq<u8>|
                    #![trigger state_at(l, start, i as int).recs[k1], state_at(l, start, i as int).recs[k2]]
                    (state_at(l, start, i as int).recs.dom().contains(k1) && state_at(
                        l,
                        start,
                        i as int,
                    ).recs.dom().contains(k2) && k1 != k2) ==> spec_decode(
                        state_at(l, start, i as int).recs[k1],
                    )->Some_0.ino != spec_decode(state_at(l, start, i as int).recs[k2])->Some_0.ino,
            decreases entries@.len() - i,
        {
            let ghost st_pre = state_at(l, start, i as int);
            let e = &entries[i];
            proof {
                assert(l[i as int] == entries@[i as int]@);
                assert(entry_ok(l[i as int]));
            }
            let ino = cur + 1;
            let leaf = match leaf_of(e.path.as_str()) {
                Some(x) => x,
                None => {
                    proof {
                        assert(false);
                    }
                    return Err(CatalogError::ArchiveMalformed);
                },
            };
            let mut level = count_char_in(e.path.as_str(), '/');
            if e.is_file {
                level = level + 1;
            }
            let ppos = match str_rfind(e.path.as_str(), leaf.as_str()) {
                Some(p) => p,
                None => {
                    proof {
                        lemma_leaf_occurs(e.path@);
                        assert(false);
                    }
                    return Err(CatalogError::ArchiveMalformed);
                },
            };
            let parent = e.path.as_str().substring_char(0, ppos);
            if e.is_dir && find_bucket(&buckets, e.path.as_str()).is_none() {
                buckets.push(BucketE { path: e.path.clone(), ino, kids: Vec::new() });
                proof {
                    assert(buckets_view(buckets@) =~= st_pre.buckets.push(
                        Bucket { path: e.path@, ino, kids: Seq::empty() },
                    ));
                }
            }
            let ghost bs1 = buckets_view(buckets@);
            match find_bucket(&buckets, parent) {
                Some(k) => {
                    let mut b = buckets.remove(k);
                    b.kids.push(ino);
                    buckets.insert(k, b);
                    proof {
                        assert(buckets_view(buckets@) =~= bs1.update(
                            k as int,
                            Bucket {
                                path: bs1[k as int].path,
                                ino: bs1[k as int].ino,
                                kids: bs1[k as int].kids.push(ino),
                            },
                        ));
                    }
                },
                None => {},
            }
            let f = File {
                size: e.size,
                mtime: e.mtime,
                file_name: leaf,
                full_path: e.path.clone(),
                is_file: e.is_file,
                level_path: level,
                ino,
            };
            proof {
                assert(f@ == entry_file(l[i as int], ino));
            }
            let enc = encode_entry(&f);
            proof {
                lemma_tar_key_not_default(name);
            }
            match tree_insert(&mut self.db, tname.as_str(), f.full_path.as_str(), enc.as_slice()) {
                Ok(_) => {},
                Err(_) => {
                    return Err(CatalogError::Store);
                },
            }
            match self.set_last_ino(ino) {
                Ok(_) => {},
                Err(_) => {
                    return Err(CatalogError::Store);
                },
            }
            proof {
                let st_post = state_at(l, start, i + 1);
                assert(st_post == index_step(st_pre, l[i as int]));
                assert(st_post.recs == st_pre.recs.insert(
                    encode_utf8(l[i as int].path),
                    spec_encode(entry_file(l[i as int], ino)),
                ));
                assert(db_trees(self.db) =~~= with_tree(m0, tk).insert(tk, st_post.recs));
                assert(db_default(self.db) =~= d0.insert(last_ino_key(), dec_bytes(ino)));
            }
            cur = ino;
            i = i + 1;
        }
        let ghost stf = state_at(l, start, l.len() as int);
        let ghost m_mid = with_tree(m0, tk).insert(tk, stf.recs);
        let ghost d_end = d0.insert(last_ino_key(), dec_bytes(stf.next));
        let mut bi: usize = 0;
        while bi < buckets.len()
            invariant
                0 <= bi <= buckets@.len(),
                buckets_view(buckets@) == stf.buckets,
                db_trees(self.db) == buckets_tree_fold(m_mid, stf.buckets, bi as int),
                db_default(self.db) == d_end,
                self.cache_extract == old(self).cache_extract,
                is_file,
                is_suffix(spec_leaf(path@)->Some_0, ".tar.gz"@),
            decreases buckets@.len() - bi,
        {
            let b = &buckets[bi];
            let ghost m_b = buckets_tree_fold(m_mid, stf.buckets, bi as int);
            let ghost ikey = ino_key(b.ino);
            proof {
                assert(stf.buckets[bi as int] == bucket_v(*b));
            }
            if b.kids.len() > 0 {
                let tname2 = String::from_str("inotree::").concat(u64_to_string(b.ino).as_str());
                let mut j: usize = 0;
                while j < b.kids.len()
                    invariant
                        0 <= j <= b.kids@.len(),
                        encode_utf8(tname2@) == ikey,
                        ikey == ino_key(b.ino),
                        is_file,
                        is_suffix(spec_leaf(path@)->Some_0, ".tar.gz"@),
                        db_trees(self.db) == (if j == 0 {
                            m_b
                        } else {
                            m_b.insert(
                                ikey,
                                kids_tree(tree_of(m_b, ikey), b.kids@, j as int),
                            )
                        }),
                        db_default(self.db) == d_end,
                        self.cache_extract == old(self).cache_extract,
                    decreases b.kids@.len() - j,
                {
                    let kid = b.kids[j];
                    let kstr = u64_to_string(kid);
                    let kval = u64_dec_vec(kid);
                    proof {
                        lemma_dec_bytes_utf8(kid);
                        lemma_ino_key_not_default(b.ino);
                    }
                    match tree_insert(&mut self.db, tname2.as_str(), kstr.as_str(), kval.as_slice()) {
                        Ok(_) => {},
                        Err(_) => {
                            return Err(CatalogError::Store);
                        },
                    }
                    proof {
                        if j == 0 {
                            assert(kids_tree(tree_of(m_b, ikey), b.kids@, 0) == tree_of(
                                m_b,
                                ikey,
                            ));
                            assert(db_trees(self.db) =~~= m_b.insert(
                                ikey,
                                kids_tree(tree_of(m_b, ikey), b.kids@, 1),
                            ));
                        } else {
                            assert(db_trees(self.db) =~~= m_b.insert(
                                ikey,
                                kids_tree(tree_of(m_b, ikey), b.kids@, j + 1),
                            ));
                        }
                    }
                    j = j + 1;
                }
                proof {
                    assert(db_trees(self.db) =~~= buckets_tree_fold(
                        m_mid,
                        stf.buckets,
                        bi + 1,
                    ));
                }
            } else {
                proof {
                    assert(db_trees(self.db) =~~= buckets_tree_fold(
                        m_mid,
                        stf.buckets,
                        bi + 1,
                    ));
                }
            }
            bi = bi + 1;
        }
        match db_flush(&mut self.db) {
            Ok(_) => {},
            Err(_) => {
                return Err(CatalogError::Store);
            },
        }
        proof {
            assert(db_trees(self.db) == indexed_trees(m0, name, l, start));
            lemma_dec_round_trip(stf.next);
            assert(last_ino_of(db_default(self.db)) == stf.next);
            lemma_tar_key_is_tar(name);
            lemma_buckets_fold_tar(m_mid, stf.buckets, stf.buckets.len() as int, tk);
            if l.len() > 0 {
                assert(stf == index_step(state_at(l, start, l.len() - 1), l[l.len() - 1]));
                assert(stf.recs.dom().contains(encode_utf8(l[l.len() - 1].path)));
                assert(tree_of(db_trees(self.db), tk) == stf.recs);
                assert(tree_nonempty(db_trees(self.db), tk));
            }
            if store_inv(m0, d0) {
                lemma_preserve_inv(m0, d0, name, l, start, db_trees(self.db), db_default(self.db));
            }
        }
        Ok(Some(ftar))
    }
}

/// The body of the first listing entry at or after `i` whose path is `p`.
pub open spec fn find_body(l: Seq<RawEntryV>, p: Seq<char>, i: int) -> Option<Seq<u8>>
    decreases l.len() - i when 0 <= i <= l.len()
{
    if i >= l.len() {
        None
    } else if l[i].path == p {
        Some(l[i].data)
    } else {
        find_body(l, p, i + 1)
    }
}

/// What extracting the member `p` from archive bytes yields: the body of
/// the first member with that path, or nothing.
pub open spec fn spec_extract(data: Seq<u8>, p: Seq<char>) -> Option<Seq<u8>> {
    match archive_listing(data) {
        None => None,
        Some(l) => find_body(l, p, 0),
    }
}

impl Catalog {
    /// The cache file that holds the extracted member: the cache directory,
    /// the archive's leaf name, and the member path with its slashes
    /// removed, joined as one flat file name.
    pub fn cached_file_name(&self, ftar: &FileTar, ffile: &File) -> (r: String)
        ensures
            r@ == self.cache_extract@ + "/"@ + ftar@.file_name + "_"@ + crate::strings::sans_slashes(
                ffile@.full_path,
            ),
    {
        let mut out = self.cache_extract.clone();
        out.append("/");
        out.append(ftar.file_name.as_str());
        out.append("_");
        let flat = crate::strings::remove_slashes(ffile.full_path.as_str());
        out.append(flat.as_str());
        out
    }

    /// Extracts one member from the archive's bytes: the body of the first
    /// member whose path is the entry's full path. The caller materializes
    /// the result to the cache file and serves reads from it.
    pub fn extract_file(&self, ftar: &FileTar, ffile: &File, data: &[u8]) -> (r: Option<Vec<u8>>)
        ensures
            match r {
                Some(body) => spec_extract(data@, ffile@.full_path) == Some(body@),
                None => spec_extract(data@, ffile@.full_path) is None,
            },
    {
        let entries = match decode_archive(data) {
            Some(es) => es,
            None => {
                return None;
            },
        };
        let ghost l = entries_view(entries@);
        let mut i: usize = 0;
        while i < entries.len()
            invariant
                0 <= i <= entries@.len(),
                l == entries_view(entries@),
                archive_listing(data@) == Some(l),
                find_body(l, ffile@.full_path, 0) == find_body(l, ffile@.full_path, i as int),
            decreases entries@.len() - i,
        {
            proof {
                assert(l[i as int] == entries@[i as int]@);
            }
            if str_eq(entries[i].path.as_str(), ffile.full_path.as_str()) {
                return Some(vstd::slice::slice_to_vec(entries[i].data.as_slice()));
            }
            i = i + 1;
        }
        None
    }
}

/// Indexing one archive preserves the store's standing invariant: the new
/// records take fresh inodes above the old counter and below the new one.
proof fn lemma_preserve_inv(
    m0: Map<Seq<u8>, Map<Seq<u8>, Seq<u8>>>,
    d0: Map<Seq<u8>, Seq<u8>>,
    name: Seq<char>,
    l: Seq<RawEntryV>,
    start: u64,
    m2: Map<Seq<u8>, Map<Seq<u8>, Seq<u8>>>,
    d2: Map<Seq<u8>, Seq<u8>>,
)
    requires
        store_inv(m0, d0),
        start == last_ino_of(d0),
        start + 1 + l.len() <= u64::MAX,
        m2 == indexed_trees(m0, name, l, start),
        last_ino_of(d2) == state_at(l, start, l.len() as int).next,
        state_at(l, start, l.len() as int).next == start + 1 + l.len(),
        forall|kk: Seq<u8>|
            #[trigger] state_at(l, start, l.len() as int).recs.dom().contains(kk) ==> {
                &&& spec_decode(state_at(l, start, l.len() as int).recs[kk]) is Some
                &&& start + 2 <= spec_decode(
                    state_at(l, start, l.len() as int).recs[kk],
                )->Some_0.ino <= start + 1 + l.len()
            },
        forall|k1: Seq<u8>, k2: Seq<u8>|
            #![trigger state_at(l, start, l.len() as int).recs[k1], state_at(l, start, l.len() as int).recs[k2]]
            (state_at(l, start, l.len() as int).recs.dom().contains(k1) && state_at(
                l,
                start,
                l.len() as int,
            ).recs.dom().contains(k2) && k1 != k2) ==> spec_decode(
                state_at(l, start, l.len() as int).recs[k1],
            )->Some_0.ino != spec_decode(state_at(l, start, l.len() as int).recs[k2])->Some_0.ino,
    ensures
        store_inv(m2, d2),
{
    let tk = tar_key(name);
    let st = state_at(l, start, l.len() as int);
    let m_mid = with_tree(m0, tk).insert(tk, st.recs);
    let last2 = last_ino_of(d2);
    lemma_tar_key_is_tar(name);
    assert forall|nb: Seq<u8>, k: Seq<u8>|
        m2.dom().contains(nb) && is_tar_name(nb) && #[trigger] m2[nb].dom().contains(k) implies {
        &&& spec_decode(m2[nb][k]) is Some
        &&& 20000 <= rec_ino(m2, nb, k) <= last2
    } by {
        lemma_buckets_fold_tar(m_mid, st.buckets, st.buckets.len() as int, nb);
        assert(m2[nb] == m_mid[nb]);
        if nb == tk {
            assert(m_mid[nb] == st.recs);
        } else {
            assert(m_mid[nb] == m0[nb]);
            assert(m0.dom().contains(nb));
            assert(m0[nb].dom().contains(k));
            assert(rec_ino(m0, nb, k) == rec_ino(m2, nb, k));
        }
    }
    assert forall|nb1: Seq<u8>, k1: Seq<u8>, nb2: Seq<u8>, k2: Seq<u8>|
        (m2.dom().contains(nb1) && is_tar_name(nb1) && m2[nb1].dom().contains(k1)
            && m2.dom().contains(nb2) && is_tar_name(nb2) && m2[nb2].dom().contains(k2) && (nb1
            != nb2 || k1 != k2)) implies #[trigger] rec_ino(m2, nb1, k1) != #[trigger] rec_ino(
        m2,
        nb2,
        k2,
    ) by {
        lemma_buckets_fold_tar(m_mid, st.buckets, st.buckets.len() as int, nb1);
        lemma_buckets_fold_tar(m_mid, st.buckets, st.buckets.len() as int, nb2);
        assert(m2[nb1] == m_mid[nb1]);
        assert(m2[nb2] == m_mid[nb2]);
        if nb1 == tk && nb2 == tk {
            assert(rec_ino(m2, nb1, k1) != rec_ino(m2, nb2, k2));
        } else if nb1 == tk {
            assert(m0.dom().contains(nb2) && m0[nb2].dom().contains(k2));
            assert(rec_ino(m2, nb2, k2) == rec_ino(m0, nb2, k2));
            assert(rec_ino(m0, nb2, k2) <= start);
            assert(rec_ino(m2, nb1, k1) >= start + 2);
        } else if nb2 == tk {
            assert(m0.dom().contains(nb1) && m0[nb1].dom().contains(k1));
            assert(rec_ino(m2, nb1, k1) == rec_ino(m0, nb1, k1));
            assert(rec_ino(m0, nb1, k1) <= start);
            assert(rec_ino(m2, nb2, k2) >= start + 2);
        } else {
            assert(m0.dom().contains(nb1) && m0[nb1].dom().contains(k1));
            assert(m0.dom().contains(nb2) && m0[nb2].dom().contains(k2));
            assert(rec_ino(m2, nb1, k1) == rec_ino(m0, nb1, k1));
            assert(rec_ino(m2, nb2, k2) == rec_ino(m0, nb2, k2));
        }
    }
}

} // verus!
