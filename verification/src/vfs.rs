//! The filesystem adapter: translates kernel callbacks into catalog queries.
//!
//! The adapter owns the runtime inode maps: one from `(parent inode, name)`
//! to the indexed entry behind it, filled lazily by `readdir` and consulted
//! by `lookup`, `getattr` and `read`; and one from an entry's inode to the
//! archive it belongs to. Directory listings, attribute records and read
//! windows are computed here from plain values; the caller performs the
//! kernel replies and the cache-file reads around them.

use vstd::prelude::*;
use crate::catalog::{
    cats_of, entries_match, files_view, filetars_view, ino_key, inos_match, tar_key, Catalog,
    CatalogError,
};
use crate::entry::{File, FileTar, FileTarV, FileV};
use crate::store::{db_default, db_trees, default_tree_id, with_tree};
use crate::strings::str_eq;

verus! {

/// One attribute record, as the mount surface reports it.
#[derive(Clone, Copy, Debug, PartialEq, Eq, Structural)]
pub struct FileAttrData {
    pub ino: u64,
    pub size: u64,
    pub mtime: u64,
    pub is_dir: bool,
    pub perm: u16,
    pub nlink: u32,
    pub uid: u32,
    pub gid: u32,
}

/// The mathematical value of one runtime inode-map entry.
pub ghost struct InodeEntryV {
    pub parent: u64,
    pub name: Seq<char>,
    pub ino: u64,
    pub file: FileV,
}

/// One runtime inode-map entry: `(parent inode, child name)` mapped to the
/// child's inode and its indexed entry.
pub struct InodeEntry {
    pub parent: u64,
    pub name: String,
    pub ino: u64,
    pub file: File,
}

impl View for InodeEntry {
    type V = InodeEntryV;

    open spec fn view(&self) -> InodeEntryV {
        InodeEntryV {
            parent: self.parent,
            name: self.name@,
            ino: self.ino,
            file: self.file@,
        }
    }
}

/// The views of the inode-map entries.
pub open spec fn ims_view(s: Seq<InodeEntry>) -> Seq<InodeEntryV> {
    s.map(|i: int, e: InodeEntry| e@)
}

/// The first entry with key `(parent, name)`, searching from `i`.
pub open spec fn im_key_idx(s: Seq<InodeEntryV>, parent: u64, name: Seq<char>, i: int) -> int
    decreases s.len() - i when 0 <= i <= s.len()
{
    if i >= s.len() {
        -1
    } else if s[i].parent == parent && s[i].name == name {
        i
    } else {
        im_key_idx(s, parent, name, i + 1)
    }
}

/// What the runtime map holds under `(parent, name)`.
pub open spec fn im_lookup(s: Seq<InodeEntryV>, parent: u64, name: Seq<char>) -> Option<
    InodeEntryV,
> {
    let k = im_key_idx(s, parent, name, 0);
    if k >= 0 {
        Some(s[k])
    } else {
        None
    }
}

/// The map after one entry is recorded: an entry under the same key is
/// replaced, and the new entry moves to the end of the scan order.
pub open spec fn im_insert(s: Seq<InodeEntryV>, e: InodeEntryV) -> Seq<InodeEntryV> {
    let k = im_key_idx(s, e.parent, e.name, 0);
    if k >= 0 {
        s.remove(k).push(e)
    } else {
        s.push(e)
    }
}

/// The first entry whose value inode is `ino`, searching from `i`.
pub open spec fn im_ino_idx(s: Seq<InodeEntryV>, ino: u64, i: int) -> int
    decreases s.len() - i when 0 <= i <= s.len()
{
    if i >= s.len() {
        -1
    } else if s[i].ino == ino {
        i
    } else {
        im_ino_idx(s, ino, i + 1)
    }
}

/// The first regular-file entry whose value inode is `ino`.
pub open spec fn im_file_ino_idx(s: Seq<InodeEntryV>, ino: u64, i: int) -> int
    decreases s.len() - i when 0 <= i <= s.len()
{
    if i >= s.len() {
        -1
    } else if s[i].ino == ino && s[i].file.is_file {
        i
    } else {
        im_file_ino_idx(s, ino, i + 1)
    }
}

/// The runtime map from `(parent inode, name)` to the entry behind it.
pub struct InodeMap {
    pub entries: Vec<InodeEntry>,
}

impl View for InodeMap {
    type V = Seq<InodeEntryV>;

    open spec fn view(&self) -> Seq<InodeEntryV> {
        ims_view(self.entries@)
    }
}

impl InodeMap {
    /// An empty map.
    pub fn new() -> (r: InodeMap)
        ensures
            r@ == Seq::<InodeEntryV>::empty(),
    {
        let r = InodeMap { entries: Vec::new() };
        proof {
            assert(r@ =~= Seq::<InodeEntryV>::empty());
        }
        r
    }

    /// The inode and entry under `(parent, name)`.
    pub fn get(&self, parent: u64, name: &str) -> (r: Option<(u64, File)>)
        ensures
            match r {
                Some((ino, f)) => im_lookup(self@, parent, name@) matches Some(e) && e.ino == ino
                    && e.file == f@,
                None => im_lookup(self@, parent, name@) is None,
            },
    {
        let mut i: usize = 0;
        while i < self.entries.len()
            invariant
                0 <= i <= self.entries@.len(),
                im_key_idx(self@, parent, name@, 0) == im_key_idx(self@, parent, name@, i as int),
                self@.len() == self.entries@.len(),
            decreases self.entries@.len() - i,
        {
            proof {
                assert(self@[i as int] == self.entries@[i as int]@);
            }
            let e = &self.entries[i];
            if e.parent == parent && str_eq(e.name.as_str(), name) {
                return Some((e.ino, e.file.clone()));
            }
            i = i + 1;
        }
        None
    }

    /// The position of the entry with key `(parent, name)`.
    fn key_index(&self, parent: u64, name: &str) -> (r: Option<usize>)
        ensures
            match r {
                Some(k) => im_key_idx(self@, parent, name@, 0) == k as int && k < self@.len(),
                None => im_key_idx(self@, parent, name@, 0) == -1,
            },
    {
        let mut i: usize = 0;
        while i < self.entries.len()
            invariant
                0 <= i <= self.entries@.len(),
                self@.len() == self.entries@.len(),
                im_key_idx(self@, parent, name@, 0) == im_key_idx(self@, parent, name@, i as int),
            decreases self.entries@.len() - i,
        {
            proof {
                assert(self@[i as int] == self.entries@[i as int]@);
            }
            let e = &self.entries[i];
            if e.parent == parent && str_eq(e.name.as_str(), name) {
                return Some(i);
            }
            i = i + 1;
        }
        None
    }

    /// Records one entry, replacing any entry under the same key.
    pub fn insert(&mut self, parent: u64, name: String, ino: u64, file: File)
        ensures
            final(self)@ == im_insert(
                old(self)@,
                InodeEntryV { parent, name: name@, ino, file: file@ },
            ),
    {
        let found = self.key_index(parent, name.as_str());
        let ev = InodeEntry { parent, name, ino, file };
        match found {
            Some(k) => {
                self.entries.remove(k);
                self.entries.push(ev);
                proof {
                    assert(final(self)@ =~= im_insert(
                        old(self)@,
                        InodeEntryV {
                            parent,
                            name: ev.name@,
                            ino,
                            file: ev.file@,
                        },
                    ));
                }
            },
            None => {
                self.entries.push(ev);
                proof {
                    assert(final(self)@ =~= im_insert(
                        old(self)@,
                        InodeEntryV {
                            parent,
                            name: ev.name@,
                            ino,
                            file: ev.file@,
                        },
                    ));
                }
            },
        }
    }

    /// The entry of the first mapping whose value inode is `ino`.
    pub fn find_by_ino(&self, ino: u64) -> (r: Option<File>)
        ensures
            ({
                let k = im_ino_idx(self@, ino, 0);
                match r {
                    Some(f) => k >= 0 && f@ == self@[k].file,
                    None => k < 0,
                }
            }),
    {
        let mut i: usize = 0;
        while i < self.entries.len()
            invariant
                0 <= i <= self.entries@.len(),
                self@.len() == self.entries@.len(),
                im_ino_idx(self@, ino, 0) == im_ino_idx(self@, ino, i as int),
            decreases self.entries@.len() - i,
        {
            proof {
                assert(self@[i as int] == self.entries@[i as int]@);
            }
            let e = &self.entries[i];
            if e.ino == ino {
                return Some(e.file.clone());
            }
            i = i + 1;
        }
        None
    }

    /// The entry of the first regular-file mapping whose value inode is
    /// `ino`.
    pub fn find_file_by_ino(&self, ino: u64) -> (r: Option<File>)
        ensures
            ({
                let k = im_file_ino_idx(self@, ino, 0);
                match r {
                    Some(f) => k >= 0 && f@ == self@[k].file && f@.is_file,
                    None => k < 0,
                }
            }),
    {
        let mut i: usize = 0;
        while i < self.entries.len()
            invariant
                0 <= i <= self.entries@.len(),
                self@.len() == self.entries@.len(),
                im_file_ino_idx(self@, ino, 0) == im_file_ino_idx(self@, ino, i as int),
            decreases self.entries@.len() - i,
        {
            proof {
                assert(self@[i as int] == self.entries@[i as int]@);
            }
            let e = &self.entries[i];
            if e.ino == ino && e.file.is_file {
                return Some(e.file.clone());
            }
            i = i + 1;
        }
        None
    }
}

/// The mathematical value of one inode-to-archive mapping.
pub ghost struct TarEntryV {
    pub ino: u64,
    pub tar: FileTarV,
}

/// One inode-to-archive mapping.
pub struct TarEntry {
    pub ino: u64,
    pub tar: FileTar,
}

impl View for TarEntry {
    type V = TarEntryV;

    open spec fn view(&self) -> TarEntryV {
        TarEntryV { ino: self.ino, tar: self.tar@ }
    }
}

/// The views of the archive-map entries.
pub open spec fn tms_view(s: Seq<TarEntry>) -> Seq<TarEntryV> {
    s.map(|i: int, e: TarEntry| e@)
}

/// The first mapping for inode `ino`, searching from `i`.
pub open spec fn tm_key_idx(s: Seq<TarEntryV>, ino: u64, i: int) -> int
    decreases s.len() - i when 0 <= i <= s.len()
{
    if i >= s.len() {
        -1
    } else if s[i].ino == ino {
        i
    } else {
        tm_key_idx(s, ino, i + 1)
    }
}

/// What the archive map holds under `ino`.
pub open spec fn tm_lookup(s: Seq<TarEntryV>, ino: u64) -> Option<FileTarV> {
    let k = tm_key_idx(s, ino, 0);
    if k >= 0 {
        Some(s[k].tar)
    } else {
        None
    }
}

/// The map after one mapping is recorded.
pub open spec fn tm_insert(s: Seq<TarEntryV>, e: TarEntryV) -> Seq<TarEntryV> {
    let k = tm_key_idx(s, e.ino, 0);
    if k >= 0 {
        s.remove(k).push(e)
    } else {
        s.push(e)
    }
}

/// The runtime map from an entry's inode to the archive it belongs to.
pub struct TarMap {
    pub entries: Vec<TarEntry>,
}

impl View for TarMap {
    type V = Seq<TarEntryV>;

    open spec fn view(&self) -> Seq<TarEntryV> {
        tms_view(self.entries@)
    }
}

impl TarMap {
    /// An empty map.
    pub fn new() -> (r: TarMap)
        ensures
            r@ == Seq::<TarEntryV>::empty(),
    {
        let r = TarMap { entries: Vec::new() };
        proof {
            assert(r@ =~= Seq::<TarEntryV>::empty());
        }
        r
    }

    /// The archive that inode `ino` belongs to.
    pub fn get(&self, ino: u64) -> (r: Option<FileTar>)
        ensures
            match r {
                Some(t) => tm_lookup(self@, ino) == Some(t@),
                None => tm_lookup(self@, ino) is None,
            },
    {
        let mut i: usize = 0;
        while i < self.entries.len()
            invariant
                0 <= i <= self.entries@.len(),
                self@.len() == self.entries@.len(),
                tm_key_idx(self@, ino, 0) == tm_key_idx(self@, ino, i as int),
            decreases self.entries@.len() - i,
        {
            proof {
                assert(self@[i as int] == self.entries@[i as int]@);
            }
            let e = &self.entries[i];
            if e.ino == ino {
                return Some(e.tar.clone());
            }
            i = i + 1;
        }
        None
    }

    /// The position of the mapping for inode `ino`.
    fn key_index(&self, ino: u64) -> (r: Option<usize>)
        ensures
            match r {
                Some(k) => tm_key_idx(self@, ino, 0) == k as int && k < self@.len(),
                None => tm_key_idx(self@, ino, 0) == -1,
            },
    {
        let mut i: usize = 0;
        while i < self.entries.len()
            invariant
                0 <= i <= self.entries@.len(),
                self@.len() == self.entries@.len(),
                tm_key_idx(self@, ino, 0) == tm_key_idx(self@, ino, i as int),
            decreases self.entries@.len() - i,
        {
            proof {
                assert(self@[i as int] == self.entries@[i as int]@);
            }
            if self.entries[i].ino == ino {
                return Some(i);
            }
            i = i + 1;
        }
        None
    }

    /// Records which archive inode `ino` belongs to.
    pub fn insert(&mut self, ino: u64, tar: FileTar)
        ensures
            final(self)@ == tm_insert(old(self)@, TarEntryV { ino, tar: tar@ }),
    {
        let found = self.key_index(ino);
        let ev = TarEntry { ino, tar };
        match found {
            Some(k) => {
                self.entries.remove(k);
                self.entries.push(ev);
                proof {
                    assert(final(self)@ =~= tm_insert(
                        old(self)@,
                        TarEntryV { ino, tar: ev.tar@ },
                    ));
                }
            },
            None => {
                self.entries.push(ev);
                proof {
                    assert(final(self)@ =~= tm_insert(
                        old(self)@,
                        TarEntryV { ino, tar: ev.tar@ },
                    ));
                }
            },
        }
    }
}

/// The default attribute record for inode `ino`: a directory, empty,
/// readable by all, the way the mount surface reports collections.
pub open spec fn spec_def_attr(ino: u64) -> FileAttrData {
    FileAttrData {
        ino,
        size: 0,
        mtime: 0,
        is_dir: true,
        perm: 0o444,
        nlink: 2,
        uid: 0,
        gid: 0,
    }
}

/// The attribute record of an indexed entry under inode `ino`.
pub open spec fn spec_attr_of(ino: u64, f: FileV) -> FileAttrData {
    FileAttrData {
        ino,
        size: f.size,
        mtime: f.mtime,
        is_dir: !f.is_file,
        perm: 0o444,
        nlink: 2,
        uid: 0,
        gid: 0,
    }
}

/// The filesystem adapter and its runtime inode maps.
pub struct TarInterface {
    pub inodes: InodeMap,
    pub itars: TarMap,
}

impl TarInterface {
    /// A fresh adapter with empty runtime maps.
    pub fn new() -> (r: TarInterface)
        ensures
            r.inodes@ == Seq::<InodeEntryV>::empty(),
            r.itars@ == Seq::<TarEntryV>::empty(),
    {
        TarInterface { inodes: InodeMap::new(), itars: TarMap::new() }
    }

    /// The default attribute record.
    pub fn def_file_attr(ino: u64) -> (r: FileAttrData)
        ensures
            r == spec_def_attr(ino),
    {
        FileAttrData {
            ino,
            size: 0,
            mtime: 0,
            is_dir: true,
            perm: 0o444,
            nlink: 2,
            uid: 0,
            gid: 0,
        }
    }

    /// The placeholder entry a lookup miss is answered with.
    pub fn def_file(name: String, is_file: bool, ino: u64) -> (r: File)
        ensures
            r@.full_path == name@,
            r@.file_name == name@,
            r@.mtime == 0,
            r@.size == 0,
            r@.is_file == is_file,
            r@.level_path == 1,
            r@.ino == ino,
    {
        let full_path = name.clone();
        File { size: 0, mtime: 0, file_name: name, full_path, is_file, level_path: 1, ino }
    }

    /// Answers a `lookup` callback: the attributes of the child `name`
    /// under `parent`, or a synthesized record carrying `parent` itself
    /// when the pair is unknown.
    pub fn lookup(&self, parent: u64, name: &str) -> (r: FileAttrData)
        ensures
            r == match im_lookup(self.inodes@, parent, name@) {
                Some(e) => spec_attr_of(e.ino, e.file),
                None => spec_def_attr(parent),
            },
    {
        match self.inodes.get(parent, name) {
            Some((ino, file)) => {
                let mut attr = TarInterface::def_file_attr(ino);
                if file.is_file {
                    attr.is_dir = false;
                }
                attr.mtime = file.mtime;
                attr.size = file.size;
                attr
            },
            None => TarInterface::def_file_attr(parent),
        }
    }

    /// Answers a `getattr` callback: the root's attributes for inode 1,
    /// else those of the first recorded mapping whose inode matches, and
    /// nothing when the inode is unknown.
    pub fn getattr(&self, ino: u64) -> (r: Option<FileAttrData>)
        ensures
            ino == 1 ==> r == Some(spec_def_attr(1)),
            ino != 1 ==> ({
                let k = im_ino_idx(self.inodes@, ino, 0);
                match r {
                    Some(a) => k >= 0 && a == spec_attr_of(ino, self.inodes@[k].file),
                    None => k < 0,
                }
            }),
    {
        if ino == 1 {
            return Some(TarInterface::def_file_attr(1));
        }
        match self.inodes.find_by_ino(ino) {
            Some(file) => {
                let mut attr = TarInterface::def_file_attr(ino);
                if file.is_file {
                    attr.is_dir = false;
                }
                attr.mtime = file.mtime;
                attr.size = file.size;
                Some(attr)
            },
            None => None,
        }
    }

    /// Locates what a `read` callback asks for: the first regular-file
    /// mapping under `ino` and the archive that owns it.
    pub fn read_target(&self, ino: u64) -> (r: Option<(FileTar, File)>)
        ensures
            ({
                let k = im_file_ino_idx(self.inodes@, ino, 0);
                match r {
                    Some((t, f)) => k >= 0 && f@ == self.inodes@[k].file && f@.is_file
                        && tm_lookup(self.itars@, ino) == Some(t@),
                    None => k < 0 || tm_lookup(self.itars@, ino) is None,
                }
            }),
    {
        match self.inodes.find_file_by_ino(ino) {
            Some(file) => match self.itars.get(ino) {
                Some(tar) => Some((tar, file)),
                None => None,
            },
            None => None,
        }
    }
}

/// The mathematical value of one directory-listing entry.
pub ghost struct DirEntryV {
    pub ino: u64,
    pub is_dir: bool,
    pub name: Seq<char>,
}

/// One entry of a directory listing, as `readdir` replies it.
pub struct DirEntry {
    pub ino: u64,
    pub is_dir: bool,
    pub name: String,
}

impl View for DirEntry {
    type V = DirEntryV;

    open spec fn view(&self) -> DirEntryV {
        DirEntryV { ino: self.ino, is_dir: self.is_dir, name: self.name@ }
    }
}

/// The views of a directory listing.
pub open spec fn dirents_view(s: Seq<DirEntry>) -> Seq<DirEntryV> {
    s.map(|i: int, e: DirEntry| e@)
}

/// The listing entry an indexed entry is shown as.
pub open spec fn file_dirent(f: FileV) -> DirEntryV {
    DirEntryV { ino: f.ino, is_dir: !f.is_file, name: f.file_name }
}

/// The listing entries of a run of indexed entries.
pub open spec fn dirents_of(fs: Seq<FileV>) -> Seq<DirEntryV> {
    fs.map(|i: int, f: FileV| file_dirent(f))
}

/// The placeholder record the root listing shows archive `n` as.
pub open spec fn def_file_v(name: Seq<char>, is_file: bool, ino: u64) -> FileV {
    FileV {
        size: 0,
        mtime: 0,
        file_name: name,
        full_path: name,
        is_file,
        level_path: 1,
        ino,
    }
}

/// The records the mount root lists: the first `n` archives, each under a
/// short inode counted from 2.
pub open spec fn root_files(cats: Seq<FileTarV>, n: int) -> Seq<FileV>
    decreases n when n >= 0
{
    if n <= 0 {
        Seq::empty()
    } else {
        root_files(cats, n - 1).push(def_file_v(cats[n - 1].file_name, false, (n + 1) as u64))
    }
}

/// How many archives the root lists: all of them, up to the last short
/// inode the reserved range `2 .. 19999` offers.
pub open spec fn root_count(cats: Seq<FileTarV>) -> int {
    if cats.len() <= 19998 {
        cats.len() as int
    } else {
        19998
    }
}

/// The entries of an archive whose depth is one: the top-level view.
pub open spec fn level1_files(fs: Seq<FileV>) -> Seq<FileV>
    decreases fs.len(),
{
    if fs.len() == 0 {
        fs
    } else {
        level1_files(fs.drop_last()) + if fs.last().level_path == 1 {
            seq![fs.last()]
        } else {
            Seq::empty()
        }
    }
}

/// The entries of an archive whose inode stands in a child list.
pub open spec fn filtered_files(fs: Seq<FileV>, inos: Seq<u64>) -> Seq<FileV>
    decreases fs.len(),
{
    if fs.len() == 0 {
        fs
    } else {
        filtered_files(fs.drop_last(), inos) + if inos.contains(fs.last().ino) {
            seq![fs.last()]
        } else {
            Seq::empty()
        }
    }
}

/// The inode map after the listed entries are recorded under `parent`, in
/// listing order.
pub open spec fn im_after(s: Seq<InodeEntryV>, parent: u64, fs: Seq<FileV>) -> Seq<InodeEntryV>
    decreases fs.len(),
{
    if fs.len() == 0 {
        s
    } else {
        im_insert(
            im_after(s, parent, fs.drop_last()),
            InodeEntryV {
                parent,
                name: fs.last().file_name,
                ino: fs.last().ino,
                file: fs.last(),
            },
        )
    }
}

/// The archive map after the root listing records each archive under its
/// short inode.
pub open spec fn tm_after_cats(s: Seq<TarEntryV>, cats: Seq<FileTarV>, n: int) -> Seq<TarEntryV>
    decreases n when n >= 0
{
    if n <= 0 {
        s
    } else {
        tm_insert(tm_after_cats(s, cats, n - 1), TarEntryV { ino: (n + 1) as u64, tar: cats[n - 1] })
    }
}

/// The archive map after the listed entries are recorded as belonging to
/// `tar`.
pub open spec fn tm_after_files(s: Seq<TarEntryV>, fs: Seq<FileV>, tar: FileTarV) -> Seq<TarEntryV>
    decreases fs.len(),
{
    if fs.len() == 0 {
        s
    } else {
        tm_insert(
            tm_after_files(s, fs.drop_last(), tar),
            TarEntryV { ino: fs.last().ino, tar },
        )
    }
}

/// `ns` enumerates the subtree names of `m` without repetition.
pub open spec fn names_enum(m: Map<Seq<u8>, Map<Seq<u8>, Seq<u8>>>, ns: Seq<Seq<u8>>) -> bool {
    &&& ns.to_set() == m.dom().insert(default_tree_id())
    &&& ns.no_duplicates()
}

/// What listing a long inode (a directory member) did: some enumeration of
/// the archive's records and of the child list picks the listed entries,
/// the reply shows them, and the runtime maps record them.
pub open spec fn long_listing_post(
    ds: Seq<DirEntryV>,
    m0: Map<Seq<u8>, Map<Seq<u8>, Seq<u8>>>,
    inodes0: Seq<InodeEntryV>,
    itars0: Seq<TarEntryV>,
    inodes1: Seq<InodeEntryV>,
    itars1: Seq<TarEntryV>,
    trees1: Map<Seq<u8>, Map<Seq<u8>, Seq<u8>>>,
    ino: u64,
    tarv: FileTarV,
) -> bool {
    exists|fs: Seq<FileV>, vs: Seq<u64>|
        #![trigger entries_match(m0, tarv.file_name, fs), inos_match(m0, ino, vs)]
        {
            let listed = filtered_files(fs, vs);
            &&& entries_match(m0, tarv.file_name, fs)
            &&& inos_match(m0, ino, vs)
            &&& ds.skip(2) == dirents_of(listed)
            &&& inodes1 == im_after(inodes0, ino, listed)
            &&& itars1 == tm_after_files(itars0, listed, tarv)
            &&& trees1 == with_tree(with_tree(m0, tar_key(tarv.file_name)), ino_key(ino))
        }
}

/// What listing an archive-root inode did: some enumeration of the
/// archive's records picks its depth-one entries, the reply shows them,
/// and the runtime maps record them.
pub open spec fn top_listing_post(
    ds: Seq<DirEntryV>,
    m0: Map<Seq<u8>, Map<Seq<u8>, Seq<u8>>>,
    inodes0: Seq<InodeEntryV>,
    itars0: Seq<TarEntryV>,
    inodes1: Seq<InodeEntryV>,
    itars1: Seq<TarEntryV>,
    trees1: Map<Seq<u8>, Map<Seq<u8>, Seq<u8>>>,
    ino: u64,
    tarv: FileTarV,
) -> bool {
    exists|fs: Seq<FileV>|
        #![trigger entries_match(m0, tarv.file_name, fs)]
        {
            let listed = level1_files(fs);
            &&& entries_match(m0, tarv.file_name, fs)
            &&& ds.skip(2) == dirents_of(listed)
            &&& inodes1 == im_after(inodes0, ino, listed)
            &&& itars1 == tm_after_files(itars0, listed, tarv)
            &&& trees1 == with_tree(m0, tar_key(tarv.file_name))
        }
}

/// Whether `x` stands in `v`.
fn u64_vec_contains(v: &Vec<u64>, x: u64) -> (r: bool)
    ensures
        r == v@.contains(x),
{
    let mut i: usize = 0;
    while i < v.len()
        invariant
            0 <= i <= v@.len(),
            forall|k: int| 0 <= k < i ==> v@[k] != x,
        decreases v@.len() - i,
    {
        if v[i] == x {
            return true;
        }
        i = i + 1;
    }
    false
}

impl TarInterface {
    /// Answers a `readdir` callback. Only offset zero is served; the reply
    /// opens with `.` and `..`. At the mount root it lists every
    /// catalogued archive under a fresh short inode; at an inode known to
    /// belong to an archive it lists that archive's top-level entries, or,
    /// for a long inode, the entries its child list names; anywhere else
    /// it lists nothing. Every listed entry is recorded in the runtime
    /// maps.
    #[verifier::rlimit(100)]
    #[verifier::spinoff_prover]
    pub fn readdir(&mut self, catalog: &mut Catalog, ino: u64, offset: i64) -> (r: Result<
        Vec<DirEntry>,
        CatalogError,
    >)
        ensures
            offset != 0 ==> r is Ok,
            ino == 1 ==> r is Ok,
            r matches Ok(es) ==> ({
                let ds = dirents_view(es@);
                let m0 = db_trees(old(catalog).db);
                if offset != 0 {
                    &&& ds.len() == 0
                    &&& *final(self) == *old(self)
                    &&& *final(catalog) == *old(catalog)
                } else {
                    &&& ds.len() >= 2
                    &&& ds[0] == (DirEntryV { ino, is_dir: true, name: "."@ })
                    &&& ds[1] == (DirEntryV { ino: 1, is_dir: true, name: ".."@ })
                    &&& final(catalog).cache_extract == old(catalog).cache_extract
                    &&& db_default(final(catalog).db) == db_default(old(catalog).db)
                    &&& if ino == 1 {
                        exists|ns: Seq<Seq<u8>>|
                            #![trigger ns.to_set()]
                            {
                                let cats = cats_of(ns);
                                let listed = root_files(cats, root_count(cats));
                                &&& names_enum(m0, ns)
                                &&& ds.skip(2) == dirents_of(listed)
                                &&& final(self).inodes@ == im_after(old(self).inodes@, 1, listed)
                                &&& final(self).itars@ == tm_after_cats(
                                    old(self).itars@,
                                    cats,
                                    root_count(cats),
                                )
                                &&& *final(catalog) == *old(catalog)
                            }
                    } else {
                        match tm_lookup(old(self).itars@, ino) {
                            Some(tarv) => {
                                if ino >= 20000 {
                                    long_listing_post(
                                        ds,
                                        m0,
                                        old(self).inodes@,
                                        old(self).itars@,
                                        final(self).inodes@,
                                        final(self).itars@,
                                        db_trees(final(catalog).db),
                                        ino,
                                        tarv,
                                    )
                                } else {
                                    top_listing_post(
                                        ds,
                                        m0,
                                        old(self).inodes@,
                                        old(self).itars@,
                                        final(self).inodes@,
                                        final(self).itars@,
                                        db_trees(final(catalog).db),
                                        ino,
                                        tarv,
                                    )
                                }
                            },
                            None => ds.len() == 2 && *final(self) == *old(self) && *final(catalog)
                                == *old(catalog),
                        }
                    }
                }
            }),
    {
        if offset != 0 {
            let es: Vec<DirEntry> = Vec::new();
            proof {
                assert(dirents_view(es@) =~= Seq::<DirEntryV>::empty());
            }
            return Ok(es);
        }
        let mut out: Vec<DirEntry> = Vec::new();
        out.push(DirEntry { ino, is_dir: true, name: String::from_str(".") });
        out.push(DirEntry { ino: 1, is_dir: true, name: String::from_str("..") });
        let ghost m0 = db_trees(old(catalog).db);
        proof {
            assert(dirents_view(out@)[0] == (DirEntryV { ino, is_dir: true, name: "."@ }));
            assert(dirents_view(out@)[1] == (DirEntryV { ino: 1, is_dir: true, name: ".."@ }));
        }
        if ino == 1 {
            let cats = catalog.get_catalogs();
            let ghost catsv = filetars_view(cats@);
            let ghost ns = choose|ns: Seq<Seq<u8>>|
                #![trigger ns.to_set()]
                {
                    &&& ns.to_set() == db_trees(catalog.db).dom().insert(default_tree_id())
                    &&& ns.no_duplicates()
                    &&& filetars_view(cats@) == cats_of(ns)
                };
            proof {
                assert(names_enum(m0, ns) && catsv == cats_of(ns));
                assert(dirents_view(out@).skip(2) =~= dirents_of(root_files(catsv, 0)));
            }
            let n: usize = if cats.len() <= 19998 {
                cats.len()
            } else {
                19998
            };
            let mut k: usize = 0;
            while k < n
                invariant
                    0 <= k <= n,
                    n <= cats@.len(),
                    n <= 19998,
                    n == root_count(catsv),
                    catsv == filetars_view(cats@),
                    catsv.len() == cats@.len(),
                    *catalog == *old(catalog),
                    out@.len() == 2 + k,
                    dirents_view(out@)[0] == (DirEntryV { ino, is_dir: true, name: "."@ }),
                    dirents_view(out@)[1] == (DirEntryV { ino: 1, is_dir: true, name: ".."@ }),
                    dirents_view(out@).skip(2) == dirents_of(root_files(catsv, k as int)),
                    self.inodes@ == im_after(old(self).inodes@, 1, root_files(catsv, k as int)),
                    self.itars@ == tm_after_cats(old(self).itars@, catsv, k as int),
                decreases n - k,
            {
                let tar = &cats[k];
                proof {
                    assert(catsv[k as int] == cats@[k as int]@);
                }
                let ino_tar: u64 = 2 + (k as u64);
                let ghost listed_pre = root_files(catsv, k as int);
                let ghost fv = def_file_v(catsv[k as int].file_name, false, ino_tar);
                out.push(DirEntry { ino: ino_tar, is_dir: true, name: tar.file_name.clone() });
                let def = TarInterface::def_file(tar.file_name.clone(), false, ino_tar);
                proof {
                    assert(def@ == fv);
                }
                self.inodes.insert(1, tar.file_name.clone(), ino_tar, def);
                self.itars.insert(ino_tar, tar.clone());
                proof {
                    let listed_post = root_files(catsv, k + 1);
                    assert(listed_post.drop_last() =~= listed_pre);
                    assert(listed_post.last() == fv);
                    assert(dirents_view(out@).skip(2) =~= dirents_of(listed_pre).push(
                        file_dirent(fv),
                    ));
                    assert(dirents_of(listed_post) =~= dirents_of(listed_pre).push(
                        file_dirent(fv),
                    ));
                    assert(im_after(old(self).inodes@, 1, listed_post) == im_insert(
                        im_after(old(self).inodes@, 1, listed_pre),
                        InodeEntryV { parent: 1, name: fv.file_name, ino: ino_tar, file: fv },
                    ));
                    assert(tm_after_cats(old(self).itars@, catsv, k + 1) == tm_insert(
                        tm_after_cats(old(self).itars@, catsv, k as int),
                        TarEntryV { ino: ino_tar, tar: catsv[k as int] },
                    ));
                }
                k = k + 1;
            }
            return Ok(out);
        }
        let tar = match self.itars.get(ino) {
            Some(t) => t,
            None => {
                return Ok(out);
            },
        };
        let files = match catalog.get_catalog(&tar) {
            Ok(fs) => fs,
            Err(e) => {
                return Err(e);
            },
        };
        let ghost fsv = files_view(files@);
        let ghost tarv = tar@;
        if ino >= 20000 {
            let inos = match catalog.get_files_inos(ino) {
                Ok(v) => v,
                Err(e) => {
                    return Err(e);
                },
            };
            proof {
                crate::catalog::lemma_tar_key_is_tar(tarv.file_name);
                crate::catalog::lemma_ino_key_not_tar(ino);
                assert(tree_of_eq_for_inos(m0, tarv.file_name, ino));
                lemma_inos_match_transfer(m0, tarv.file_name, ino, inos@);
                assert(dirents_view(out@).skip(2) =~= dirents_of(
                    filtered_files(fsv.subrange(0, 0), inos@),
                ));
            }
            let mut i: usize = 0;
            while i < files.len()
                invariant
                    0 <= i <= files@.len(),
                    fsv == files_view(files@),
                    fsv.len() == files@.len(),
                    tar@ == tarv,
                    out@.len() >= 2,
                    dirents_view(out@)[0] == (DirEntryV { ino, is_dir: true, name: "."@ }),
                    dirents_view(out@)[1] == (DirEntryV { ino: 1, is_dir: true, name: ".."@ }),
                    dirents_view(out@).skip(2) == dirents_of(
                        filtered_files(fsv.subrange(0, i as int), inos@),
                    ),
                    self.inodes@ == im_after(
                        old(self).inodes@,
                        ino,
                        filtered_files(fsv.subrange(0, i as int), inos@),
                    ),
                    self.itars@ == tm_after_files(
                        old(self).itars@,
                        filtered_files(fsv.subrange(0, i as int), inos@),
                        tarv,
                    ),
                decreases files@.len() - i,
            {
                proof {
                    assert(fsv[i as int] == files@[i as int]@);
                    assert(fsv.subrange(0, i + 1).drop_last() =~= fsv.subrange(0, i as int));
                }
                let f = &files[i];
                if u64_vec_contains(&inos, f.ino) {
                    let ghost listed_pre = filtered_files(fsv.subrange(0, i as int), inos@);
                    out.push(
                        DirEntry { ino: f.ino, is_dir: !f.is_file, name: f.file_name.clone() },
                    );
                    self.inodes.insert(ino, f.file_name.clone(), f.ino, f.clone());
                    self.itars.insert(f.ino, tar.clone());
                    proof {
                        let listed_post = filtered_files(fsv.subrange(0, i + 1), inos@);
                        assert(listed_post =~= listed_pre.push(fsv[i as int]));
                        assert(dirents_view(out@).skip(2) =~= dirents_of(listed_pre).push(
                            file_dirent(fsv[i as int]),
                        ));
                        assert(dirents_of(listed_post) =~= dirents_of(listed_pre).push(
                            file_dirent(fsv[i as int]),
                        ));
                        assert(listed_post.drop_last() =~= listed_pre);
                        assert(im_after(old(self).inodes@, ino, listed_post) == im_insert(
                            im_after(old(self).inodes@, ino, listed_pre),
                            InodeEntryV {
                                parent: ino,
                                name: fsv[i as int].file_name,
                                ino: fsv[i as int].ino,
                                file: fsv[i as int],
                            },
                        ));
                        assert(tm_after_files(old(self).itars@, listed_post, tarv) == tm_insert(
                            tm_after_files(old(self).itars@, listed_pre, tarv),
                            TarEntryV { ino: fsv[i as int].ino, tar: tarv },
                        ));
                    }
                } else {
                    proof {
                        assert(filtered_files(fsv.subrange(0, i + 1), inos@) =~= filtered_files(
                            fsv.subrange(0, i as int),
                            inos@,
                        ));
                    }
                }
                i = i + 1;
            }
            proof {
                assert(fsv.subrange(0, fsv.len() as int) =~= fsv);
                assert(entries_match(m0, tarv.file_name, fsv));
                assert(inos_match(m0, ino, inos@));
                let ds = dirents_view(out@);
                let listed = filtered_files(fsv, inos@);
                assert(ds.skip(2) == dirents_of(listed));
                assert(self.inodes@ == im_after(old(self).inodes@, ino, listed));
                assert(self.itars@ == tm_after_files(old(self).itars@, listed, tarv));
                assert(db_trees(catalog.db) == with_tree(
                    with_tree(m0, tar_key(tarv.file_name)),
                    ino_key(ino),
                ));
                assert(tm_lookup(old(self).itars@, ino) == Some(tarv));
                assert(long_listing_post(
                    ds,
                    m0,
                    old(self).inodes@,
                    old(self).itars@,
                    self.inodes@,
                    self.itars@,
                    db_trees(catalog.db),
                    ino,
                    tarv,
                ));
            }
            return Ok(out);
        }
        proof {
            assert(entries_match(m0, tarv.file_name, fsv));
            assert(dirents_view(out@).skip(2) =~= dirents_of(
                level1_files(fsv.subrange(0, 0)),
            ));
        }
        let mut i: usize = 0;
        while i < files.len()
            invariant
                0 <= i <= files@.len(),
                fsv == files_view(files@),
                fsv.len() == files@.len(),
                tar@ == tarv,
                out@.len() >= 2,
                dirents_view(out@)[0] == (DirEntryV { ino, is_dir: true, name: "."@ }),
                dirents_view(out@)[1] == (DirEntryV { ino: 1, is_dir: true, name: ".."@ }),
                dirents_view(out@).skip(2) == dirents_of(level1_files(fsv.subrange(0, i as int))),
                self.inodes@ == im_after(
                    old(self).inodes@,
                    ino,
                    level1_files(fsv.subrange(0, i as int)),
                ),
                self.itars@ == tm_after_files(
                    old(self).itars@,
                    level1_files(fsv.subrange(0, i as int)),
                    tarv,
                ),
            decreases files@.len() - i,
        {
            proof {
                assert(fsv[i as int] == files@[i as int]@);
                assert(fsv.subrange(0, i + 1).drop_last() =~= fsv.subrange(0, i as int));
            }
            let f = &files[i];
            if f.level_path == 1 {
                let ghost listed_pre = level1_files(fsv.subrange(0, i as int));
                out.push(DirEntry { ino: f.ino, is_dir: !f.is_file, name: f.file_name.clone() });
                self.inodes.insert(ino, f.file_name.clone(), f.ino, f.clone());
                self.itars.insert(f.ino, tar.clone());
                proof {
                    let listed_post = level1_files(fsv.subrange(0, i + 1));
                    assert(listed_post =~= listed_pre.push(fsv[i as int]));
                    assert(dirents_view(out@).skip(2) =~= dirents_of(listed_pre).push(
                        file_dirent(fsv[i as int]),
                    ));
                    assert(dirents_of(listed_post) =~= dirents_of(listed_pre).push(
                        file_dirent(fsv[i as int]),
                    ));
                    assert(listed_post.drop_last() =~= listed_pre);
                    assert(im_after(old(self).inodes@, ino, listed_post) == im_insert(
                        im_after(old(self).inodes@, ino, listed_pre),
                        InodeEntryV {
                            parent: ino,
                            name: fsv[i as int].file_name,
                            ino: fsv[i as int].ino,
                            file: fsv[i as int],
                        },
                    ));
                    assert(tm_after_files(old(self).itars@, listed_post, tarv) == tm_insert(
                        tm_after_files(old(self).itars@, listed_pre, tarv),
                        TarEntryV { ino: fsv[i as int].ino, tar: tarv },
                    ));
                }
            } else {
                proof {
                    assert(level1_files(fsv.subrange(0, i + 1)) =~= level1_files(
                        fsv.subrange(0, i as int),
                    ));
                }
            }
            i = i + 1;
        }
        proof {
            assert(fsv.subrange(0, fsv.len() as int) =~= fsv);
            let ds = dirents_view(out@);
            let listed = level1_files(fsv);
            assert(ds.skip(2) == dirents_of(listed));
            assert(self.inodes@ == im_after(old(self).inodes@, ino, listed));
            assert(self.itars@ == tm_after_files(old(self).itars@, listed, tarv));
            assert(db_trees(catalog.db) == with_tree(m0, tar_key(tarv.file_name)));
            assert(tm_lookup(old(self).itars@, ino) == Some(tarv));
            assert(top_listing_post(
                ds,
                m0,
                old(self).inodes@,
                old(self).itars@,
                self.inodes@,
                self.itars@,
                db_trees(catalog.db),
                ino,
                tarv,
            ));
        }
        Ok(out)
    }
}

/// The child subtree of `ino` is untouched by opening the archive's own
/// subtree.
pub open spec fn tree_of_eq_for_inos(
    m0: Map<Seq<u8>, Map<Seq<u8>, Seq<u8>>>,
    name: Seq<char>,
    ino: u64,
) -> bool {
    crate::store::tree_of(with_tree(m0, tar_key(name)), ino_key(ino)) == crate::store::tree_of(
        m0,
        ino_key(ino),
    )
}

/// A child-inode enumeration read after the archive subtree was opened is
/// also one of the store as it stood before.
proof fn lemma_inos_match_transfer(
    m0: Map<Seq<u8>, Map<Seq<u8>, Seq<u8>>>,
    name: Seq<char>,
    ino: u64,
    vs: Seq<u64>,
)
    requires
        inos_match(with_tree(m0, tar_key(name)), ino, vs),
        tar_key(name) != ino_key(ino),
    ensures
        inos_match(m0, ino, vs),
{
    let m1 = with_tree(m0, tar_key(name));
    assert(crate::store::tree_of(m1, ino_key(ino)) == crate::store::tree_of(m0, ino_key(ino)));
    let ks = choose|ks: Seq<Seq<u8>>|
        #![trigger ks.to_set()]
        {
            let t = crate::store::tree_of(m1, ino_key(ino));
            &&& ks.to_set() == t.dom()
            &&& ks.no_duplicates()
            &&& forall|i: int, j: int|
                0 <= i < j < ks.len() ==> crate::store::lex_lt(ks[i], ks[j])
            &&& vs.len() == ks.len()
            &&& forall|i: int| 0 <= i < ks.len() ==> Some(#[trigger] vs[i]) == crate::numbers::spec_parse_u64(t[ks[i]])
        };
    assert(ks.to_set() == crate::store::tree_of(m0, ino_key(ino)).dom());
}

/// The window of a member's bytes that a `read` callback returns: from
/// `offset`, at most `size` bytes, clipped to the member's length; empty
/// when the offset is at or past the end.
pub open spec fn spec_read_window(data: Seq<u8>, offset: u64, size: u32) -> Seq<u8> {
    if offset >= data.len() {
        Seq::empty()
    } else if offset + size <= data.len() {
        data.subrange(offset as int, offset + size)
    } else {
        data.subrange(offset as int, data.len() as int)
    }
}

/// Cuts the requested window out of a member's bytes.
pub fn read_window(data: &[u8], offset: u64, size: u32) -> (r: Vec<u8>)
    ensures
        r@ == spec_read_window(data@, offset, size),
{
    let len = data.len();
    if offset >= len as u64 {
        let r: Vec<u8> = Vec::new();
        proof {
            assert(r@ =~= spec_read_window(data@, offset, size));
        }
        return r;
    }
    let off = offset as usize;
    let end = if (size as u64) <= (len as u64) - offset {
        off + (size as usize)
    } else {
        len
    };
    vstd::slice::slice_to_vec(vstd::slice::slice_subrange(data, off, end))
}

} // verus!
