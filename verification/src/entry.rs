//! The records the catalog stores and hands out: one indexed archive member,
//! and one archive file.

use vstd::prelude::*;
use crate::strings::{leaf_of, spec_leaf};

verus! {

/// The mathematical value of a [`File`].
pub ghost struct FileV {
    pub size: u64,
    pub mtime: u64,
    pub file_name: Seq<char>,
    pub full_path: Seq<char>,
    pub is_file: bool,
    pub level_path: usize,
    pub ino: u64,
}

/// One member of one archive, as indexed by the catalog: its full path inside
/// the archive, its leaf name, modification time, uncompressed size, whether
/// it is a regular file, its depth, and its virtual inode.
pub struct File {
    pub size: u64,
    pub mtime: u64,
    pub file_name: String,
    pub full_path: String,
    pub is_file: bool,
    pub level_path: usize,
    pub ino: u64,
}

impl View for File {
    type V = FileV;

    open spec fn view(&self) -> FileV {
        FileV {
            size: self.size,
            mtime: self.mtime,
            file_name: self.file_name@,
            full_path: self.full_path@,
            is_file: self.is_file,
            level_path: self.level_path,
            ino: self.ino,
        }
    }
}

impl Clone for File {
    fn clone(&self) -> (r: Self)
        ensures
            r@ == self@,
    {
        File {
            size: self.size,
            mtime: self.mtime,
            file_name: self.file_name.clone(),
            full_path: self.full_path.clone(),
            is_file: self.is_file,
            level_path: self.level_path,
            ino: self.ino,
        }
    }
}

/// The mathematical value of a [`FileTar`].
pub ghost struct FileTarV {
    pub file_name: Seq<char>,
    pub full_path: Seq<char>,
}

/// One catalogued archive: its leaf file name (the stable catalog key) and
/// its full on-disk path.
pub struct FileTar {
    pub file_name: String,
    pub full_path: String,
}

impl View for FileTar {
    type V = FileTarV;

    open spec fn view(&self) -> FileTarV {
        FileTarV { file_name: self.file_name@, full_path: self.full_path@ }
    }
}

impl Clone for FileTar {
    fn clone(&self) -> (r: Self)
        ensures
            r@ == self@,
    {
        FileTar { file_name: self.file_name.clone(), full_path: self.full_path.clone() }
    }
}

impl FileTar {
    /// Builds the descriptor of an archive from its on-disk path.
    pub fn from_path(path: &str) -> (r: FileTar)
        requires
            spec_leaf(path@) is Some,
        ensures
            r@.full_path == path@,
            Some(r@.file_name) == spec_leaf(path@),
    {
        let file_name = FileTar::path_to_string(path, false);
        let full_path = FileTar::path_to_string(path, true);
        FileTar { file_name, full_path }
    }

    /// Renders a path as a string: the whole path, or only its leaf name.
    pub fn path_to_string(path: &str, full: bool) -> (r: String)
        requires
            !full ==> spec_leaf(path@) is Some,
        ensures
            full ==> r@ == path@,
            !full ==> Some(r@) == spec_leaf(path@),
    {
        if full {
            path.to_owned()
        } else {
            leaf_of(path).unwrap()
        }
    }
}

} // verus!
