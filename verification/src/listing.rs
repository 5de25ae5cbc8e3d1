//! Decoding a gzipped tape archive held in memory into its member entries.
//!
//! The archive reader is the one place the catalog meets the archive codec:
//! a byte buffer goes in, a sequence of members comes out, each a header of
//! plain values and the member's body. What the decoder yields is a function
//! of the bytes alone, so it carries the name [`archive_listing`], and
//! everything downstream is verified against that name.

use vstd::prelude::*;

verus! {

/// The mathematical value of a [`RawEntry`].
pub ghost struct RawEntryV {
    pub path: Seq<char>,
    pub is_file: bool,
    pub is_dir: bool,
    pub size: u64,
    pub mtime: u64,
    pub data: Seq<u8>,
}

/// One member of an archive as the archive codec yields it: its path inside
/// the archive, its kind, the header's size and modification time, and its
/// body bytes.
pub struct RawEntry {
    pub path: String,
    pub is_file: bool,
    pub is_dir: bool,
    pub size: u64,
    pub mtime: u64,
    pub data: Vec<u8>,
}

impl View for RawEntry {
    type V = RawEntryV;

    open spec fn view(&self) -> RawEntryV {
        RawEntryV {
            path: self.path@,
            is_file: self.is_file,
            is_dir: self.is_dir,
            size: self.size,
            mtime: self.mtime,
            data: self.data@,
        }
    }
}

/// The views of a sequence of raw entries.
pub open spec fn entries_view(es: Seq<RawEntry>) -> Seq<RawEntryV> {
    es.map(|i: int, e: RawEntry| e@)
}

/// What decoding a gzipped tape archive yields: its members in declaration
/// order, or nothing when the bytes are malformed. The result depends on
/// the bytes alone.
pub uninterp spec fn archive_listing(data: Seq<u8>) -> Option<Seq<RawEntryV>>;

/// Decodes an in-memory `.tar.gz` buffer into its members.
///
/// Relies on `flate2::read::GzDecoder` and `tar::Archive`: decompression and
/// header parsing read only the given bytes, so the outcome is the same on
/// every call with the same buffer.
#[verifier::external_body]
pub fn decode_archive(data: &[u8]) -> (r: Option<Vec<RawEntry>>)
    ensures
        match r {
            Some(es) => archive_listing(data@) == Some(entries_view(es@)),
            None => archive_listing(data@) is None,
        },
{
    let mut out: Vec<RawEntry> = Vec::new();
    let mut ar = tar::Archive::new(flate2::read::GzDecoder::new(data));
    for ent in ar.entries().ok()? {
        let mut ent = ent.ok()?;
        let path = ent.path().ok()?.to_string_lossy().into_owned();
        let h = ent.header().clone();
        let mut data = Vec::new();
        std::io::Read::read_to_end(&mut ent, &mut data).ok()?;
        let k = h.entry_type();
        out.push(RawEntry { path, is_file: k.is_file(), is_dir: k.is_dir(), size: h.size().ok()?, mtime: h.mtime().ok()?, data });
    }
    Some(out)
}

} // verus!
