//! End-to-end behavior of the catalog, the filesystem adapter and the
//! query surface, over in-memory archives and a temporary store.

use blitze::catalog::{Catalog, CatalogError};
use blitze::entry::FileTar;
use blitze::request::{Request, Response};
use blitze::vfs::{read_window, TarInterface};

/// Builds a gzipped tape archive in memory. Each item is a path, an
/// optional body (directories carry none), and a modification time.
fn build_archive(items: &[(&str, Option<&[u8]>, u64)]) -> Vec<u8> {
    let mut builder = tar::Builder::new(Vec::new());
    for (path, body, mtime) in items {
        let mut h = tar::Header::new_gnu();
        h.set_mtime(*mtime);
        h.set_mode(0o644);
        match body {
            Some(b) => {
                h.set_entry_type(tar::EntryType::Regular);
                h.set_size(b.len() as u64);
                builder.append_data(&mut h, path, *b).unwrap();
            }
            None => {
                h.set_entry_type(tar::EntryType::Directory);
                h.set_size(0);
                builder.append_data(&mut h, path, &[][..]).unwrap();
            }
        }
    }
    let data = builder.into_inner().unwrap();
    let mut enc = flate2::write::GzEncoder::new(Vec::new(), flate2::Compression::default());
    std::io::Write::write_all(&mut enc, &data).unwrap();
    enc.finish().unwrap()
}

fn sample_archive() -> Vec<u8> {
    build_archive(&[
        ("x/", None, 500),
        ("x/y.txt", Some(b"hello"), 1000),
        ("z.txt", Some(b"hi"), 2000),
    ])
}

fn fresh_catalog() -> Catalog {
    Catalog::new_temporary(String::from("/tmp")).unwrap()
}

#[test]
fn index_then_browse_and_read() {
    let mut cat = fresh_catalog();
    let data = sample_archive();
    let ftar = cat
        .catalog_file("in/a.tar.gz", true, data.as_slice())
        .unwrap()
        .expect("the archive must be indexed");
    assert_eq!(ftar.file_name, "a.tar.gz");
    assert_eq!(ftar.full_path, "in/a.tar.gz");

    let cats = cat.get_catalogs();
    assert_eq!(cats.len(), 1);
    assert_eq!(cats[0].file_name, "a.tar.gz");
    assert!(cat.is_indexed(&ftar).unwrap());

    let entries = cat.get_catalog(&ftar).unwrap();
    assert_eq!(entries.len(), 3);
    for e in &entries {
        assert!(e.ino >= 20000);
    }
    // Entries come back in ascending byte order of their path keys.
    let listed: Vec<&str> = entries.iter().map(|e| e.full_path.as_str()).collect();
    assert_eq!(listed, vec!["x/", "x/y.txt", "z.txt"]);
    let y = entries.iter().find(|e| e.full_path == "x/y.txt").unwrap();
    assert!(y.is_file);
    assert_eq!(y.size, 5);
    assert_eq!(y.mtime, 1000);
    assert_eq!(y.level_path, 2);
    assert_eq!(y.file_name, "y.txt");
    let x = entries.iter().find(|e| e.full_path == "x/").unwrap();
    assert!(!x.is_file);
    assert_eq!(x.level_path, 1);
    let z = entries.iter().find(|e| e.full_path == "z.txt").unwrap();
    assert_eq!(z.level_path, 1);
    assert_eq!(z.mtime, 2000);

    // The children of the directory `x/` are exactly its one file.
    let kids = cat.get_files_inos(x.ino).unwrap();
    assert_eq!(kids, vec![y.ino]);

    // Browse through the adapter: root, archive, directory.
    let mut vfs = TarInterface::new();
    let root = vfs.readdir(&mut cat, 1, 0).unwrap();
    let names: Vec<&str> = root.iter().map(|d| d.name.as_str()).collect();
    assert_eq!(names, vec![".", "..", "a.tar.gz"]);
    assert!(root[2].is_dir);
    assert_eq!(root[2].ino, 2);

    let top = vfs.readdir(&mut cat, 2, 0).unwrap();
    let mut top_names: Vec<&str> = top[2..].iter().map(|d| d.name.as_str()).collect();
    top_names.sort();
    assert_eq!(top_names, vec!["x", "z.txt"]);

    let x_listed = top[2..].iter().find(|d| d.name == "x").unwrap();
    assert!(x_listed.is_dir);
    let inside = vfs.readdir(&mut cat, x_listed.ino, 0).unwrap();
    let inside_names: Vec<&str> = inside[2..].iter().map(|d| d.name.as_str()).collect();
    assert_eq!(inside_names, vec!["y.txt"]);
    assert!(!inside[2].is_dir);

    // Read the file through the extraction path.
    let (tar_of_y, y_entry) = vfs.read_target(inside[2].ino).unwrap();
    assert_eq!(tar_of_y.file_name, "a.tar.gz");
    let body = cat.extract_file(&tar_of_y, &y_entry, data.as_slice()).unwrap();
    assert_eq!(body, b"hello");
    assert_eq!(read_window(body.as_slice(), 0, 10), b"hello");
    assert_eq!(read_window(body.as_slice(), 2, 2), b"ll");
}

#[test]
fn reindex_is_skipped_and_keeps_entries() {
    let mut cat = fresh_catalog();
    let data = sample_archive();
    let ftar = cat
        .catalog_file("a.tar.gz", true, data.as_slice())
        .unwrap()
        .unwrap();
    let before: Vec<(String, u64)> = cat
        .get_catalog(&ftar)
        .unwrap()
        .iter()
        .map(|e| (e.full_path.clone(), e.ino))
        .collect();

    let second = cat.catalog_file("a.tar.gz", true, data.as_slice()).unwrap();
    assert!(second.is_none());

    let after: Vec<(String, u64)> = cat
        .get_catalog(&ftar)
        .unwrap()
        .iter()
        .map(|e| (e.full_path.clone(), e.ino))
        .collect();
    assert_eq!(before, after);
}

#[test]
fn burn_then_recatalog_gives_fresh_inodes() {
    let mut cat = fresh_catalog();
    let data = sample_archive();
    let ftar = cat
        .catalog_file("a.tar.gz", true, data.as_slice())
        .unwrap()
        .unwrap();
    let old_max = cat
        .get_catalog(&ftar)
        .unwrap()
        .iter()
        .map(|e| e.ino)
        .max()
        .unwrap();

    cat.burn_catalog(&ftar).unwrap();
    assert!(cat.get_catalogs().is_empty());
    assert!(!cat.is_indexed(&ftar).unwrap());
    assert!(cat.get_catalog(&ftar).unwrap().is_empty());

    let again = cat
        .catalog_file("a.tar.gz", true, data.as_slice())
        .unwrap()
        .expect("re-cataloguing must succeed");
    let new_entries = cat.get_catalog(&again).unwrap();
    assert_eq!(new_entries.len(), 3);
    for e in &new_entries {
        assert!(e.ino > old_max);
    }
}

#[test]
fn inodes_are_unique_across_archives() {
    let mut cat = fresh_catalog();
    let first = sample_archive();
    let second = build_archive(&[("p/", None, 1), ("p/q.txt", Some(b"q"), 2)]);
    let fa = cat.catalog_file("a.tar.gz", true, first.as_slice()).unwrap().unwrap();
    let fb = cat.catalog_file("b.tar.gz", true, second.as_slice()).unwrap().unwrap();
    let mut inos: Vec<u64> = cat.get_catalog(&fa).unwrap().iter().map(|e| e.ino).collect();
    inos.extend(cat.get_catalog(&fb).unwrap().iter().map(|e| e.ino));
    let n = inos.len();
    assert_eq!(n, 5);
    inos.sort();
    inos.dedup();
    assert_eq!(inos.len(), n);
}

#[test]
fn non_archives_are_skipped() {
    let mut cat = fresh_catalog();
    // Wrong extension: silently skipped, whatever the bytes hold.
    let r = cat.catalog_file("notes.txt", true, b"some text").unwrap();
    assert!(r.is_none());
    // Not a regular file: silently skipped.
    let r = cat.catalog_file("a.tar.gz", false, b"").unwrap();
    assert!(r.is_none());
    assert!(cat.get_catalogs().is_empty());
}

#[test]
fn malformed_archive_is_rejected_without_writes() {
    let mut cat = fresh_catalog();
    let r = cat.catalog_file("a.tar.gz", true, b"this is not gzip data");
    assert!(matches!(r, Err(CatalogError::ArchiveMalformed)));
    // Probing for the archive opened its (empty) subtree, so the name is
    // listed, but nothing was indexed and no record was written.
    let ftar = FileTar::from_path("a.tar.gz");
    assert!(!cat.is_indexed(&ftar).unwrap());
    assert!(cat.get_catalog(&ftar).unwrap().is_empty());
}

#[test]
fn search_reports_matching_entries() {
    let mut cat = fresh_catalog();
    let data = build_archive(&[("report.pdf", Some(b"%PDF"), 10)]);
    cat.catalog_file("a.tar.gz", true, data.as_slice())
        .unwrap()
        .unwrap();
    match Request::handle(&mut cat, "/search/report\n").unwrap() {
        Response::Search(lines) => {
            assert_eq!(lines, vec![String::from("a.tar.gz:report.pdf\n")]);
        }
        _ => panic!("a search command must answer with search lines"),
    }
    match Request::handle(&mut cat, "/search/nothinghere\n").unwrap() {
        Response::Search(lines) => assert!(lines.is_empty()),
        _ => panic!("a search command must answer with search lines"),
    }
}

#[test]
fn download_finds_the_entry() {
    let mut cat = fresh_catalog();
    let data = sample_archive();
    cat.catalog_file("a.tar.gz", true, data.as_slice())
        .unwrap()
        .unwrap();
    match Request::handle(&mut cat, "/download/a.tar.gz:x/y.txt\n").unwrap() {
        Response::Download(t, f) => {
            assert_eq!(t.file_name, "a.tar.gz");
            assert_eq!(f.full_path, "x/y.txt");
            let body = cat.extract_file(&t, &f, data.as_slice()).unwrap();
            assert_eq!(body, b"hello");
        }
        _ => panic!("a known member must be found"),
    }
    match Request::handle(&mut cat, "/download/a.tar.gz:missing\n").unwrap() {
        Response::NotFound => {}
        _ => panic!("an unknown member answers with silence"),
    }
}

#[test]
fn invalid_commands_are_refused() {
    let mut cat = fresh_catalog();
    assert!(matches!(
        Request::handle(&mut cat, "/list/everything\n").unwrap(),
        Response::Invalid
    ));
    assert!(matches!(
        Request::handle(&mut cat, "/search/   \n").unwrap(),
        Response::Invalid
    ));
    assert!(matches!(
        Request::handle(&mut cat, "/download/no-colon-here\n").unwrap(),
        Response::Invalid
    ));
}

#[test]
fn readdir_on_empty_store_lists_only_dots() {
    let mut cat = fresh_catalog();
    let mut vfs = TarInterface::new();
    let root = vfs.readdir(&mut cat, 1, 0).unwrap();
    let names: Vec<&str> = root.iter().map(|d| d.name.as_str()).collect();
    assert_eq!(names, vec![".", ".."]);
    // Non-zero offsets get an empty reply.
    assert!(vfs.readdir(&mut cat, 1, 7).unwrap().is_empty());
    // An unknown inode lists only the dot entries.
    let other = vfs.readdir(&mut cat, 4242, 0).unwrap();
    assert_eq!(other.len(), 2);
}

#[test]
fn readdir_archive_root_lists_exactly_depth_one() {
    let mut cat = fresh_catalog();
    let data = build_archive(&[
        ("x/", None, 1),
        ("x/deep.txt", Some(b"d"), 2),
        ("x/y/", None, 3),
        ("x/y/deeper.txt", Some(b"e"), 4),
        ("top.txt", Some(b"t"), 5),
    ]);
    cat.catalog_file("a.tar.gz", true, data.as_slice())
        .unwrap()
        .unwrap();
    let mut vfs = TarInterface::new();
    vfs.readdir(&mut cat, 1, 0).unwrap();
    let top = vfs.readdir(&mut cat, 2, 0).unwrap();
    let mut names: Vec<&str> = top[2..].iter().map(|d| d.name.as_str()).collect();
    names.sort();
    assert_eq!(names, vec!["top.txt", "x"]);
}

#[test]
fn extract_is_deterministic_and_misses_cleanly() {
    let cat = fresh_catalog();
    let data = sample_archive();
    let ftar = FileTar::from_path("a.tar.gz");
    let y = blitze::entry::File {
        size: 5,
        mtime: 1000,
        file_name: String::from("y.txt"),
        full_path: String::from("x/y.txt"),
        is_file: true,
        level_path: 2,
        ino: 20002,
    };
    let once = cat.extract_file(&ftar, &y, data.as_slice()).unwrap();
    let twice = cat.extract_file(&ftar, &y, data.as_slice()).unwrap();
    assert_eq!(once, twice);
    assert_eq!(once, b"hello");

    let missing = blitze::entry::File {
        full_path: String::from("absent"),
        ..y
    };
    assert!(cat.extract_file(&ftar, &missing, data.as_slice()).is_none());
}

#[test]
fn cache_file_name_flattens_the_member_path() {
    let cat = fresh_catalog();
    let ftar = FileTar::from_path("a.tar.gz");
    let y = blitze::entry::File {
        size: 5,
        mtime: 1000,
        file_name: String::from("y.txt"),
        full_path: String::from("x/y.txt"),
        is_file: true,
        level_path: 2,
        ino: 20002,
    };
    assert_eq!(cat.cached_file_name(&ftar, &y), "/tmp/a.tar.gz_xy.txt");
}

#[test]
fn lookup_and_getattr_follow_the_runtime_map() {
    let mut cat = fresh_catalog();
    let data = sample_archive();
    cat.catalog_file("a.tar.gz", true, data.as_slice())
        .unwrap()
        .unwrap();
    let mut vfs = TarInterface::new();
    vfs.readdir(&mut cat, 1, 0).unwrap();
    let top = vfs.readdir(&mut cat, 2, 0).unwrap();
    let z = top[2..].iter().find(|d| d.name == "z.txt").unwrap();

    let attr = vfs.lookup(2, "z.txt");
    assert_eq!(attr.ino, z.ino);
    assert_eq!(attr.size, 2);
    assert_eq!(attr.mtime, 2000);
    assert!(!attr.is_dir);
    assert_eq!(attr.perm, 0o444);
    assert_eq!(attr.nlink, 2);

    // A lookup miss answers with a synthesized record for the parent.
    let miss = vfs.lookup(2, "no-such-name");
    assert_eq!(miss.ino, 2);
    assert!(miss.is_dir);
    assert_eq!(miss.size, 0);

    let root_attr = vfs.getattr(1).unwrap();
    assert!(root_attr.is_dir);
    assert_eq!(root_attr.ino, 1);
    let z_attr = vfs.getattr(z.ino).unwrap();
    assert_eq!(z_attr.size, 2);
    assert!(vfs.getattr(999_999).is_none());
}

#[test]
fn read_window_clips_to_the_member() {
    assert_eq!(read_window(b"hello", 2, 2), b"ll");
    assert_eq!(read_window(b"hello", 0, 10), b"hello");
    assert_eq!(read_window(b"hello", 4, 10), b"o");
    assert_eq!(read_window(b"hello", 5, 1), b"");
    assert_eq!(read_window(b"hello", 50, 1), b"");
    assert_eq!(read_window(b"", 0, 1), b"");
}
