//! The line-protocol query surface over the catalog.
//!
//! One line comes in; either it searches every archive for entries whose
//! leaf name contains the query, or it names one archive member to
//! download, or it is invalid. The socket work around this — reading the
//! line, writing the result lines, streaming the extracted member — stays
//! with the caller.

use vstd::prelude::*;
use crate::catalog::{
    cats_of, entries_match, files_view, filetars_view, tar_key, Catalog, CatalogError,
};
use crate::entry::{File, FileTar, FileTarV, FileV};
use crate::store::{db_default, db_trees, tree_of, with_tree};
use crate::strings::{is_prefix, spec_contains, str_contains, str_eq, str_starts_with};
use crate::vfs::names_enum;

verus! {

/// A whitespace character of the line protocol.
pub open spec fn is_ws(c: char) -> bool {
    c == ' ' || c == '\t' || c == '\r' || c == '\n'
}

/// `s` without trailing whitespace.
pub open spec fn trim_end_ws(s: Seq<char>) -> Seq<char>
    decreases s.len(),
{
    if s.len() > 0 && is_ws(s.last()) {
        trim_end_ws(s.drop_last())
    } else {
        s
    }
}

/// `s` without leading whitespace.
pub open spec fn trim_start_ws(s: Seq<char>) -> Seq<char>
    decreases s.len(),
{
    if s.len() > 0 && is_ws(s[0]) {
        trim_start_ws(s.drop_first())
    } else {
        s
    }
}

/// `s` without leading and trailing whitespace.
pub open spec fn trim_ws(s: Seq<char>) -> Seq<char> {
    trim_start_ws(trim_end_ws(s))
}

/// The first position of `c` in `s` at or after `i`.
pub open spec fn find_char(s: Seq<char>, c: char, i: int) -> int
    decreases s.len() - i when 0 <= i <= s.len()
{
    if i >= s.len() {
        -1
    } else if s[i] == c {
        i
    } else {
        find_char(s, c, i + 1)
    }
}

/// The mathematical value of a parsed command.
pub ghost enum CommandV {
    Search(Seq<char>),
    Download(Seq<char>, Seq<char>),
    Invalid,
}

/// What one protocol line commands: a search with its trimmed, non-empty
/// query; a download with the archive leaf name before the first `:` and
/// the member path after it; or nothing valid.
pub open spec fn spec_command(c: Seq<char>) -> CommandV {
    if is_prefix(c, "/search/"@) {
        let q = trim_ws(c.skip("/search/"@.len() as int));
        if q.len() == 0 {
            CommandV::Invalid
        } else {
            CommandV::Search(q)
        }
    } else if is_prefix(c, "/download/"@) && spec_contains(c, ":"@) {
        let d = trim_ws(c.skip("/download/"@.len() as int));
        let p = find_char(d, ':', 0);
        if d.len() == 0 || p < 0 {
            CommandV::Invalid
        } else {
            CommandV::Download(d.subrange(0, p), d.subrange(p + 1, d.len() as int))
        }
    } else {
        CommandV::Invalid
    }
}

/// One line of a search reply.
pub open spec fn line_of(name: Seq<char>, path: Seq<char>) -> Seq<char> {
    name + ":"@ + path + "\n"@
}

/// The reply lines one archive contributes: one line per entry whose leaf
/// name contains the query.
pub open spec fn search_lines_of(name: Seq<char>, fs: Seq<FileV>, q: Seq<char>) -> Seq<Seq<char>>
    decreases fs.len(),
{
    if fs.len() == 0 {
        Seq::empty()
    } else {
        search_lines_of(name, fs.drop_last(), q) + if spec_contains(fs.last().file_name, q) {
            seq![line_of(name, fs.last().full_path)]
        } else {
            Seq::empty()
        }
    }
}

/// The reply lines of a whole search, archive by archive.
pub open spec fn search_fold(cats: Seq<FileTarV>, fss: Seq<Seq<FileV>>, q: Seq<char>) -> Seq<
    Seq<char>,
>
    decreases cats.len(),
{
    if cats.len() == 0 || cats.len() != fss.len() {
        Seq::empty()
    } else {
        search_fold(cats.drop_last(), fss.drop_last(), q) + search_lines_of(
            cats.last().file_name,
            fss.last(),
            q,
        )
    }
}

/// The views of the reply lines.
pub open spec fn lines_view(s: Seq<String>) -> Seq<Seq<char>> {
    s.map(|i: int, v: String| v@)
}

/// A download that finds nothing: no catalogued archive carries the leaf
/// name, or the first one that does holds no entry with the member path —
/// the one archive the handler searches, as the catalog lists them.
pub open spec fn download_miss(
    m0: Map<Seq<u8>, Map<Seq<u8>, Seq<u8>>>,
    ns: Seq<Seq<u8>>,
    tn: Seq<char>,
    fp: Seq<char>,
) -> bool {
    ||| forall|k: int|
        0 <= k < cats_of(ns).len() ==> (#[trigger] cats_of(ns)[k]).file_name != tn
    ||| exists|k: int, fs: Seq<FileV>|
        #![trigger cats_of(ns)[k], entries_match(m0, tn, fs)]
        {
            &&& 0 <= k < cats_of(ns).len()
            &&& cats_of(ns)[k].file_name == tn
            &&& forall|k2: int|
                0 <= k2 < k ==> (#[trigger] cats_of(ns)[k2]).file_name != tn
            &&& entries_match(m0, tn, fs)
            &&& forall|q: int| 0 <= q < fs.len() ==> (#[trigger] fs[q]).full_path != fp
        }
}

/// What a handled command answers with.
pub enum Response {
    /// The reply lines of a search.
    Search(Vec<String>),
    /// The archive and entry a download names.
    Download(FileTar, File),
    /// A download whose archive or entry is not catalogued; answered with
    /// silence.
    NotFound,
    /// An unrecognized or empty command.
    Invalid,
}

/// Whether the character at position `i` is protocol whitespace.
fn ws_at(s: &str, i: usize) -> (r: bool)
    requires
        i < s@.len(),
    ensures
        r == is_ws(s@[i as int]),
{
    let c = s.get_char(i);
    c == ' ' || c == '\t' || c == '\r' || c == '\n'
}

/// Trims protocol whitespace from both ends of a line.
pub fn trim_ws_exec(s: &str) -> (r: String)
    ensures
        r@ == trim_ws(s@),
{
    let l = s.unicode_len();
    let mut e: usize = l;
    proof {
        assert(s@.subrange(0, l as int) =~= s@);
    }
    while e > 0 && ws_at(s, e - 1)
        invariant
            0 <= e <= l,
            l == s@.len(),
            trim_end_ws(s@) == trim_end_ws(s@.subrange(0, e as int)),
        decreases e,
    {
        proof {
            assert(s@.subrange(0, e as int).drop_last() =~= s@.subrange(0, e - 1));
        }
        e = e - 1;
    }
    proof {
        assert(trim_end_ws(s@.subrange(0, e as int)) == s@.subrange(0, e as int));
    }
    let ghost t = s@.subrange(0, e as int);
    let mut b: usize = 0;
    proof {
        assert(t.skip(0) =~= t);
    }
    while b < e && ws_at(s, b)
        invariant
            0 <= b <= e <= l,
            l == s@.len(),
            t == s@.subrange(0, e as int),
            trim_start_ws(t) == trim_start_ws(t.skip(b as int)),
        decreases e - b,
    {
        proof {
            assert(t.skip(b as int).drop_first() =~= t.skip(b + 1));
            assert(t.skip(b as int)[0] == s@[b as int]);
        }
        b = b + 1;
    }
    proof {
        if b < e {
            assert(t.skip(b as int)[0] == s@[b as int]);
        }
        assert(trim_start_ws(t.skip(b as int)) == t.skip(b as int));
        assert(t.skip(b as int) =~= s@.subrange(b as int, e as int));
    }
    let piece = s.substring_char(b, e);
    piece.to_owned()
}

/// The first position of `c` in `s`.
fn find_char_exec(s: &str, c: char) -> (r: Option<usize>)
    ensures
        match r {
            Some(i) => find_char(s@, c, 0) == i as int,
            None => find_char(s@, c, 0) == -1,
        },
{
    let l = s.unicode_len();
    let mut i: usize = 0;
    while i < l
        invariant
            0 <= i <= l,
            l == s@.len(),
            find_char(s@, c, 0) == find_char(s@, c, i as int),
        decreases l - i,
    {
        if s.get_char(i) == c {
            return Some(i);
        }
        i = i + 1;
    }
    None
}

pub struct Request {}

impl Request {
    /// Handles one protocol line against the catalog: a search returns one
    /// line per matching entry across every archive; a download names the
    /// catalogued archive and entry to stream, when both exist. Only
    /// subtrees' existence in the store may change; no contents do.
    pub fn handle(catalog: &mut Catalog, command: &str) -> (r: Result<Response, CatalogError>)
        ensures
            final(catalog).cache_extract == old(catalog).cache_extract,
            spec_command(command@) is Invalid ==> (r matches Ok(resp) && resp is Invalid)
                && *final(catalog) == *old(catalog),
            ({
                let m0 = db_trees(old(catalog).db);
                match r {
                    Ok(resp) => {
                        &&& db_default(final(catalog).db) == db_default(old(catalog).db)
                        &&& forall|k: Seq<u8>|
                            tree_of(db_trees(final(catalog).db), k) == tree_of(m0, k)
                        &&& match resp {
                            Response::Invalid => spec_command(command@) is Invalid,
                            Response::Search(lines) => {
                                &&& spec_command(command@) matches CommandV::Search(q)
                                &&& exists|ns: Seq<Seq<u8>>, fss: Seq<Seq<FileV>>|
                                    #![trigger ns.to_set(), fss.len()]
                                    {
                                        let cats = cats_of(ns);
                                        &&& names_enum(m0, ns)
                                        &&& fss.len() == cats.len()
                                        &&& (forall|i: int|
                                            0 <= i < fss.len() ==> entries_match(
                                                m0,
                                                cats[i].file_name,
                                                #[trigger] fss[i],
                                            ))
                                        &&& lines_view(lines@) == search_fold(
                                            cats,
                                            fss,
                                            spec_command(command@)->Search_0,
                                        )
                                    }
                            },
                            Response::Download(t, f) => {
                                &&& spec_command(command@) matches CommandV::Download(tn, fp)
                                &&& t@.file_name == tn
                                &&& f@.full_path == fp
                                &&& exists|fs: Seq<FileV>|
                                    #![trigger entries_match(m0, t@.file_name, fs)]
                                    entries_match(m0, t@.file_name, fs) && fs.contains(f@)
                            },
                            Response::NotFound => {
                                &&& spec_command(command@) matches CommandV::Download(tn, fp)
                                &&& exists|ns: Seq<Seq<u8>>|
                                    #![trigger ns.to_set()]
                                    names_enum(m0, ns) && download_miss(m0, ns, tn, fp)
                            },
                        }
                    },
                    Err(_) => true,
                }
            }),
    {
        let ghost m0 = db_trees(old(catalog).db);
        if str_starts_with(command, "/search/") {
            proof {
                reveal_strlit("/search/");
            }
            let rest = command.substring_char(8, command.unicode_len());
            proof {
                assert(rest@ =~= command@.skip(8));
            }
            let q = trim_ws_exec(rest);
            if q.as_str().unicode_len() == 0 {
                return Ok(Response::Invalid);
            }
            let lines = Request::search(catalog, q.as_str())?;
            return Ok(Response::Search(lines));
        }
        proof {
            reveal_strlit(":");
        }
        if str_starts_with(command, "/download/") && str_contains(command, ":") {
            proof {
                reveal_strlit("/download/");
            }
            let rest = command.substring_char(10, command.unicode_len());
            proof {
                assert(rest@ =~= command@.skip(10));
            }
            let d = trim_ws_exec(rest);
            if d.as_str().unicode_len() == 0 {
                return Ok(Response::Invalid);
            }
            let p = match find_char_exec(d.as_str(), ':') {
                Some(p) => p,
                None => {
                    proof {
                        lemma_find_char_bounds(d@, ':', 0);
                    }
                    return Ok(Response::Invalid);
                },
            };
            proof {
                lemma_find_char_bounds(d@, ':', 0);
            }
            let tar_name = d.as_str().substring_char(0, p);
            let file_path = d.as_str().substring_char(p + 1, d.as_str().unicode_len());
            return Request::download(catalog, tar_name, file_path);
        }
        Ok(Response::Invalid)
    }

    /// Searches every archive for entries whose leaf name contains `q`.
    fn search(catalog: &mut Catalog, q: &str) -> (r: Result<Vec<String>, CatalogError>)
        ensures
            final(catalog).cache_extract == old(catalog).cache_extract,
            ({
                let m0 = db_trees(old(catalog).db);
                match r {
                    Ok(lines) => {
                        &&& db_default(final(catalog).db) == db_default(old(catalog).db)
                        &&& forall|k: Seq<u8>|
                            tree_of(db_trees(final(catalog).db), k) == tree_of(m0, k)
                        &&& exists|ns: Seq<Seq<u8>>, fss: Seq<Seq<FileV>>|
                            #![trigger ns.to_set(), fss.len()]
                            {
                                let cats = cats_of(ns);
                                &&& names_enum(m0, ns)
                                &&& fss.len() == cats.len()
                                &&& (forall|i: int|
                                    0 <= i < fss.len() ==> entries_match(
                                        m0,
                                        cats[i].file_name,
                                        #[trigger] fss[i],
                                    ))
                                &&& lines_view(lines@) == search_fold(cats, fss, q@)
                            }
                    },
                    Err(_) => true,
                }
            }),
    {
        let cats = catalog.get_catalogs();
        let ghost catsv = filetars_view(cats@);
        let ghost ns = choose|ns: Seq<Seq<u8>>|
            #![trigger ns.to_set()]
            {
                &&& ns.to_set() == db_trees(catalog.db).dom().insert(
                    crate::store::default_tree_id(),
                )
                &&& ns.no_duplicates()
                &&& filetars_view(cats@) == cats_of(ns)
            };
        let mut lines: Vec<String> = Vec::new();
        let ghost mut fss: Seq<Seq<FileV>> = Seq::empty();
        let mut k: usize = 0;
        proof {
            assert(catsv.subrange(0, 0) =~= Seq::<FileTarV>::empty());
            assert(lines_view(lines@) =~= search_fold(catsv.subrange(0, 0), fss, q@));
        }
        while k < cats.len()
            invariant
                0 <= k <= cats@.len(),
                catsv == filetars_view(cats@),
                catsv.len() == cats@.len(),
                fss.len() == k,
                db_default(catalog.db) == db_default(old(catalog).db),
                catalog.cache_extract == old(catalog).cache_extract,
                forall|kk: Seq<u8>|
                    tree_of(db_trees(catalog.db), kk) == tree_of(
                        db_trees(old(catalog).db),
                        kk,
                    ),
                forall|i: int|
                    0 <= i < k ==> entries_match(
                        db_trees(old(catalog).db),
                        catsv[i].file_name,
                        #[trigger] fss[i],
                    ),
                lines_view(lines@) == search_fold(catsv.subrange(0, k as int), fss, q@),
            decreases cats@.len() - k,
        {
            proof {
                assert(catsv[k as int] == cats@[k as int]@);
            }
            let tar = &cats[k];
            let ghost trees_before = db_trees(catalog.db);
            let files = match catalog.get_catalog(tar) {
                Ok(fs) => fs,
                Err(e) => {
                    return Err(e);
                },
            };
            let ghost fsv = files_view(files@);
            let ghost fss_pre = fss;
            proof {
                lemma_entries_match_stable(trees_before, db_trees(old(catalog).db), tar@.file_name, fsv);
                assert forall|kk: Seq<u8>|
                    tree_of(db_trees(catalog.db), kk) == tree_of(
                        db_trees(old(catalog).db),
                        kk,
                    ) by {
                    lemma_with_tree_tree_of(trees_before, tar_key(tar@.file_name), kk);
                }
                fss = fss.push(fsv);
            }
            let mut j: usize = 0;
            let ghost lines_before = lines_view(lines@);
            proof {
                assert(fsv.subrange(0, 0) =~= Seq::<FileV>::empty());
                assert(lines_view(lines@) =~= lines_before + search_lines_of(
                    tar@.file_name,
                    fsv.subrange(0, 0),
                    q@,
                ));
            }
            while j < files.len()
                invariant
                    0 <= j <= files@.len(),
                    fsv == files_view(files@),
                    fsv.len() == files@.len(),
                    lines_view(lines@) == lines_before + search_lines_of(
                        tar@.file_name,
                        fsv.subrange(0, j as int),
                        q@,
                    ),
                decreases files@.len() - j,
            {
                proof {
                    assert(fsv[j as int] == files@[j as int]@);
                    assert(fsv.subrange(0, j + 1).drop_last() =~= fsv.subrange(0, j as int));
                }
                let f = &files[j];
                if str_contains(f.file_name.as_str(), q) {
                    let mut line = tar.file_name.clone();
                    line.append(":");
                    line.append(f.full_path.as_str());
                    line.append("\n");
                    let ghost lv_pre = lines_view(lines@);
                    lines.push(line);
                    proof {
                        assert(line@ == line_of(tar@.file_name, fsv[j as int].full_path));
                        assert(lines_view(lines@) =~= lv_pre.push(line@));
                        assert(search_lines_of(tar@.file_name, fsv.subrange(0, j + 1), q@)
                            == search_lines_of(tar@.file_name, fsv.subrange(0, j as int), q@)
                            + seq![line_of(tar@.file_name, fsv[j as int].full_path)]);
                        assert(lines_view(lines@) =~= lines_before + search_lines_of(
                            tar@.file_name,
                            fsv.subrange(0, j + 1),
                            q@,
                        ));
                    }
                } else {
                    proof {
                        assert(lines_view(lines@) =~= lines_before + search_lines_of(
                            tar@.file_name,
                            fsv.subrange(0, j + 1),
                            q@,
                        ));
                    }
                }
                j = j + 1;
            }
            proof {
                assert(fsv.subrange(0, fsv.len() as int) =~= fsv);
                assert(catsv.subrange(0, k + 1).drop_last() =~= catsv.subrange(0, k as int));
                assert(catsv.subrange(0, k + 1).last() == catsv[k as int]);
                assert(fss.drop_last() =~= fss_pre);
                assert(fss.last() == fsv);
                assert(search_fold(catsv.subrange(0, k + 1), fss, q@) == search_fold(
                    catsv.subrange(0, k as int),
                    fss_pre,
                    q@,
                ) + search_lines_of(catsv[k as int].file_name, fsv, q@));
                assert(lines_view(lines@) =~= search_fold(catsv.subrange(0, k + 1), fss, q@));
            }
            k = k + 1;
        }
        proof {
            assert(catsv.subrange(0, catsv.len() as int) =~= catsv);
        }
        Ok(lines)
    }

    /// Locates the archive and entry a download names.
    fn download(catalog: &mut Catalog, tar_name: &str, file_path: &str) -> (r: Result<
        Response,
        CatalogError,
    >)
        ensures
            final(catalog).cache_extract == old(catalog).cache_extract,
            ({
                let m0 = db_trees(old(catalog).db);
                match r {
                    Ok(resp) => {
                        &&& db_default(final(catalog).db) == db_default(old(catalog).db)
                        &&& forall|k: Seq<u8>|
                            tree_of(db_trees(final(catalog).db), k) == tree_of(m0, k)
                        &&& match resp {
                            Response::Download(t, f) => {
                                &&& t@.file_name == tar_name@
                                &&& f@.full_path == file_path@
                                &&& exists|fs: Seq<FileV>|
                                    #![trigger entries_match(m0, t@.file_name, fs)]
                                    entries_match(m0, t@.file_name, fs) && fs.contains(f@)
                            },
                            Response::NotFound => exists|ns: Seq<Seq<u8>>|
                                #![trigger ns.to_set()]
                                names_enum(m0, ns) && download_miss(
                                    m0,
                                    ns,
                                    tar_name@,
                                    file_path@,
                                ),
                            _ => false,
                        }
                    },
                    Err(_) => true,
                }
            }),
    {
        let cats = catalog.get_catalogs();
        let ghost catsv = filetars_view(cats@);
        let ghost m0 = db_trees(old(catalog).db);
        let ghost ns = choose|ns: Seq<Seq<u8>>|
            #![trigger ns.to_set()]
            {
                &&& ns.to_set() == db_trees(catalog.db).dom().insert(
                    crate::store::default_tree_id(),
                )
                &&& ns.no_duplicates()
                &&& filetars_view(cats@) == cats_of(ns)
            };
        proof {
            assert(names_enum(m0, ns) && catsv == cats_of(ns));
        }
        let mut k: usize = 0;
        while k < cats.len()
            invariant
                0 <= k <= cats@.len(),
                catsv == filetars_view(cats@),
                catsv.len() == cats@.len(),
                catsv == cats_of(ns),
                names_enum(m0, ns),
                m0 == db_trees(old(catalog).db),
                forall|k2: int| 0 <= k2 < k ==> (#[trigger] catsv[k2]).file_name != tar_name@,
                db_default(catalog.db) == db_default(old(catalog).db),
                catalog.cache_extract == old(catalog).cache_extract,
                forall|kk: Seq<u8>|
                    tree_of(db_trees(catalog.db), kk) == tree_of(
                        db_trees(old(catalog).db),
                        kk,
                    ),
            decreases cats@.len() - k,
        {
            proof {
                assert(catsv[k as int] == cats@[k as int]@);
            }
            let tar = &cats[k];
            if str_eq(tar.file_name.as_str(), tar_name) {
                let ghost trees_before = db_trees(catalog.db);
                let files = match catalog.get_catalog(tar) {
                    Ok(fs) => fs,
                    Err(e) => {
                        return Err(e);
                    },
                };
                let ghost fsv = files_view(files@);
                proof {
                    lemma_entries_match_stable(
                        trees_before,
                        db_trees(old(catalog).db),
                        tar@.file_name,
                        fsv,
                    );
                    assert forall|kk: Seq<u8>|
                        tree_of(db_trees(catalog.db), kk) == tree_of(
                            db_trees(old(catalog).db),
                            kk,
                        ) by {
                        lemma_with_tree_tree_of(trees_before, tar_key(tar@.file_name), kk);
                    }
                }
                let mut j: usize = 0;
                while j < files.len()
                    invariant
                        0 <= j <= files@.len(),
                        fsv == files_view(files@),
                        fsv.len() == files@.len(),
                        entries_match(db_trees(old(catalog).db), tar@.file_name, fsv),
                        tar@.file_name == tar_name@,
                        catsv == cats_of(ns),
                        names_enum(m0, ns),
                        m0 == db_trees(old(catalog).db),
                        0 <= k < catsv.len(),
                        catsv[k as int].file_name == tar_name@,
                        forall|k2: int|
                            0 <= k2 < k ==> (#[trigger] catsv[k2]).file_name != tar_name@,
                        forall|q: int|
                            0 <= q < j ==> (#[trigger] fsv[q]).full_path != file_path@,
                        db_default(catalog.db) == db_default(old(catalog).db),
                        catalog.cache_extract == old(catalog).cache_extract,
                        forall|kk: Seq<u8>|
                            tree_of(db_trees(catalog.db), kk) == tree_of(
                                db_trees(old(catalog).db),
                                kk,
                            ),
                    decreases files@.len() - j,
                {
                    proof {
                        assert(fsv[j as int] == files@[j as int]@);
                    }
                    let f = &files[j];
                    if str_eq(f.full_path.as_str(), file_path) {
                        proof {
                            assert(fsv.contains(fsv[j as int]));
                        }
                        return Ok(Response::Download(tar.clone(), f.clone()));
                    }
                    j = j + 1;
                }
                proof {
                    assert(entries_match(m0, tar_name@, fsv));
                    assert(cats_of(ns)[k as int].file_name == tar_name@);
                    assert(download_miss(m0, ns, tar_name@, file_path@));
                }
                return Ok(Response::NotFound);
            }
            k = k + 1;
        }
        proof {
            assert(forall|k2: int|
                0 <= k2 < cats_of(ns).len() ==> (#[trigger] cats_of(ns)[k2]).file_name
                    != tar_name@);
            assert(download_miss(m0, ns, tar_name@, file_path@));
        }
        Ok(Response::NotFound)
    }
}

/// Opening one subtree changes no subtree's contents.
pub proof fn lemma_with_tree_tree_of(
    m: Map<Seq<u8>, Map<Seq<u8>, Seq<u8>>>,
    a: Seq<u8>,
    k: Seq<u8>,
)
    ensures
        tree_of(with_tree(m, a), k) == tree_of(m, k),
{
}

/// A record enumeration is preserved when every subtree's contents are.
proof fn lemma_entries_match_stable(
    m1: Map<Seq<u8>, Map<Seq<u8>, Seq<u8>>>,
    m0: Map<Seq<u8>, Map<Seq<u8>, Seq<u8>>>,
    name: Seq<char>,
    fs: Seq<FileV>,
)
    requires
        entries_match(m1, name, fs),
        tree_of(m1, tar_key(name)) == tree_of(m0, tar_key(name)),
    ensures
        entries_match(m0, name, fs),
{
    let ks = choose|ks: Seq<Seq<u8>>|
        #![trigger ks.to_set()]
        {
            let t = tree_of(m1, tar_key(name));
            &&& ks.to_set() == t.dom()
            &&& ks.no_duplicates()
            &&& forall|i: int, j: int|
                0 <= i < j < ks.len() ==> crate::store::lex_lt(ks[i], ks[j])
            &&& fs.len() == ks.len()
            &&& forall|i: int|
                0 <= i < ks.len() ==> crate::codec::spec_decode(t[ks[i]]) == Some(
                    #[trigger] fs[i],
                )
        };
    assert(ks.to_set() == tree_of(m0, tar_key(name)).dom());
}

/// The first-position search stays within the string and finds the
/// character.
proof fn lemma_find_char_bounds(s: Seq<char>, c: char, i: int)
    requires
        0 <= i <= s.len(),
    ensures
        ({
            let p = find_char(s, c, i);
            (p == -1 || (i <= p < s.len() && s[p] == c))
        }),
    decreases s.len() - i,
{
    if i < s.len() && s[i] != c {
        lemma_find_char_bounds(s, c, i + 1);
    }
}

} // verus!
