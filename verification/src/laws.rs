//! The laws the catalog states of itself, each proved from the contracts
//! of the operations it speaks about.

use vstd::prelude::*;
use crate::catalog::{
    cats_of, catalog_of_name, entries_match, entry_file, entry_leaf, entry_level, entry_ok,
    entry_parent, indexed_trees, ino_key, inos_match, is_tar_name, last_ino_of,
    lemma_buckets_fold_tar, lemma_tar_key_is_tar, listing_ok, rec_ino, state_at, store_inv,
    tar_key, tar_prefix_bytes, Bucket, IndexState,
};
use crate::codec::{lemma_codec_round_trip, spec_decode, spec_encode};
use crate::entry::FileV;
use crate::listing::RawEntryV;
use crate::store::{default_tree_id, tree_nonempty, tree_of, with_tree};
use crate::strings::{
    count_char, is_prefix, lemma_count_char_concat, lemma_count_char_zero, lemma_lc_concat,
    lemma_rfind_suffix, lemma_trim_one_slash, occurs_at, rfind_from, spec_rfind,
    trim_trailing_slashes,
};
use crate::vfs::names_enum;

verus! {

/// A well-formed directory path: non-empty, with exactly one trailing
/// slash.
pub open spec fn dir_shape(s: Seq<char>) -> bool {
    s.len() >= 1 && s.last() == '/' && (s.len() < 2 || s[s.len() - 2] != '/')
}

/// A listing whose entries carry the shapes indexing relies on: leaves
/// exist, kinds are unambiguous, directory paths end in exactly one
/// slash, file paths in none, and no path repeats.
pub open spec fn listing_wf(l: Seq<RawEntryV>) -> bool {
    &&& listing_ok(l)
    &&& forall|i: int| 0 <= i < l.len() ==> !((#[trigger] l[i]).is_file && l[i].is_dir)
    &&& forall|i: int| 0 <= i < l.len() ==> (#[trigger] l[i]).is_dir ==> dir_shape(l[i].path)
    &&& forall|i: int|
        0 <= i < l.len() ==> (#[trigger] l[i]).is_file ==> l[i].path.len() >= 1 && l[i].path.last()
            != '/'
    &&& forall|i: int, j: int|
        0 <= i < l.len() && 0 <= j < l.len() && i != j ==> (#[trigger] l[i]).path != (
        #[trigger] l[j]).path
}

/// `e` names a child of the directory path `p`: its path begins with `p`
/// and its depth is one deeper.
pub open spec fn is_child_of(e: RawEntryV, p: Seq<char>, d_level: int) -> bool {
    &&& is_prefix(e.path, p)
    &&& e.path != p
    &&& entry_level(e) == d_level + 1
}

/// Every directory of the listing stands before each of its children.
pub open spec fn dirs_before_children(l: Seq<RawEntryV>) -> bool {
    forall|i: int, j: int|
        (0 <= i < l.len() && 0 <= j < l.len() && (#[trigger] l[i]).is_dir && is_child_of(
            #[trigger] l[j],
            l[i].path,
            entry_level(l[i]) as int,
        )) ==> i < j
}

/// The parent path computed for a child of directory `d` is the
/// directory's own path: stripping the child's leaf from its full path
/// lands exactly on the directory.
pub proof fn lemma_child_parent(d: RawEntryV, e: RawEntryV)
    requires
        entry_ok(d),
        entry_ok(e),
        d.is_dir,
        !d.is_file,
        dir_shape(d.path),
        e.is_file || e.is_dir,
        e.is_file ==> e.path.len() >= 1 && e.path.last() != '/',
        e.is_dir ==> dir_shape(e.path),
        !(e.is_file && e.is_dir),
        is_child_of(e, d.path, entry_level(d) as int),
    ensures
        entry_parent(e) == d.path,
{
    let p = d.path;
    let rest = e.path.subrange(p.len() as int, e.path.len() as int);
    assert(e.path =~= p + rest);
    lemma_count_char_concat(p, rest, '/');
    assert(entry_level(d) == count_char(p, '/'));
    assert(rest.len() >= 1);
    if e.is_file {
        assert(count_char(e.path, '/') + 1 == count_char(p, '/') + 1);
        assert(count_char(rest, '/') == 0);
        lemma_count_char_zero(rest, '/');
        assert(rest.last() == e.path.last());
        assert(trim_trailing_slashes(e.path) == e.path);
        lemma_lc_concat(p, rest);
        assert(entry_leaf(e) == rest);
        assert(e.path.subrange(e.path.len() - rest.len(), e.path.len() as int) =~= rest);
        lemma_rfind_suffix(e.path, rest);
        assert(entry_parent(e) =~= p);
    } else {
        assert(count_char(e.path, '/') == count_char(p, '/') + 1);
        assert(count_char(rest, '/') == 1);
        assert(rest.last() == '/');
        if rest.len() == 1 {
            assert(e.path[e.path.len() - 2] == p.last());
            assert(false);
        }
        let comp = rest.drop_last();
        assert(count_char(rest, '/') == count_char(comp, '/') + 1);
        assert(count_char(comp, '/') == 0);
        lemma_count_char_zero(comp, '/');
        lemma_trim_one_slash(e.path);
        assert(e.path.drop_last() =~= p + comp);
        lemma_lc_concat(p, comp);
        assert(entry_leaf(e) == comp);
        let from = e.path.len() - comp.len();
        assert(!occurs_at(e.path, comp, from)) by {
            if occurs_at(e.path, comp, from) {
                assert(e.path.subrange(from, e.path.len() as int)[comp.len() - 1] == e.path[e.path.len()
                    - 1]);
                assert(comp[comp.len() - 1] != '/');
            }
        }
        assert(occurs_at(e.path, comp, p.len() as int)) by {
            assert(e.path.subrange(p.len() as int, p.len() + comp.len() as int) =~= comp);
        }
        assert(rfind_from(e.path, comp, from) == rfind_from(e.path, comp, from - 1));
        assert(rfind_from(e.path, comp, from - 1) == Some(p.len() as int));
        assert(spec_rfind(e.path, comp) == Some(p.len() as int));
        assert(entry_parent(e) =~= p);
    }
}

/// The counter after the first `n` entries: one bump for the root bucket
/// and one per entry.
pub proof fn lemma_state_next(l: Seq<RawEntryV>, start: u64, n: int)
    requires
        0 <= n <= l.len(),
        start + 1 + l.len() <= u64::MAX,
    ensures
        state_at(l, start, n).next == start + 1 + n,
    decreases n,
{
    if n > 0 {
        lemma_state_next(l, start, n - 1);
    }
}

/// The paths and inodes the buckets will carry after the first `n`
/// entries: the root bucket, then one per directory entry, in order.
pub open spec fn bucket_skeleton(l: Seq<RawEntryV>, start: u64, n: int) -> Seq<(Seq<char>, u64)>
    decreases n when n >= 0
{
    if n <= 0 {
        seq![(Seq::<char>::empty(), (start + 1) as u64)]
    } else {
        bucket_skeleton(l, start, n - 1) + if l[n - 1].is_dir {
            seq![(l[n - 1].path, ((start + 1 + n) as u64))]
        } else {
            Seq::empty()
        }
    }
}

/// The skeleton always opens with the root bucket's slot.
proof fn lemma_skeleton_root(l: Seq<RawEntryV>, start: u64, n: int)
    requires
        0 <= n,
    ensures
        bucket_skeleton(l, start, n).len() >= 1,
        bucket_skeleton(l, start, n)[0] == (Seq::<char>::empty(), ((start + 1) as u64)),
    decreases n,
{
    if n > 0 {
        lemma_skeleton_root(l, start, n - 1);
    }
}

/// Every skeleton slot past the root comes from one directory entry.
proof fn lemma_skeleton_entry(l: Seq<RawEntryV>, start: u64, n: int, b: int)
    requires
        0 <= n <= l.len(),
        1 <= b < bucket_skeleton(l, start, n).len(),
    ensures
        exists|di: int|
            0 <= di < n && (#[trigger] l[di]).is_dir && bucket_skeleton(l, start, n)[b] == (
            l[di].path,
            ((start + 2 + di) as u64),
            ),
    decreases n,
{
    let sk = bucket_skeleton(l, start, n);
    let skp = bucket_skeleton(l, start, n - 1);
    if b < skp.len() {
        lemma_skeleton_entry(l, start, n - 1, b);
        let di = choose|di: int|
            0 <= di < n - 1 && (#[trigger] l[di]).is_dir && skp[b] == (
            l[di].path,
            ((start + 2 + di) as u64),
            );
        assert(sk[b] == skp[b]);
        assert(l[di].is_dir && sk[b] == (l[di].path, ((start + 2 + di) as u64)));
    } else {
        assert(l[n - 1].is_dir);
        assert(sk[b] == (l[n - 1].path, ((start + 1 + n) as u64)));
        assert(l[n - 1].is_dir && sk[b] == (l[n - 1].path, ((start + 2 + (n - 1)) as u64)));
    }
}

/// Every directory among the first `n` entries holds a skeleton slot.
proof fn lemma_skeleton_has_dir(l: Seq<RawEntryV>, start: u64, n: int, di: int)
    requires
        0 <= di < n <= l.len(),
        l[di].is_dir,
    ensures
        exists|b: int|
            1 <= b < bucket_skeleton(l, start, n).len() && #[trigger] bucket_skeleton(
                l,
                start,
                n,
            )[b] == (l[di].path, ((start + 2 + di) as u64)),
    decreases n,
{
    let sk = bucket_skeleton(l, start, n);
    if di < n - 1 {
        lemma_skeleton_has_dir(l, start, n - 1, di);
        let b = choose|b: int|
            1 <= b < bucket_skeleton(l, start, n - 1).len() && #[trigger] bucket_skeleton(
                l,
                start,
                n - 1,
            )[b] == (l[di].path, ((start + 2 + di) as u64));
        assert(1 <= b < bucket_skeleton(l, start, n).len() && bucket_skeleton(l, start, n)[b]
            == (l[di].path, ((start + 2 + di) as u64)));
    } else {
        let b = bucket_skeleton(l, start, n - 1).len() as int;
        lemma_skeleton_root(l, start, n - 1);
        assert(1 <= b < bucket_skeleton(l, start, n).len() && bucket_skeleton(l, start, n)[b]
            == (l[di].path, ((start + 2 + di) as u64)));
    }
}

/// Where the first-match bucket search lands.
proof fn lemma_bucket_idx_props(bs: Seq<Bucket>, p: Seq<char>, i: int)
    requires
        0 <= i <= bs.len(),
    ensures
        ({
            let r = crate::catalog::bucket_idx_from(bs, p, i);
            if r >= 0 {
                i <= r < bs.len() && bs[r].path == p && forall|b: int|
                    i <= b < r ==> (#[trigger] bs[b]).path != p
            } else {
                forall|b: int| i <= b < bs.len() ==> (#[trigger] bs[b]).path != p
            }
        }),
    decreases bs.len() - i,
{
    if i < bs.len() && bs[i].path != p {
        lemma_bucket_idx_props(bs, p, i + 1);
    }
}

/// After the first `n` entries the buckets carry exactly the skeleton's
/// paths and inodes, pairwise distinct.
proof fn lemma_buckets_skeleton(l: Seq<RawEntryV>, start: u64, n: int)
    requires
        listing_wf(l),
        0 <= n <= l.len(),
        start + 1 + l.len() <= u64::MAX,
    ensures
        ({
            let bs = state_at(l, start, n).buckets;
            let sk = bucket_skeleton(l, start, n);
            &&& bs.len() == sk.len()
            &&& forall|b: int|
                0 <= b < bs.len() ==> (#[trigger] bs[b]).path == sk[b].0 && bs[b].ino == sk[b].1
            &&& forall|b1: int, b2: int|
                0 <= b1 < b2 < sk.len() ==> (#[trigger] sk[b1]).0 != (#[trigger] sk[b2]).0
        }),
    decreases n,
{
    if n == 0 {
    } else {
        lemma_buckets_skeleton(l, start, n - 1);
        lemma_state_next(l, start, n - 1);
        let st_pre = state_at(l, start, n - 1);
        let e = l[n - 1];
        let sk_pre = bucket_skeleton(l, start, n - 1);
        let sk = bucket_skeleton(l, start, n);
        if e.is_dir {
            assert(entry_ok(e));
            assert(dir_shape(e.path));
            assert(e.path.len() >= 1);
            lemma_bucket_idx_props(st_pre.buckets, e.path, 0);
            assert forall|b: int| 0 <= b < st_pre.buckets.len() implies (
            #[trigger] st_pre.buckets[b]).path != e.path by {
                if b == 0 {
                    lemma_skeleton_root(l, start, n - 1);
                } else {
                    lemma_skeleton_entry(l, start, n - 1, b);
                    let di = choose|di: int|
                        0 <= di < n - 1 && (#[trigger] l[di]).is_dir && sk_pre[b] == (
                        l[di].path,
                        ((start + 2 + di) as u64),
                        );
                    assert(l[di].path != l[n - 1].path);
                }
            }
            assert(crate::catalog::bucket_idx(st_pre.buckets, e.path) < 0);
            assert forall|b1: int, b2: int| 0 <= b1 < b2 < sk.len() implies (
            #[trigger] sk[b1]).0 != (#[trigger] sk[b2]).0 by {
                if b2 == sk.len() - 1 {
                    if b1 == 0 {
                        lemma_skeleton_root(l, start, n);
                        assert(sk[b2].0 == e.path);
                    } else {
                        lemma_skeleton_entry(l, start, n - 1, b1);
                        let di = choose|di: int|
                            0 <= di < n - 1 && (#[trigger] l[di]).is_dir && sk_pre[b1] == (
                            l[di].path,
                            ((start + 2 + di) as u64),
                            );
                        assert(l[di].path != l[n - 1].path);
                    }
                }
            }
        }
        let st = state_at(l, start, n);
        let bs = st.buckets;
        assert(st == crate::catalog::index_step(st_pre, e));
        let ino = (st_pre.next + 1) as u64;
        let bs1 = if e.is_dir && crate::catalog::bucket_idx(st_pre.buckets, e.path) < 0 {
            st_pre.buckets.push(Bucket { path: e.path, ino, kids: Seq::empty() })
        } else {
            st_pre.buckets
        };
        let k = crate::catalog::bucket_idx(bs1, entry_parent(e));
        lemma_bucket_idx_props(bs1, entry_parent(e), 0);
        assert(bs1.len() == sk.len());
        assert forall|b: int| 0 <= b < bs1.len() implies (#[trigger] bs1[b]).path == sk[b].0
            && bs1[b].ino == sk[b].1 by {
            if e.is_dir {
                if b < st_pre.buckets.len() {
                    assert(bs1[b] == st_pre.buckets[b]);
                    assert(sk[b] == sk_pre[b]);
                } else {
                    assert(bs1[b].path == e.path && bs1[b].ino == ino);
                }
            } else {
                assert(sk =~= sk_pre);
            }
        }
        assert forall|b: int| 0 <= b < bs.len() implies (#[trigger] bs[b]).path == sk[b].0
            && bs[b].ino == sk[b].1 by {
            if k >= 0 && k == b {
                assert(bs[b].path == bs1[b].path && bs[b].ino == bs1[b].ino);
            } else {
                assert(bs[b] == bs1[b]);
            }
        }
    }
}

/// Buckets only grow: later states keep every bucket's path and inode,
/// and extend its child list.
proof fn lemma_kids_grow(l: Seq<RawEntryV>, start: u64, n1: int, n2: int)
    requires
        0 <= n1 <= n2 <= l.len(),
    ensures
        ({
            let b1 = state_at(l, start, n1).buckets;
            let b2 = state_at(l, start, n2).buckets;
            &&& b1.len() <= b2.len()
            &&& forall|b: int|
                0 <= b < b1.len() ==> {
                    &&& (#[trigger] b2[b]).path == b1[b].path
                    &&& b2[b].ino == b1[b].ino
                    &&& b1[b].kids.len() <= b2[b].kids.len()
                    &&& forall|q: int|
                        0 <= q < b1[b].kids.len() ==> #[trigger] b2[b].kids[q] == b1[b].kids[q]
                }
        }),
    decreases n2 - n1,
{
    if n1 < n2 {
        lemma_kids_grow(l, start, n1, n2 - 1);
        lemma_step_grow(state_at(l, start, n2 - 1), l[n2 - 1]);
        let b1s = state_at(l, start, n1).buckets;
        let bms = state_at(l, start, n2 - 1).buckets;
        let b2s = state_at(l, start, n2).buckets;
        assert(state_at(l, start, n2) == crate::catalog::index_step(
            state_at(l, start, n2 - 1),
            l[n2 - 1],
        ));
        assert forall|b: int| 0 <= b < b1s.len() implies {
            &&& (#[trigger] b2s[b]).path == b1s[b].path
            &&& b2s[b].ino == b1s[b].ino
            &&& b1s[b].kids.len() <= b2s[b].kids.len()
            &&& forall|q: int| 0 <= q < b1s[b].kids.len() ==> #[trigger] b2s[b].kids[q] == b1s[b].kids[q]
        } by {
            assert(bms[b].path == b1s[b].path && bms[b].ino == b1s[b].ino);
            assert forall|q: int| 0 <= q < b1s[b].kids.len() implies #[trigger] b2s[b].kids[q]
                == b1s[b].kids[q] by {
                assert(bms[b].kids[q] == b1s[b].kids[q]);
                assert(b2s[b].kids[q] == bms[b].kids[q]);
            }
        }
    }
}

/// One indexing step keeps every bucket's path and inode, and only
/// appends to child lists.
proof fn lemma_step_grow(st: IndexState, e: RawEntryV)
    ensures
        ({
            let bs2 = crate::catalog::index_step(st, e).buckets;
            &&& st.buckets.len() <= bs2.len()
            &&& forall|b: int|
                0 <= b < st.buckets.len() ==> {
                    &&& (#[trigger] bs2[b]).path == st.buckets[b].path
                    &&& bs2[b].ino == st.buckets[b].ino
                    &&& st.buckets[b].kids.len() <= bs2[b].kids.len()
                    &&& forall|q: int|
                        0 <= q < st.buckets[b].kids.len() ==> #[trigger] bs2[b].kids[q]
                            == st.buckets[b].kids[q]
                }
        }),
{
    let ino = (st.next + 1) as u64;
    let bs1 = if e.is_dir && crate::catalog::bucket_idx(st.buckets, e.path) < 0 {
        st.buckets.push(Bucket { path: e.path, ino, kids: Seq::empty() })
    } else {
        st.buckets
    };
    let k = crate::catalog::bucket_idx(bs1, entry_parent(e));
    lemma_bucket_idx_props(bs1, entry_parent(e), 0);
    let bs2 = crate::catalog::index_step(st, e).buckets;
    assert forall|b: int| 0 <= b < st.buckets.len() implies {
        &&& (#[trigger] bs2[b]).path == st.buckets[b].path
        &&& bs2[b].ino == st.buckets[b].ino
        &&& st.buckets[b].kids.len() <= bs2[b].kids.len()
        &&& forall|q: int|
            0 <= q < st.buckets[b].kids.len() ==> #[trigger] bs2[b].kids[q] == st.buckets[b].kids[q]
    } by {
        assert(bs1[b] == st.buckets[b]);
        if k >= 0 && k == b {
            assert(bs2[b].kids == bs1[b].kids.push(ino));
            assert forall|q: int| 0 <= q < st.buckets[b].kids.len() implies #[trigger] bs2[b].kids[q]
                == st.buckets[b].kids[q] by {
                assert(bs1[b].kids.push(ino)[q] == bs1[b].kids[q]);
            }
        } else {
            assert(bs2[b] == bs1[b]);
        }
    }
}

/// Children completeness: after a full indexing pass over a well-formed
/// listing whose directories precede their children, every entry one
/// level below a directory stands in that directory's child list, under
/// the directory's own bucket and inode.
pub proof fn lemma_children_complete(l: Seq<RawEntryV>, start: u64, i: int, j: int)
    requires
        listing_wf(l),
        dirs_before_children(l),
        start + 1 + l.len() <= u64::MAX,
        0 <= i < l.len(),
        0 <= j < l.len(),
        l[i].is_dir,
        l[j].is_file || l[j].is_dir,
        is_child_of(l[j], l[i].path, entry_level(l[i]) as int),
    ensures
        exists|b: int|
            #![trigger state_at(l, start, l.len() as int).buckets[b]]
            {
                &&& 0 <= b < state_at(l, start, l.len() as int).buckets.len()
                &&& state_at(l, start, l.len() as int).buckets[b].path == l[i].path
                &&& state_at(l, start, l.len() as int).buckets[b].ino == (start + 2 + i) as u64
                &&& state_at(l, start, l.len() as int).buckets[b].kids.contains(
                    ((start + 2 + j) as u64),
                )
            },
{
    assert(i < j);
    let st_pre = state_at(l, start, j);
    let st_post = state_at(l, start, j + 1);
    assert(st_post == crate::catalog::index_step(st_pre, l[j]));
    lemma_state_next(l, start, j);
    let ino_j = (start + 2 + j) as u64;
    assert((st_pre.next + 1) as u64 == ino_j);
    lemma_buckets_skeleton(l, start, j);
    lemma_skeleton_has_dir(l, start, j, i);
    let sk = bucket_skeleton(l, start, j);
    let b0 = choose|b: int|
        1 <= b < sk.len() && #[trigger] sk[b] == (l[i].path, ((start + 2 + i) as u64));
    assert(st_pre.buckets[b0].path == l[i].path);
    assert(st_pre.buckets[b0].ino == (start + 2 + i) as u64);
    assert(entry_ok(l[i]) && entry_ok(l[j]));
    lemma_child_parent(l[i], l[j]);
    let bs1 = if l[j].is_dir && crate::catalog::bucket_idx(st_pre.buckets, l[j].path) < 0 {
        st_pre.buckets.push(Bucket { path: l[j].path, ino: ino_j, kids: Seq::empty() })
    } else {
        st_pre.buckets
    };
    assert(bs1[b0].path == l[i].path && bs1[b0].ino == (start + 2 + i) as u64);
    lemma_bucket_idx_props(bs1, l[i].path, 0);
    let k = crate::catalog::bucket_idx(bs1, l[i].path);
    assert(k >= 0);
    assert(bs1[k].path == l[i].path);
    assert(k == b0) by {
        if k != b0 {
            if k < st_pre.buckets.len() && b0 < st_pre.buckets.len() {
                assert(sk[k].0 == l[i].path && sk[b0].0 == l[i].path);
            } else {
                assert(l[j].is_dir);
                assert(bs1[bs1.len() - 1].path == l[j].path);
                assert(l[j].path != l[i].path);
                assert(k < st_pre.buckets.len() && b0 < st_pre.buckets.len());
            }
        }
    }
    assert(st_post.buckets[b0].path == l[i].path);
    assert(st_post.buckets[b0].ino == (start + 2 + i) as u64);
    assert(st_post.buckets[b0].kids.last() == ino_j);
    let q0 = st_post.buckets[b0].kids.len() - 1;
    lemma_kids_grow(l, start, j + 1, l.len() as int);
    let bs_end = state_at(l, start, l.len() as int).buckets;
    assert(bs_end[b0].path == l[i].path && bs_end[b0].ino == (start + 2 + i) as u64);
    assert(bs_end[b0].kids[q0] == ino_j);
    assert(bs_end[b0].kids.contains(ino_j));
}

/// Two different inodes name two different child subtrees.
proof fn lemma_ino_key_injective(a: u64, b: u64)
    requires
        ino_key(a) == ino_key(b),
    ensures
        a == b,
{
    broadcast use vstd::utf8::encode_utf8_decode_utf8;

    let pre = "inotree::"@;
    assert(vstd::utf8::decode_utf8(ino_key(a)) == pre + crate::numbers::dec_chars(a));
    assert(vstd::utf8::decode_utf8(ino_key(b)) == pre + crate::numbers::dec_chars(b));
    assert(crate::numbers::dec_chars(a) =~= (pre + crate::numbers::dec_chars(a)).skip(
        pre.len() as int,
    ));
    assert(crate::numbers::dec_chars(b) =~= (pre + crate::numbers::dec_chars(b)).skip(
        pre.len() as int,
    ));
    assert(crate::numbers::dec_chars(a) == crate::numbers::dec_chars(b));
    assert(crate::numbers::dec_bytes(a) =~= crate::numbers::dec_bytes(b));
    crate::numbers::lemma_dec_round_trip(a);
    crate::numbers::lemma_dec_round_trip(b);
}

/// Every child written into a child subtree stays there, under its own
/// decimal key and value.
proof fn lemma_kids_tree_contains(t0: Map<Seq<u8>, Seq<u8>>, cs: Seq<u64>, n: int, q: int)
    requires
        0 <= q < n <= cs.len(),
    ensures
        crate::catalog::kids_tree(t0, cs, n).dom().contains(crate::numbers::dec_bytes(cs[q])),
        crate::catalog::kids_tree(t0, cs, n)[crate::numbers::dec_bytes(cs[q])]
            == crate::numbers::dec_bytes(cs[q]),
    decreases n,
{
    if q < n - 1 {
        lemma_kids_tree_contains(t0, cs, n - 1, q);
    }
}

/// Writing the other buckets' child lists leaves a subtree alone.
proof fn lemma_fold_untouched(
    m: Map<Seq<u8>, Map<Seq<u8>, Seq<u8>>>,
    bs: Seq<Bucket>,
    n: int,
    key: Seq<u8>,
)
    requires
        0 <= n <= bs.len(),
        forall|b: int| 0 <= b < n ==> ino_key((#[trigger] bs[b]).ino) != key,
    ensures
        tree_of(crate::catalog::buckets_tree_fold(m, bs, n), key) == tree_of(m, key),
    decreases n,
{
    if n > 0 {
        lemma_fold_untouched(m, bs, n - 1, key);
    }
}

/// After the child lists are written, a bucket's subtree holds its own
/// children over whatever stood there before.
proof fn lemma_fold_tree_of(m: Map<Seq<u8>, Map<Seq<u8>, Seq<u8>>>, bs: Seq<Bucket>, n: int, b: int)
    requires
        0 <= b < n <= bs.len(),
        bs[b].kids.len() > 0,
        forall|b1: int, b2: int|
            0 <= b1 < b2 < n ==> (#[trigger] bs[b1]).ino != (#[trigger] bs[b2]).ino,
    ensures
        tree_of(crate::catalog::buckets_tree_fold(m, bs, n), ino_key(bs[b].ino))
            == crate::catalog::kids_tree(
            tree_of(m, ino_key(bs[b].ino)),
            bs[b].kids,
            bs[b].kids.len() as int,
        ),
    decreases n,
{
    let key = ino_key(bs[b].ino);
    if b == n - 1 {
        assert forall|b1: int| 0 <= b1 < n - 1 implies ino_key((#[trigger] bs[b1]).ino)
            != key by {
            if ino_key(bs[b1].ino) == key {
                lemma_ino_key_injective(bs[b1].ino, bs[b].ino);
            }
        }
        lemma_fold_untouched(m, bs, n - 1, key);
    } else {
        lemma_fold_tree_of(m, bs, n - 1, b);
        if ino_key(bs[n - 1].ino) == key {
            lemma_ino_key_injective(bs[n - 1].ino, bs[b].ino);
        }
    }
}

/// Children completeness against the store: after an archive with a
/// well-formed listing is indexed, every entry one level below one of its
/// directories stands in the child list that the directory's inode
/// answers with.
pub proof fn lemma_children_in_child_list(
    l: Seq<RawEntryV>,
    start: u64,
    i: int,
    j: int,
    m0: Map<Seq<u8>, Map<Seq<u8>, Seq<u8>>>,
    name: Seq<char>,
    vs: Seq<u64>,
)
    requires
        listing_wf(l),
        dirs_before_children(l),
        start + 1 + l.len() <= u64::MAX,
        0 <= i < l.len(),
        0 <= j < l.len(),
        l[i].is_dir,
        l[j].is_file || l[j].is_dir,
        is_child_of(l[j], l[i].path, entry_level(l[i]) as int),
        inos_match(
            crate::catalog::indexed_trees(m0, name, l, start),
            ((start + 2 + i) as u64),
            vs,
        ),
    ensures
        vs.contains(((start + 2 + j) as u64)),
{
    lemma_children_complete(l, start, i, j);
    let st = state_at(l, start, l.len() as int);
    let bs = st.buckets;
    let ino_d = (start + 2 + i) as u64;
    let ino_e = (start + 2 + j) as u64;
    let b = choose|b: int|
        #![trigger bs[b]]
        {
            &&& 0 <= b < bs.len()
            &&& bs[b].path == l[i].path
            &&& bs[b].ino == ino_d
            &&& bs[b].kids.contains(ino_e)
        };
    lemma_buckets_skeleton(l, start, l.len() as int);
    let sk = bucket_skeleton(l, start, l.len() as int);
    assert forall|b1: int, b2: int| 0 <= b1 < b2 < bs.len() implies (#[trigger] bs[b1]).ino != (
    #[trigger] bs[b2]).ino by {
        lemma_skeleton_root(l, start, l.len() as int);
        if b1 == 0 {
            lemma_skeleton_entry(l, start, l.len() as int, b2);
        } else {
            lemma_skeleton_entry(l, start, l.len() as int, b1);
            lemma_skeleton_entry(l, start, l.len() as int, b2);
            let d1 = choose|di: int|
                0 <= di < l.len() && (#[trigger] l[di]).is_dir && sk[b1] == (
                l[di].path,
                ((start + 2 + di) as u64),
                );
            let d2 = choose|di: int|
                0 <= di < l.len() && (#[trigger] l[di]).is_dir && sk[b2] == (
                l[di].path,
                ((start + 2 + di) as u64),
                );
            if d1 == d2 {
                assert(sk[b1].0 == sk[b2].0);
            }
        }
    }
    let m_mid = with_tree(m0, tar_key(name)).insert(tar_key(name), st.recs);
    let m2 = crate::catalog::indexed_trees(m0, name, l, start);
    lemma_fold_tree_of(m_mid, bs, bs.len() as int, b);
    let q = choose|q: int| 0 <= q < bs[b].kids.len() && bs[b].kids[q] == ino_e;
    lemma_kids_tree_contains(
        tree_of(m_mid, ino_key(ino_d)),
        bs[b].kids,
        bs[b].kids.len() as int,
        q,
    );
    let t = tree_of(m2, ino_key(ino_d));
    assert(t.dom().contains(crate::numbers::dec_bytes(ino_e)));
    assert(t[crate::numbers::dec_bytes(ino_e)] == crate::numbers::dec_bytes(ino_e));
    let ks = choose|ks: Seq<Seq<u8>>|
        #![trigger ks.to_set()]
        {
            &&& ks.to_set() == t.dom()
            &&& ks.no_duplicates()
            &&& forall|i: int, j: int|
                0 <= i < j < ks.len() ==> crate::store::lex_lt(ks[i], ks[j])
            &&& vs.len() == ks.len()
            &&& forall|ii: int|
                0 <= ii < ks.len() ==> Some(#[trigger] vs[ii]) == crate::numbers::spec_parse_u64(
                    t[ks[ii]],
                )
        };
    assert(ks.to_set().contains(crate::numbers::dec_bytes(ino_e)));
    assert(ks.contains(crate::numbers::dec_bytes(ino_e)));
    let idx = choose|idx: int| 0 <= idx < ks.len() && ks[idx] == crate::numbers::dec_bytes(ino_e);
    crate::numbers::lemma_dec_round_trip(ino_e);
    assert(vs[idx] == ino_e);
}

/// Every record a well-formed store holds decodes, and its inode lies
/// between the floor of the entry range and the persisted counter.
pub proof fn lemma_record_inos_bounded(
    m: Map<Seq<u8>, Map<Seq<u8>, Seq<u8>>>,
    d: Map<Seq<u8>, Seq<u8>>,
    nb: Seq<u8>,
    k: Seq<u8>,
)
    requires
        store_inv(m, d),
        m.dom().contains(nb),
        is_tar_name(nb),
        m[nb].dom().contains(k),
    ensures
        spec_decode(m[nb][k]) is Some,
        20000 <= rec_ino(m, nb, k) <= last_ino_of(d),
{
}

/// No two records across all archive subtrees of a well-formed store
/// share an inode.
pub proof fn lemma_inodes_unique(
    m: Map<Seq<u8>, Map<Seq<u8>, Seq<u8>>>,
    d: Map<Seq<u8>, Seq<u8>>,
    nb1: Seq<u8>,
    k1: Seq<u8>,
    nb2: Seq<u8>,
    k2: Seq<u8>,
)
    requires
        store_inv(m, d),
        m.dom().contains(nb1),
        is_tar_name(nb1),
        m[nb1].dom().contains(k1),
        m.dom().contains(nb2),
        is_tar_name(nb2),
        m[nb2].dom().contains(k2),
        nb1 != nb2 || k1 != k2,
    ensures
        rec_ino(m, nb1, k1) != rec_ino(m, nb2, k2),
{
}

/// An archive that was indexed holds at least one record, so any
/// enumeration of its entries is non-empty.
pub proof fn lemma_indexed_entries_nonempty(
    m: Map<Seq<u8>, Map<Seq<u8>, Seq<u8>>>,
    name: Seq<char>,
    fs: Seq<FileV>,
)
    requires
        entries_match(m, name, fs),
        tree_nonempty(m, tar_key(name)),
    ensures
        fs.len() > 0,
{
    let t = tree_of(m, tar_key(name));
    let ks = choose|ks: Seq<Seq<u8>>|
        #![trigger ks.to_set()]
        {
            &&& ks.to_set() == t.dom()
            &&& ks.no_duplicates()
            &&& forall|i: int, j: int|
                0 <= i < j < ks.len() ==> crate::store::lex_lt(ks[i], ks[j])
            &&& fs.len() == ks.len()
            &&& forall|i: int|
                0 <= i < ks.len() ==> spec_decode(t[ks[i]]) == Some(#[trigger] fs[i])
        };
    let w = choose|k: Seq<u8>| t.dom().contains(k);
    assert(ks.to_set().contains(w));
    assert(ks.contains(w));
}

/// After an archive's subtree is dropped, the archive is no longer
/// indexed, and any enumeration of its entries is empty.
pub proof fn lemma_burn_clears(
    m: Map<Seq<u8>, Map<Seq<u8>, Seq<u8>>>,
    name: Seq<char>,
    fs: Seq<FileV>,
)
    requires
        entries_match(m.remove(tar_key(name)), name, fs),
    ensures
        !tree_nonempty(m.remove(tar_key(name)), tar_key(name)),
        fs.len() == 0,
{
    let m1 = m.remove(tar_key(name));
    assert(!tree_nonempty(m1, tar_key(name))) by {
        if tree_nonempty(m1, tar_key(name)) {
            let k = choose|k: Seq<u8>| tree_of(m1, tar_key(name)).dom().contains(k);
            assert(tree_of(m1, tar_key(name)) == Map::<Seq<u8>, Seq<u8>>::empty());
        }
    }
    let t = tree_of(m1, tar_key(name));
    let ks = choose|ks: Seq<Seq<u8>>|
        #![trigger ks.to_set()]
        {
            &&& ks.to_set() == t.dom()
            &&& ks.no_duplicates()
            &&& forall|i: int, j: int|
                0 <= i < j < ks.len() ==> crate::store::lex_lt(ks[i], ks[j])
            &&& fs.len() == ks.len()
            &&& forall|i: int|
                0 <= i < ks.len() ==> spec_decode(t[ks[i]]) == Some(#[trigger] fs[i])
        };
    if fs.len() > 0 {
        assert(ks.to_set().contains(ks[0]));
        assert(t.dom().contains(ks[0]));
        assert(t == Map::<Seq<u8>, Seq<u8>>::empty());
    }
}

/// Cataloguing an archive that is already indexed leaves the store as it
/// stands: opening its subtree changes nothing, because the subtree is
/// there.
pub proof fn lemma_reindex_keeps_store(m: Map<Seq<u8>, Map<Seq<u8>, Seq<u8>>>, name: Seq<char>)
    requires
        tree_nonempty(m, tar_key(name)),
    ensures
        with_tree(m, tar_key(name)) == m,
{
    if !m.dom().contains(tar_key(name)) {
        let k = choose|k: Seq<u8>| tree_of(m, tar_key(name)).dom().contains(k);
        assert(tree_of(m, tar_key(name)) == Map::<Seq<u8>, Seq<u8>>::empty());
    }
}

/// The default keyspace's own subtree name never stands for an archive.
pub proof fn lemma_default_tree_not_catalogued()
    ensures
        catalog_of_name(default_tree_id()) is None,
        !is_tar_name(default_tree_id()),
{
    reveal_strlit("__sled__default");
    reveal_strlit("tar::");
    assert(vstd::utf8::is_ascii_chars("__sled__default"@));
    assert(vstd::utf8::is_ascii_chars("tar::"@));
    vstd::utf8::is_ascii_chars_encode_utf8("__sled__default"@);
    vstd::utf8::is_ascii_chars_encode_utf8("tar::"@);
    if is_tar_name(default_tree_id()) {
        assert(default_tree_id().subrange(0, tar_prefix_bytes().len() as int)[0]
            == tar_prefix_bytes()[0]);
        assert(default_tree_id()[0] == '_' as u8);
        assert(tar_prefix_bytes()[0] == 't' as u8);
    }
}

/// An archive's subtree name determines the archive.
proof fn lemma_tar_key_injective(n1: Seq<char>, n2: Seq<char>)
    requires
        tar_key(n1) == tar_key(n2),
    ensures
        n1 == n2,
{
    broadcast use vstd::utf8::encode_utf8_decode_utf8;

    let pre = "tar::"@;
    assert(vstd::utf8::decode_utf8(tar_key(n1)) == pre + n1);
    assert(vstd::utf8::decode_utf8(tar_key(n2)) == pre + n2);
    assert(n1 =~= (pre + n1).skip(pre.len() as int));
    assert(n2 =~= (pre + n2).skip(pre.len() as int));
}

/// After a successful indexing pass over a non-empty listing the archive
/// is indexed, and every enumeration of its records is non-empty.
pub proof fn lemma_catalog_success_indexed(
    m0: Map<Seq<u8>, Map<Seq<u8>, Seq<u8>>>,
    name: Seq<char>,
    l: Seq<RawEntryV>,
    start: u64,
)
    requires
        l.len() > 0,
    ensures
        tree_nonempty(indexed_trees(m0, name, l, start), tar_key(name)),
        forall|fs: Seq<FileV>|
            #[trigger] entries_match(indexed_trees(m0, name, l, start), name, fs) ==> fs.len()
                > 0,
{
    let tk = tar_key(name);
    let st = state_at(l, start, l.len() as int);
    let m_mid = with_tree(m0, tk).insert(tk, st.recs);
    let m2 = indexed_trees(m0, name, l, start);
    lemma_tar_key_is_tar(name);
    lemma_buckets_fold_tar(m_mid, st.buckets, st.buckets.len() as int, tk);
    assert(st == crate::catalog::index_step(state_at(l, start, l.len() - 1), l[l.len() - 1]));
    assert(st.recs.dom().contains(vstd::utf8::encode_utf8(l[l.len() - 1].path)));
    assert(tree_of(m2, tk) == st.recs);
    assert(tree_nonempty(m2, tk));
    assert forall|fs: Seq<FileV>| #[trigger] entries_match(m2, name, fs) implies fs.len()
        > 0 by {
        lemma_indexed_entries_nonempty(m2, name, fs);
    }
}

/// Every enumerated entry of a well-formed store carries an inode between
/// the floor of the entry range and the persisted counter.
pub proof fn lemma_entries_inos_bounded(
    m: Map<Seq<u8>, Map<Seq<u8>, Seq<u8>>>,
    d: Map<Seq<u8>, Seq<u8>>,
    name: Seq<char>,
    fs: Seq<FileV>,
)
    requires
        store_inv(m, d),
        entries_match(m, name, fs),
    ensures
        forall|q: int| 0 <= q < fs.len() ==> 20000 <= (#[trigger] fs[q]).ino <= last_ino_of(d),
{
    let tk = tar_key(name);
    let t = tree_of(m, tk);
    lemma_tar_key_is_tar(name);
    let ks = choose|ks: Seq<Seq<u8>>|
        #![trigger ks.to_set()]
        {
            &&& ks.to_set() == t.dom()
            &&& ks.no_duplicates()
            &&& forall|i: int, j: int|
                0 <= i < j < ks.len() ==> crate::store::lex_lt(ks[i], ks[j])
            &&& fs.len() == ks.len()
            &&& forall|i: int|
                0 <= i < ks.len() ==> spec_decode(t[ks[i]]) == Some(#[trigger] fs[i])
        };
    assert forall|q: int| 0 <= q < fs.len() implies 20000 <= (#[trigger] fs[q]).ino
        <= last_ino_of(d) by {
        assert(ks.to_set().contains(ks[q]));
        assert(t.dom().contains(ks[q]));
        assert(m.dom().contains(tk));
        assert(m[tk].dom().contains(ks[q]));
        assert(rec_ino(m, tk, ks[q]) == fs[q].ino);
    }
}

/// Two different positions of one archive's enumeration carry different
/// inodes: distinct records never share an inode.
pub proof fn lemma_enumeration_inos_unique(
    m: Map<Seq<u8>, Map<Seq<u8>, Seq<u8>>>,
    d: Map<Seq<u8>, Seq<u8>>,
    name: Seq<char>,
    fs: Seq<FileV>,
    q1: int,
    q2: int,
)
    requires
        store_inv(m, d),
        entries_match(m, name, fs),
        0 <= q1 < q2 < fs.len(),
    ensures
        fs[q1].ino != fs[q2].ino,
{
    let tk = tar_key(name);
    let t = tree_of(m, tk);
    lemma_tar_key_is_tar(name);
    let ks = choose|ks: Seq<Seq<u8>>|
        #![trigger ks.to_set()]
        {
            &&& ks.to_set() == t.dom()
            &&& ks.no_duplicates()
            &&& forall|i: int, j: int|
                0 <= i < j < ks.len() ==> crate::store::lex_lt(ks[i], ks[j])
            &&& fs.len() == ks.len()
            &&& forall|i: int|
                0 <= i < ks.len() ==> spec_decode(t[ks[i]]) == Some(#[trigger] fs[i])
        };
    assert(ks.to_set().contains(ks[q1]));
    assert(t.dom().contains(ks[q1]));
    assert(m.dom().contains(tk));
    assert(ks[q1] != ks[q2]);
    assert(rec_ino(m, tk, ks[q1]) == fs[q1].ino);
    assert(rec_ino(m, tk, ks[q2]) == fs[q2].ino);
}

/// Enumerated entries of two different archives never share an inode.
pub proof fn lemma_cross_archive_inos_unique(
    m: Map<Seq<u8>, Map<Seq<u8>, Seq<u8>>>,
    d: Map<Seq<u8>, Seq<u8>>,
    n1: Seq<char>,
    fs1: Seq<FileV>,
    q1: int,
    n2: Seq<char>,
    fs2: Seq<FileV>,
    q2: int,
)
    requires
        store_inv(m, d),
        entries_match(m, n1, fs1),
        entries_match(m, n2, fs2),
        0 <= q1 < fs1.len(),
        0 <= q2 < fs2.len(),
        n1 != n2,
    ensures
        fs1[q1].ino != fs2[q2].ino,
{
    let tk1 = tar_key(n1);
    let tk2 = tar_key(n2);
    lemma_tar_key_is_tar(n1);
    lemma_tar_key_is_tar(n2);
    if tk1 == tk2 {
        lemma_tar_key_injective(n1, n2);
    }
    let t1 = tree_of(m, tk1);
    let t2 = tree_of(m, tk2);
    let ks1 = choose|ks: Seq<Seq<u8>>|
        #![trigger ks.to_set()]
        {
            &&& ks.to_set() == t1.dom()
            &&& ks.no_duplicates()
            &&& forall|i: int, j: int|
                0 <= i < j < ks.len() ==> crate::store::lex_lt(ks[i], ks[j])
            &&& fs1.len() == ks.len()
            &&& forall|i: int|
                0 <= i < ks.len() ==> spec_decode(t1[ks[i]]) == Some(#[trigger] fs1[i])
        };
    let ks2 = choose|ks: Seq<Seq<u8>>|
        #![trigger ks.to_set()]
        {
            &&& ks.to_set() == t2.dom()
            &&& ks.no_duplicates()
            &&& forall|i: int, j: int|
                0 <= i < j < ks.len() ==> crate::store::lex_lt(ks[i], ks[j])
            &&& fs2.len() == ks.len()
            &&& forall|i: int|
                0 <= i < ks.len() ==> spec_decode(t2[ks[i]]) == Some(#[trigger] fs2[i])
        };
    assert(ks1.to_set().contains(ks1[q1]));
    assert(t1.dom().contains(ks1[q1]));
    assert(m.dom().contains(tk1));
    assert(ks2.to_set().contains(ks2[q2]));
    assert(t2.dom().contains(ks2[q2]));
    assert(m.dom().contains(tk2));
    assert(rec_ino(m, tk1, ks1[q1]) == fs1[q1].ino);
    assert(rec_ino(m, tk2, ks2[q2]) == fs2[q2].ino);
}

/// An entry whose strings have bounded encodings; every entry an archive
/// hands the indexer satisfies this on a real machine.
pub open spec fn entry_sized(e: RawEntryV) -> bool {
    &&& vstd::utf8::encode_utf8(e.path).len() <= u64::MAX
    &&& vstd::utf8::encode_utf8(entry_leaf(e)).len() <= u64::MAX
}

/// Every record an indexing pass writes decodes, with an inode strictly
/// above the counter the pass started from.
proof fn lemma_recs_inos_fresh(l: Seq<RawEntryV>, start: u64, n: int)
    requires
        listing_ok(l),
        forall|i: int| 0 <= i < l.len() ==> entry_sized(#[trigger] l[i]),
        0 <= n <= l.len(),
        start + 1 + l.len() <= u64::MAX,
    ensures
        forall|kk: Seq<u8>|
            #[trigger] state_at(l, start, n).recs.dom().contains(kk) ==> {
                &&& spec_decode(state_at(l, start, n).recs[kk]) is Some
                &&& start + 2 <= spec_decode(state_at(l, start, n).recs[kk])->Some_0.ino <= start
                    + 1 + n
            },
    decreases n,
{
    if n > 0 {
        lemma_recs_inos_fresh(l, start, n - 1);
        lemma_state_next(l, start, n - 1);
        let st_pre = state_at(l, start, n - 1);
        let e = l[n - 1];
        let ino = (st_pre.next + 1) as u64;
        let fv = entry_file(e, ino);
        lemma_codec_round_trip(fv);
        assert(state_at(l, start, n).recs == st_pre.recs.insert(
            vstd::utf8::encode_utf8(e.path),
            spec_encode(fv),
        ));
    }
}

/// Re-cataloguing after a burn hands out strictly fresh inodes: every
/// entry of the new pass sits above every entry any archive held before.
pub proof fn lemma_recatalog_fresh_inos(
    m0: Map<Seq<u8>, Map<Seq<u8>, Seq<u8>>>,
    d0: Map<Seq<u8>, Seq<u8>>,
    name: Seq<char>,
    l: Seq<RawEntryV>,
    start: u64,
    n_old: Seq<char>,
    fs_old: Seq<FileV>,
    q_old: int,
    fs_new: Seq<FileV>,
    q_new: int,
)
    requires
        store_inv(m0, d0),
        start == last_ino_of(d0),
        listing_ok(l),
        forall|i: int| 0 <= i < l.len() ==> entry_sized(#[trigger] l[i]),
        start + 1 + l.len() <= u64::MAX,
        entries_match(m0, n_old, fs_old),
        0 <= q_old < fs_old.len(),
        entries_match(indexed_trees(m0, name, l, start), name, fs_new),
        0 <= q_new < fs_new.len(),
    ensures
        fs_new[q_new].ino > fs_old[q_old].ino,
{
    lemma_entries_inos_bounded(m0, d0, n_old, fs_old);
    let tk = tar_key(name);
    let st = state_at(l, start, l.len() as int);
    let m_mid = with_tree(m0, tk).insert(tk, st.recs);
    let m2 = indexed_trees(m0, name, l, start);
    lemma_tar_key_is_tar(name);
    lemma_buckets_fold_tar(m_mid, st.buckets, st.buckets.len() as int, tk);
    assert(tree_of(m2, tk) == st.recs);
    lemma_recs_inos_fresh(l, start, l.len() as int);
    let t = tree_of(m2, tk);
    let ks = choose|ks: Seq<Seq<u8>>|
        #![trigger ks.to_set()]
        {
            &&& ks.to_set() == t.dom()
            &&& ks.no_duplicates()
            &&& forall|i: int, j: int|
                0 <= i < j < ks.len() ==> crate::store::lex_lt(ks[i], ks[j])
            &&& fs_new.len() == ks.len()
            &&& forall|i: int|
                0 <= i < ks.len() ==> spec_decode(t[ks[i]]) == Some(#[trigger] fs_new[i])
        };
    assert(ks.to_set().contains(ks[q_new]));
    assert(st.recs.dom().contains(ks[q_new]));
    assert(fs_new[q_new].ino >= start + 2);
}

/// Over a store with no subtrees the catalog lists nothing: `readdir` at
/// the mount root answers with the two dot entries alone.
pub proof fn lemma_empty_store_lists_nothing(ns: Seq<Seq<u8>>)
    requires
        names_enum(Map::<Seq<u8>, Map<Seq<u8>, Seq<u8>>>::empty(), ns),
    ensures
        cats_of(ns) == Seq::<crate::entry::FileTarV>::empty(),
{
    let d = default_tree_id();
    assert(ns.to_set() == Set::<Seq<u8>>::empty().insert(d));
    assert(ns.contains(d)) by {
        assert(ns.to_set().contains(d));
    }
    assert(ns.len() >= 1);
    assert(ns.len() == 1) by {
        if ns.len() >= 2 {
            assert(ns.to_set().contains(ns[0]));
            assert(ns.to_set().contains(ns[1]));
            assert(ns[0] == d && ns[1] == d);
        }
    }
    assert(ns[0] == d) by {
        assert(ns.to_set().contains(ns[0]));
    }
    assert(ns =~= seq![d]);
    lemma_default_tree_not_catalogued();
    assert(ns.drop_last() =~= Seq::<Seq<u8>>::empty());
    assert(ns.last() == d);
    assert(cats_of(Seq::<Seq<u8>>::empty()) == Seq::<crate::entry::FileTarV>::empty());
    assert(cats_of(ns) =~= Seq::<crate::entry::FileTarV>::empty());
}

} // verus!
