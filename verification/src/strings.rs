//! Verified character-level string utilities.
//!
//! Paths of archive members and archive file names are plain strings here;
//! these functions give exact contracts to the string operations the catalog
//! and the query surface rely on: substring search, prefix and suffix tests,
//! slash counting and removal, and extraction of a path's leaf name.

use vstd::prelude::*;

verus! {

/// `needle` occurs in `hay` starting at position `i`.
pub open spec fn occurs_at(hay: Seq<char>, needle: Seq<char>, i: int) -> bool {
    0 <= i && i + needle.len() <= hay.len() && hay.subrange(i, i + needle.len()) == needle
}

/// `needle` occurs somewhere in `hay`.
pub open spec fn spec_contains(hay: Seq<char>, needle: Seq<char>) -> bool {
    exists|i: int| occurs_at(hay, needle, i)
}

/// `p` is a prefix of `s`.
pub open spec fn is_prefix(s: Seq<char>, p: Seq<char>) -> bool {
    p.len() <= s.len() && s.subrange(0, p.len() as int) == p
}

/// `p` is a suffix of `s`.
pub open spec fn is_suffix(s: Seq<char>, p: Seq<char>) -> bool {
    p.len() <= s.len() && s.subrange(s.len() - p.len(), s.len() as int) == p
}

/// How many times the character `c` appears in `s`.
pub open spec fn count_char(s: Seq<char>, c: char) -> nat
    decreases s.len(),
{
    if s.len() == 0 {
        0
    } else {
        count_char(s.drop_last(), c) + if s.last() == c {
            1nat
        } else {
            0nat
        }
    }
}

/// `s` with every `/` removed.
pub open spec fn sans_slashes(s: Seq<char>) -> Seq<char>
    decreases s.len(),
{
    if s.len() == 0 {
        s
    } else if s.last() == '/' {
        sans_slashes(s.drop_last())
    } else {
        sans_slashes(s.drop_last()).push(s.last())
    }
}

/// `s` with every trailing `/` removed.
pub open spec fn trim_trailing_slashes(s: Seq<char>) -> Seq<char>
    decreases s.len(),
{
    if s.len() > 0 && s.last() == '/' {
        trim_trailing_slashes(s.drop_last())
    } else {
        s
    }
}

/// The characters of `s` after its last `/` (all of `s` when it has none).
pub open spec fn last_component(s: Seq<char>) -> Seq<char>
    decreases s.len(),
{
    if s.len() == 0 {
        s
    } else if s.last() == '/' {
        Seq::empty()
    } else {
        last_component(s.drop_last()).push(s.last())
    }
}

/// The leaf name of a path: the last component once trailing slashes are
/// dropped; none when nothing remains or the component is `.` or `..`.
pub open spec fn spec_leaf(s: Seq<char>) -> Option<Seq<char>> {
    let t = trim_trailing_slashes(s);
    if t.len() == 0 {
        None
    } else {
        let l = last_component(t);
        if l == seq!['.'] || l == seq!['.', '.'] {
            None
        } else {
            Some(l)
        }
    }
}

/// Trimming trailing slashes leaves a prefix.
pub proof fn lemma_trim_prefix(s: Seq<char>)
    ensures
        trim_trailing_slashes(s).len() <= s.len(),
        trim_trailing_slashes(s) == s.subrange(0, trim_trailing_slashes(s).len() as int),
        trim_trailing_slashes(s).len() > 0 ==> trim_trailing_slashes(s).last() != '/',
    decreases s.len(),
{
    if s.len() > 0 && s.last() == '/' {
        lemma_trim_prefix(s.drop_last());
        assert(s.drop_last() =~= s.subrange(0, s.len() - 1));
        assert(trim_trailing_slashes(s) =~= s.subrange(
            0,
            trim_trailing_slashes(s).len() as int,
        ));
    } else {
        assert(s =~= s.subrange(0, s.len() as int));
    }
}

/// The last component of a string not ending in `/` is its suffix.
pub proof fn lemma_last_component_suffix(t: Seq<char>)
    requires
        t.len() > 0,
        t.last() != '/',
    ensures
        1 <= last_component(t).len() <= t.len(),
        last_component(t) == t.subrange(t.len() - last_component(t).len(), t.len() as int),
    decreases t.len(),
{
    let d = t.drop_last();
    if d.len() == 0 || d.last() == '/' {
        assert(last_component(t) =~= t.subrange(t.len() - 1, t.len() as int));
    } else {
        lemma_last_component_suffix(d);
        let ll = last_component(d).len() as int;
        assert(last_component(d) == d.subrange(d.len() - ll, d.len() as int));
        assert(last_component(t) =~= t.subrange(t.len() - (ll + 1), t.len() as int));
    }
}

/// A path's leaf occurs in the path.
pub proof fn lemma_leaf_occurs(s: Seq<char>)
    requires
        spec_leaf(s) is Some,
    ensures
        occurs_at(
            s,
            spec_leaf(s)->Some_0,
            trim_trailing_slashes(s).len() - spec_leaf(s)->Some_0.len(),
        ),
{
    let t = trim_trailing_slashes(s);
    let l = spec_leaf(s)->Some_0;
    lemma_trim_prefix(s);
    assert(t.len() > 0);
    lemma_last_component_suffix(t);
    assert(s.subrange(t.len() - l.len(), t.len() as int) =~= l);
}

/// Counting a character distributes over concatenation.
pub proof fn lemma_count_char_concat(a: Seq<char>, b: Seq<char>, c: char)
    ensures
        count_char(a + b, c) == count_char(a, c) + count_char(b, c),
    decreases b.len(),
{
    if b.len() == 0 {
        assert(a + b =~= a);
    } else {
        lemma_count_char_concat(a, b.drop_last(), c);
        assert((a + b).drop_last() =~= a + b.drop_last());
        assert((a + b).last() == b.last());
    }
}

/// A string has count zero for a character exactly when it never holds it.
pub proof fn lemma_count_char_zero(s: Seq<char>, c: char)
    ensures
        (count_char(s, c) == 0) == (forall|q: int| 0 <= q < s.len() ==> s[q] != c),
    decreases s.len(),
{
    if s.len() > 0 {
        lemma_count_char_zero(s.drop_last(), c);
        if count_char(s, c) == 0 {
            assert forall|q: int| 0 <= q < s.len() implies s[q] != c by {
                if q < s.len() - 1 {
                    assert(s.drop_last()[q] == s[q]);
                }
            }
        } else {
            if forall|q: int| 0 <= q < s.len() ==> s[q] != c {
                assert(s.last() != c);
                assert forall|q: int| 0 <= q < s.drop_last().len() implies s.drop_last()[q]
                    != c by {
                    assert(s.drop_last()[q] == s[q]);
                }
            }
        }
    }
}

/// After a slash, a slash-free run is the last component.
pub proof fn lemma_lc_concat(a: Seq<char>, b: Seq<char>)
    requires
        a.len() >= 1,
        a.last() == '/',
        forall|q: int| 0 <= q < b.len() ==> b[q] != '/',
    ensures
        last_component(a + b) == b,
    decreases b.len(),
{
    if b.len() == 0 {
        assert(a + b =~= a);
        assert(last_component(a) =~= b);
    } else {
        lemma_lc_concat(a, b.drop_last());
        assert forall|q: int| 0 <= q < b.drop_last().len() implies b.drop_last()[q] != '/' by {
            assert(b.drop_last()[q] == b[q]);
        }
        assert((a + b).drop_last() =~= a + b.drop_last());
        assert((a + b).last() == b.last());
        assert(last_component(a + b) =~= b);
    }
}

/// A path ending in exactly one slash loses just that slash when trimmed.
pub proof fn lemma_trim_one_slash(s: Seq<char>)
    requires
        s.len() >= 1,
        s.last() == '/',
        s.len() >= 2 ==> s[s.len() - 2] != '/',
    ensures
        trim_trailing_slashes(s) == s.drop_last(),
{
    if s.len() == 1 {
        assert(s.drop_last() =~= Seq::<char>::empty());
        assert(trim_trailing_slashes(s.drop_last()) == s.drop_last());
    } else {
        assert(s.drop_last().last() == s[s.len() - 2]);
        assert(trim_trailing_slashes(s.drop_last()) == s.drop_last());
    }
}

/// A suffix's last occurrence is at the end.
pub proof fn lemma_rfind_suffix(h: Seq<char>, n: Seq<char>)
    requires
        n.len() >= 1,
        n.len() <= h.len(),
        h.subrange(h.len() - n.len(), h.len() as int) == n,
    ensures
        spec_rfind(h, n) == Some(h.len() - n.len()),
{
    assert(occurs_at(h, n, h.len() - n.len()));
}

/// The last position `<= from` where `needle` occurs in `hay`.
pub open spec fn rfind_from(hay: Seq<char>, needle: Seq<char>, from: int) -> Option<int>
    decreases from + 1 when from >= -1
{
    if from < 0 {
        None
    } else if occurs_at(hay, needle, from) {
        Some(from)
    } else {
        rfind_from(hay, needle, from - 1)
    }
}

/// The position of the last occurrence of `needle` in `hay`.
pub open spec fn spec_rfind(hay: Seq<char>, needle: Seq<char>) -> Option<int> {
    if needle.len() > hay.len() {
        None
    } else {
        rfind_from(hay, needle, hay.len() - needle.len())
    }
}

/// A maximal occurrence is what the backward search finds.
pub proof fn lemma_rfind_from_some(hay: Seq<char>, needle: Seq<char>, from: int, i: int)
    requires
        -1 <= from,
        i <= from,
        occurs_at(hay, needle, i),
        forall|j: int| i < j <= from ==> !occurs_at(hay, needle, j),
    ensures
        rfind_from(hay, needle, from) == Some(i),
    decreases from + 1,
{
    if from > i {
        lemma_rfind_from_some(hay, needle, from - 1, i);
    }
}

/// Where nothing occurs, the backward search finds nothing.
pub proof fn lemma_rfind_from_none(hay: Seq<char>, needle: Seq<char>, from: int)
    requires
        -1 <= from,
        forall|j: int| 0 <= j <= from ==> !occurs_at(hay, needle, j),
    ensures
        rfind_from(hay, needle, from) is None,
    decreases from + 1,
{
    if from >= 0 {
        lemma_rfind_from_none(hay, needle, from - 1);
    }
}

/// Character-by-character equality of two string slices.
pub fn str_eq(a: &str, b: &str) -> (r: bool)
    ensures
        r == (a@ == b@),
{
    let la = a.unicode_len();
    let lb = b.unicode_len();
    if la != lb {
        return false;
    }
    let mut i: usize = 0;
    while i < la
        invariant
            0 <= i <= la,
            la == a@.len(),
            la == b@.len(),
            forall|k: int| 0 <= k < i ==> a@[k] == b@[k],
        decreases la - i,
    {
        if a.get_char(i) != b.get_char(i) {
            return false;
        }
        i = i + 1;
    }
    proof {
        assert(a@ =~= b@);
    }
    true
}

/// Whether `p` is a prefix of `s`.
pub fn str_starts_with(s: &str, p: &str) -> (r: bool)
    ensures
        r == is_prefix(s@, p@),
{
    let ls = s.unicode_len();
    let lp = p.unicode_len();
    if lp > ls {
        return false;
    }
    let head = s.substring_char(0, lp);
    str_eq(head, p)
}

/// Whether `p` is a suffix of `s`.
pub fn str_ends_with(s: &str, p: &str) -> (r: bool)
    ensures
        r == is_suffix(s@, p@),
{
    let ls = s.unicode_len();
    let lp = p.unicode_len();
    if lp > ls {
        return false;
    }
    let tail = s.substring_char(ls - lp, ls);
    str_eq(tail, p)
}

/// Whether `needle` occurs in `hay` starting exactly at `i`.
fn matches_at(hay: &str, needle: &str, i: usize) -> (r: bool)
    requires
        i + needle@.len() <= hay@.len(),
        hay@.len() <= usize::MAX,
    ensures
        r == occurs_at(hay@, needle@, i as int),
{
    let part = hay.substring_char(i, i + needle.unicode_len());
    str_eq(part, needle)
}

/// The position of the last occurrence of `needle` in `hay`.
pub fn str_rfind(hay: &str, needle: &str) -> (r: Option<usize>)
    ensures
        match r {
            Some(i) => {
                &&& occurs_at(hay@, needle@, i as int)
                &&& forall|j: int| i < j ==> !occurs_at(hay@, needle@, j)
                &&& spec_rfind(hay@, needle@) == Some(i as int)
            },
            None => (forall|j: int| !occurs_at(hay@, needle@, j)) && spec_rfind(
                hay@,
                needle@,
            ) is None,
        },
{
    let lh = hay.unicode_len();
    let ln = needle.unicode_len();
    if ln > lh {
        proof {
            assert forall|j: int| !occurs_at(hay@, needle@, j) by {}
        }
        return None;
    }
    let mut i: usize = lh - ln;
    loop
        invariant
            0 <= i <= lh - ln,
            ln <= lh,
            lh == hay@.len(),
            ln == needle@.len(),
            forall|j: int| i < j ==> !occurs_at(hay@, needle@, j),
        decreases i + 1,
    {
        if matches_at(hay, needle, i) {
            proof {
                lemma_rfind_from_some(hay@, needle@, hay@.len() - needle@.len(), i as int);
            }
            return Some(i);
        }
        if i == 0 {
            proof {
                assert forall|j: int| 0 <= j <= hay@.len() - needle@.len() implies !occurs_at(
                    hay@,
                    needle@,
                    j,
                ) by {}
                lemma_rfind_from_none(hay@, needle@, hay@.len() - needle@.len());
                assert forall|j: int| !occurs_at(hay@, needle@, j) by {
                    if occurs_at(hay@, needle@, j) {
                        assert(0 <= j && j + needle@.len() <= hay@.len());
                    }
                }
            }
            return None;
        }
        i = i - 1;
    }
}

/// Whether `needle` occurs anywhere in `hay`.
pub fn str_contains(hay: &str, needle: &str) -> (r: bool)
    ensures
        r == spec_contains(hay@, needle@),
{
    match str_rfind(hay, needle) {
        Some(_) => true,
        None => false,
    }
}

/// Counts the occurrences of the character `c` in `s`.
pub fn count_char_in(s: &str, c: char) -> (r: usize)
    ensures
        r == count_char(s@, c),
{
    let l = s.unicode_len();
    let mut i: usize = 0;
    let mut cnt: usize = 0;
    while i < l
        invariant
            0 <= i <= l,
            l == s@.len(),
            cnt <= i,
            cnt == count_char(s@.subrange(0, i as int), c),
        decreases l - i,
    {
        proof {
            assert(s@.subrange(0, i + 1).drop_last() =~= s@.subrange(0, i as int));
        }
        if s.get_char(i) == c {
            cnt = cnt + 1;
        }
        i = i + 1;
    }
    proof {
        assert(s@.subrange(0, i as int) =~= s@);
    }
    cnt
}

/// Copies `s`, removing every `/`.
pub fn remove_slashes(s: &str) -> (r: String)
    ensures
        r@ == sans_slashes(s@),
{
    let l = s.unicode_len();
    let mut out = String::new();
    let mut seg: usize = 0;
    let mut i: usize = 0;
    while i < l
        invariant
            0 <= seg <= i <= l,
            l == s@.len(),
            forall|k: int| seg <= k < i ==> s@[k] != '/',
            sans_slashes(s@.subrange(0, i as int)) == out@ + s@.subrange(seg as int, i as int),
        decreases l - i,
    {
        proof {
            assert(s@.subrange(0, i + 1).drop_last() =~= s@.subrange(0, i as int));
        }
        if s.get_char(i) == '/' {
            out.append(s.substring_char(seg, i));
            seg = i + 1;
            proof {
                assert(sans_slashes(s@.subrange(0, i + 1)) =~= out@ + s@.subrange(
                    seg as int,
                    i + 1,
                ));
            }
        } else {
            proof {
                assert(s@.subrange(seg as int, i + 1) =~= s@.subrange(seg as int, i as int).push(
                    s@[i as int],
                ));
                assert(sans_slashes(s@.subrange(0, i + 1)) =~= out@ + s@.subrange(
                    seg as int,
                    i + 1,
                ));
            }
        }
        i = i + 1;
    }
    out.append(s.substring_char(seg, l));
    proof {
        assert(s@.subrange(0, l as int) =~= s@);
    }
    out
}

/// The leaf name of `path`, by the rule of [`spec_leaf`].
pub fn leaf_of(path: &str) -> (r: Option<String>)
    ensures
        match r {
            Some(l) => spec_leaf(path@) == Some(l@),
            None => spec_leaf(path@) is None,
        },
{
    let l = path.unicode_len();
    let mut e: usize = l;
    proof {
        assert(path@.subrange(0, l as int) =~= path@);
    }
    while e > 0 && path.get_char(e - 1) == '/'
        invariant
            0 <= e <= l,
            l == path@.len(),
            trim_trailing_slashes(path@) == trim_trailing_slashes(path@.subrange(0, e as int)),
        decreases e,
    {
        proof {
            assert(path@.subrange(0, e as int).drop_last() =~= path@.subrange(0, e - 1));
        }
        e = e - 1;
    }
    proof {
        assert(path@.subrange(0, e as int) == trim_trailing_slashes(path@.subrange(0, e as int)));
    }
    if e == 0 {
        return None;
    }
    let ghost t = path@.subrange(0, e as int);
    let mut b: usize = e;
    proof {
        assert(t.subrange(0, e as int) =~= t);
        assert(t.subrange(e as int, e as int) =~= Seq::<char>::empty());
        assert(last_component(t) + Seq::<char>::empty() =~= last_component(t));
    }
    while b > 0 && path.get_char(b - 1) != '/'
        invariant
            0 <= b <= e <= l,
            l == path@.len(),
            t == path@.subrange(0, e as int),
            t.len() == e,
            forall|k: int| b <= k < e ==> path@[k] != '/',
            last_component(t) == last_component(t.subrange(0, b as int)) + t.subrange(
                b as int,
                e as int,
            ),
        decreases b,
    {
        proof {
            assert(t.subrange(0, b as int).drop_last() =~= t.subrange(0, b - 1));
            assert(t.subrange(0, b as int).last() == t[b - 1]);
            assert(last_component(t.subrange(0, b as int)) == last_component(
                t.subrange(0, b - 1),
            ).push(t[b - 1]));
            assert(last_component(t.subrange(0, b - 1)) + t.subrange(b - 1, e as int)
                =~= last_component(t.subrange(0, b as int)) + t.subrange(b as int, e as int));
        }
        b = b - 1;
    }
    proof {
        if b > 0 {
            assert(t.subrange(0, b as int).last() == '/');
            assert(last_component(t.subrange(0, b as int)) =~= Seq::<char>::empty());
        } else {
            assert(t.subrange(0, b as int) =~= Seq::<char>::empty());
        }
        assert(last_component(t) =~= t.subrange(b as int, e as int));
        assert(t.subrange(b as int, e as int) =~= path@.subrange(b as int, e as int));
    }
    let comp = path.substring_char(b, e);
    proof {
        reveal_strlit(".");
        reveal_strlit("..");
    }
    if str_eq(comp, ".") || str_eq(comp, "..") {
        proof {
            assert(seq!['.'] =~= "."@);
            assert(seq!['.', '.'] =~= ".."@);
        }
        return None;
    }
    proof {
        assert(comp@ != seq!['.'] && comp@ != seq!['.', '.']) by {
            assert(seq!['.'] =~= "."@);
            assert(seq!['.', '.'] =~= ".."@);
        }
    }
    Some(comp.to_owned())
}

} // verus!
