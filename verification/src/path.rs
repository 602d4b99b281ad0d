//! Paths as text.
//!
//! A path is a sequence of characters. Both `/` and `\` separate components,
//! as on Windows. A path is absolute when it starts with a separator or with a
//! drive letter, a colon and a separator (`C:/`); that leading part is its root.
//! New components are joined with `/`.
use vstd::prelude::*;
use crate::text::{chars_of, string_of};

verus! {

pub open spec fn is_sep(c: char) -> bool {
    c == '/' || c == '\\'
}

pub open spec fn is_drive_letter(c: char) -> bool {
    ('a' <= c <= 'z') || ('A' <= c <= 'Z')
}

/// Length of the root of `p`: 1 for `/x`, 3 for `C:/x`, 0 for a relative path.
pub open spec fn root_len(p: Seq<char>) -> nat {
    if p.len() >= 1 && is_sep(p[0]) {
        1
    } else if p.len() >= 3 && is_drive_letter(p[0]) && p[1] == ':' && is_sep(p[2]) {
        3
    } else {
        0
    }
}

pub open spec fn is_absolute(p: Seq<char>) -> bool {
    root_len(p) > 0
}

/// `p` without the separators that end it, the root excepted.
pub open spec fn trim_trailing_seps(p: Seq<char>) -> Seq<char>
    decreases p.len(),
{
    if p.len() > root_len(p) && is_sep(p.last()) {
        trim_trailing_seps(p.drop_last())
    } else {
        p
    }
}

/// `p` without what ends it beyond the root: separators, and `.` components
/// (a `.` right after a separator), which name the directory they stand in.
pub open spec fn trim_trailing_curdirs(p: Seq<char>) -> Seq<char>
    decreases p.len(),
{
    if p.len() > root_len(p) && is_sep(p.last()) {
        trim_trailing_curdirs(p.drop_last())
    } else if p.len() >= 2 && p.len() > root_len(p) && p.last() == '.' && is_sep(p[p.len() - 2]) {
        trim_trailing_curdirs(p.drop_last())
    } else {
        p
    }
}

/// `p` without the separators that start it.
pub open spec fn skip_leading_seps(p: Seq<char>) -> Seq<char>
    decreases p.len(),
{
    if p.len() > 0 && is_sep(p[0]) {
        skip_leading_seps(p.drop_first())
    } else {
        p
    }
}

/// Index of the last separator of `p` at or after `lo` and before `hi`.
pub open spec fn last_sep_in(p: Seq<char>, lo: int, hi: int) -> Option<int>
    decreases hi - lo,
{
    if hi <= lo {
        None
    } else if is_sep(p[hi - 1]) {
        Some(hi - 1)
    } else {
        last_sep_in(p, lo, hi - 1)
    }
}

/// Whether `p` starts with a drive: a letter and a colon (`C:`).
pub open spec fn has_drive(p: Seq<char>) -> bool {
    p.len() >= 2 && is_drive_letter(p[0]) && p[1] == ':'
}

/// `base` followed by `rel`. A `rel` that starts with a drive (`D:/x`, `D:x`),
/// or any `rel` when `base` is empty, is taken as it is; a `rel` rooted without a drive
/// (`/x`) keeps the drive of `base` if it has one (`C:` + `/x`), else is taken
/// as it is. A relative `rel` follows `base` with one `/` between them, unless
/// `base` already ends with a separator.
pub open spec fn join(base: Seq<char>, rel: Seq<char>) -> Seq<char> {
    if has_drive(rel) || base.len() == 0 {
        rel
    } else if root_len(rel) == 1 {
        if has_drive(base) {
            base.take(2) + rel
        } else {
            rel
        }
    } else if is_sep(base.last()) {
        base + rel
    } else {
        base + seq!['/'] + rel
    }
}

/// The path without its last component; `None` for an empty path or a bare root.
pub open spec fn parent(p: Seq<char>) -> Option<Seq<char>> {
    let t = trim_trailing_curdirs(p);
    let r = root_len(t) as int;
    if t.len() == r {
        None
    } else {
        match last_sep_in(t, r, t.len() as int) {
            None => Some(t.take(r)),
            Some(k) => Some(trim_trailing_curdirs(t.take(k))),
        }
    }
}

/// What is left of `path` once the leading components that spell `base` are removed.
pub open spec fn strip_prefix(path: Seq<char>, base: Seq<char>) -> Option<Seq<char>> {
    let b = trim_trailing_seps(base);
    if b.len() == 0 {
        Some(path)
    } else if path.len() >= b.len() && path.take(b.len() as int) == b && (path.len() == b.len()
        || is_sep(path[b.len() as int]) || is_sep(b.last())) {
        Some(skip_leading_seps(path.skip(b.len() as int)))
    } else {
        None
    }
}

/// The last component of a path; `None` for an empty path, a bare root, `.` or `..`.
pub open spec fn file_name(p: Seq<char>) -> Option<Seq<char>> {
    let t = trim_trailing_curdirs(p);
    let r = root_len(t) as int;
    let name = match last_sep_in(t, r, t.len() as int) {
        None => t.skip(r),
        Some(k) => t.skip(k + 1),
    };
    if name.len() == 0 || name == seq!['.'] || name == seq!['.', '.'] {
        None
    } else {
        Some(name)
    }
}

/// Index of the last `.` in `s` before `hi`.
pub open spec fn last_dot_before(s: Seq<char>, hi: int) -> Option<int>
    decreases hi,
{
    if hi <= 0 {
        None
    } else if s[hi - 1] == '.' {
        Some(hi - 1)
    } else {
        last_dot_before(s, hi - 1)
    }
}

/// The text after the last `.` of the file name, unless that `.` starts the name.
pub open spec fn extension(p: Seq<char>) -> Option<Seq<char>> {
    match file_name(p) {
        None => None,
        Some(name) => match last_dot_before(name, name.len() as int) {
            None => None,
            Some(d) => if d == 0 {
                None
            } else {
                Some(name.skip(d + 1))
            },
        },
    }
}

pub fn sep_char(c: char) -> (res: bool)
    ensures
        res == is_sep(c),
{
    c == '/' || c == '\\'
}

fn drive_letter(c: char) -> (res: bool)
    ensures
        res == is_drive_letter(c),
{
    ('a' <= c && c <= 'z') || ('A' <= c && c <= 'Z')
}

pub fn root_length(p: &Vec<char>) -> (res: usize)
    ensures
        res == root_len(p@),
{
    if p.len() >= 1 && sep_char(p[0]) {
        1
    } else if p.len() >= 3 && drive_letter(p[0]) && p[1] == ':' && sep_char(p[2]) {
        3
    } else {
        0
    }
}

/// The root of a path taken by itself keeps its length.
pub proof fn lemma_root_len_prefix(p: Seq<char>, n: int)
    requires
        root_len(p) <= n <= p.len(),
    ensures
        root_len(p.take(n)) == root_len(p),
{
}

/// Length of `trim_trailing_seps(p)`, which is a prefix of `p`.
pub fn trimmed_len(p: &Vec<char>, n: usize) -> (res: usize)
    requires
        n <= p.len(),
    ensures
        res <= n,
        trim_trailing_seps(p@.take(n as int)) == p@.take(res as int),
        root_len(p@.take(n as int)) <= res,
{
    let ghost s = p@.take(n as int);
    let r = if n >= 1 && sep_char(p[0]) {
        1
    } else if n >= 3 && drive_letter(p[0]) && p[1] == ':' && sep_char(p[2]) {
        3
    } else {
        0
    };
    assert(r == root_len(s));
    let mut k = n;
    while k > r && sep_char(p[k - 1])
        invariant
            r <= k <= n <= p.len(),
            r == root_len(s),
            s == p@.take(n as int),
            trim_trailing_seps(s) == trim_trailing_seps(p@.take(k as int)),
        decreases k,
    {
        proof {
            lemma_root_len_prefix(s, k as int);
            lemma_root_len_prefix(s, (k - 1) as int);
            assert(p@.take(k as int).drop_last() =~= p@.take(k - 1));
            assert(s.take(k as int) =~= p@.take(k as int));
            assert(s.take(k - 1) =~= p@.take(k - 1));
        }
        k = k - 1;
    }
    proof {
        lemma_root_len_prefix(s, k as int);
        assert(s.take(k as int) =~= p@.take(k as int));
    }
    k
}

/// Length of `trim_trailing_curdirs(p)`, which is a prefix of `p`.
pub fn curdir_trimmed_len(p: &Vec<char>, n: usize) -> (res: usize)
    requires
        n <= p.len(),
    ensures
        res <= n,
        trim_trailing_curdirs(p@.take(n as int)) == p@.take(res as int),
        root_len(p@.take(n as int)) <= res,
{
    let ghost s = p@.take(n as int);
    let r = if n >= 1 && sep_char(p[0]) {
        1
    } else if n >= 3 && drive_letter(p[0]) && p[1] == ':' && sep_char(p[2]) {
        3
    } else {
        0
    };
    assert(r == root_len(s));
    let mut k = n;
    while k > r && (sep_char(p[k - 1]) || (k >= 2 && p[k - 1] == '.' && sep_char(p[k - 2])))
        invariant
            r <= k <= n <= p.len(),
            r == root_len(s),
            s == p@.take(n as int),
            trim_trailing_curdirs(s) == trim_trailing_curdirs(p@.take(k as int)),
        decreases k,
    {
        proof {
            lemma_root_len_prefix(s, k as int);
            lemma_root_len_prefix(s, (k - 1) as int);
            assert(p@.take(k as int).drop_last() =~= p@.take(k - 1));
            assert(s.take(k as int) =~= p@.take(k as int));
            assert(s.take(k - 1) =~= p@.take(k - 1));
        }
        k = k - 1;
    }
    proof {
        lemma_root_len_prefix(s, k as int);
        assert(s.take(k as int) =~= p@.take(k as int));
    }
    k
}

/// Index of the first character of `p` at or after `from` that is not a separator.
pub fn skip_seps_from(p: &Vec<char>, from: usize) -> (res: usize)
    requires
        from <= p.len(),
    ensures
        from <= res <= p.len(),
        skip_leading_seps(p@.skip(from as int)) == p@.skip(res as int),
{
    let mut k = from;
    while k < p.len() && sep_char(p[k])
        invariant
            from <= k <= p.len(),
            skip_leading_seps(p@.skip(from as int)) == skip_leading_seps(p@.skip(k as int)),
        decreases p.len() - k,
    {
        proof {
            assert(p@.skip(k as int).drop_first() =~= p@.skip(k + 1));
        }
        k = k + 1;
    }
    k
}

pub fn last_sep_index(p: &Vec<char>, lo: usize, hi: usize) -> (res: Option<usize>)
    requires
        lo <= hi <= p.len(),
    ensures
        match res {
            None => last_sep_in(p@, lo as int, hi as int) is None,
            Some(k) => last_sep_in(p@, lo as int, hi as int) == Some(k as int) && lo <= k < hi,
        },
{
    let mut k = hi;
    while k > lo
        invariant
            lo <= k <= hi <= p.len(),
            last_sep_in(p@, lo as int, hi as int) == last_sep_in(p@, lo as int, k as int),
        decreases k,
    {
        if sep_char(p[k - 1]) {
            return Some(k - 1);
        }
        k = k - 1;
    }
    None
}

fn push_all(out: &mut Vec<char>, src: &Vec<char>, from: usize, to: usize)
    requires
        from <= to <= src.len(),
    ensures
        final(out)@ == old(out)@ + src@.subrange(from as int, to as int),
{
    let ghost start = out@;
    let mut i = from;
    while i < to
        invariant
            from <= i <= to <= src.len(),
            out@ == start + src@.subrange(from as int, i as int),
        decreases to - i,
    {
        out.push(src[i]);
        proof {
            assert(src@.subrange(from as int, i + 1) =~= src@.subrange(from as int, i as int).push(
                src@[i as int],
            ));
        }
        i = i + 1;
    }
}

pub fn join_chars(base: &Vec<char>, rel: &Vec<char>) -> (res: Vec<char>)
    ensures
        res@ == join(base@, rel@),
{
    let mut out: Vec<char> = Vec::new();
    let rr = root_length(rel);
    let rel_drive = rel.len() >= 2 && drive_letter(rel[0]) && rel[1] == ':';
    if rel_drive || base.len() == 0 || (rr == 1 && !(base.len() >= 2 && drive_letter(base[0])
        && base[1] == ':')) {
        push_all(&mut out, rel, 0, rel.len());
        proof {
            assert(rel@.subrange(0, rel@.len() as int) =~= rel@);
        }
        return out;
    }
    if rr == 1 {
        push_all(&mut out, base, 0, 2);
        push_all(&mut out, rel, 0, rel.len());
        proof {
            assert(rel@.subrange(0, rel@.len() as int) =~= rel@);
            assert(seq![] + base@.subrange(0, 2) =~= base@.take(2));
        }
        return out;
    }
    push_all(&mut out, base, 0, base.len());
    if !sep_char(base[base.len() - 1]) {
        out.push('/');
    }
    push_all(&mut out, rel, 0, rel.len());
    proof {
        assert(rel@.subrange(0, rel@.len() as int) =~= rel@);
        assert(base@.subrange(0, base@.len() as int) =~= base@);
        assert(seq![] + base@ =~= base@);
    }
    out
}

/// Joins `rel` onto `base` (see `join`).
pub fn join_path(base: &str, rel: &str) -> (res: String)
    ensures
        res@ == join(base@, rel@),
{
    let b = chars_of(base);
    let r = chars_of(rel);
    let j = join_chars(&b, &r);
    string_of(j.as_slice())
}

pub fn is_absolute_path(p: &str) -> (res: bool)
    ensures
        res == is_absolute(p@),
{
    let c = chars_of(p);
    root_length(&c) > 0
}

pub fn parent_chars(p: &Vec<char>) -> (res: Option<Vec<char>>)
    ensures
        match res {
            None => parent(p@) is None,
            Some(v) => parent(p@) == Some(v@),
        },
{
    let n = curdir_trimmed_len(p, p.len());
    let ghost t = p@.take(n as int);
    proof {
        assert(p@.take(p.len() as int) =~= p@);
    }
    let r = root_length(p);
    proof {
        lemma_root_len_prefix(p@, n as int);
    }
    if n == r {
        return None;
    }
    let mut out: Vec<char> = Vec::new();
    match last_sep_index(p, r, n) {
        None => {
            push_all(&mut out, p, 0, r);
            proof {
                lemma_last_sep_take(p@, r as int, n as int);
                assert(p@.subrange(0, r as int) =~= t.take(r as int));
            }
        },
        Some(k) => {
            let m = curdir_trimmed_len(p, k);
            push_all(&mut out, p, 0, m);
            proof {
                lemma_last_sep_take(p@, r as int, n as int);
                assert(t.take(k as int) =~= p@.take(k as int));
                assert(p@.subrange(0, m as int) =~= p@.take(m as int));
            }
        },
    }
    proof {
        assert(seq![] + out@ =~= out@);
    }
    Some(out)
}

/// The search for a separator below `hi` looks at nothing past `hi`.
pub proof fn lemma_last_sep_take(p: Seq<char>, lo: int, hi: int)
    requires
        0 <= lo <= hi <= p.len(),
    ensures
        last_sep_in(p.take(hi), lo, hi) == last_sep_in(p, lo, hi),
    decreases hi - lo,
{
    if hi > lo {
        lemma_last_sep_take_at(p, lo, hi, hi);
    }
}

proof fn lemma_last_sep_take_at(p: Seq<char>, lo: int, k: int, n: int)
    requires
        0 <= lo <= k <= n <= p.len(),
    ensures
        last_sep_in(p.take(n), lo, k) == last_sep_in(p, lo, k),
    decreases k - lo,
{
    if k > lo {
        lemma_last_sep_take_at(p, lo, k - 1, n);
    }
}

/// The parent of a path (see `parent`).
pub fn parent_path(p: &str) -> (res: Option<String>)
    ensures
        match res {
            None => parent(p@) is None,
            Some(s) => parent(p@) == Some(s@),
        },
{
    let c = chars_of(p);
    match parent_chars(&c) {
        None => None,
        Some(v) => Some(string_of(v.as_slice())),
    }
}

fn same_prefix(p: &Vec<char>, q: &Vec<char>, n: usize) -> (res: bool)
    requires
        n <= p.len(),
        n <= q.len(),
    ensures
        res == (p@.take(n as int) == q@.take(n as int)),
{
    let mut i: usize = 0;
    while i < n
        invariant
            i <= n <= p.len(),
            n <= q.len(),
            p@.take(i as int) == q@.take(i as int),
        decreases n - i,
    {
        if p[i] != q[i] {
            proof {
                assert(p@.take(n as int)[i as int] != q@.take(n as int)[i as int]);
            }
            return false;
        }
        proof {
            assert(p@.take(i + 1) =~= p@.take(i as int).push(p@[i as int]));
            assert(q@.take(i + 1) =~= q@.take(i as int).push(q@[i as int]));
        }
        i = i + 1;
    }
    true
}

fn copy_range(src: &Vec<char>, from: usize, to: usize) -> (res: Vec<char>)
    requires
        from <= to <= src.len(),
    ensures
        res@ == src@.subrange(from as int, to as int),
{
    let mut out: Vec<char> = Vec::new();
    push_all(&mut out, src, from, to);
    proof {
        assert(seq![] + src@.subrange(from as int, to as int) =~= src@.subrange(
            from as int,
            to as int,
        ));
    }
    out
}

pub fn strip_prefix_chars(path: &Vec<char>, base: &Vec<char>) -> (res: Option<Vec<char>>)
    ensures
        match res {
            None => strip_prefix(path@, base@) is None,
            Some(v) => strip_prefix(path@, base@) == Some(v@),
        },
{
    let bl = trimmed_len(base, base.len());
    proof {
        assert(base@.take(base.len() as int) =~= base@);
    }
    if bl == 0 {
        let out = copy_range(path, 0, path.len());
        proof {
            assert(path@.subrange(0, path.len() as int) =~= path@);
        }
        return Some(out);
    }
    if path.len() >= bl && same_prefix(path, base, bl) && (path.len() == bl || sep_char(path[bl])
        || sep_char(base[bl - 1])) {
        let st = skip_seps_from(path, bl);
        let out = copy_range(path, st, path.len());
        proof {
            assert(path@.subrange(st as int, path.len() as int) =~= path@.skip(st as int));
        }
        Some(out)
    } else {
        None
    }
}

/// What is left of `path` below `base` (see `strip_prefix`).
pub fn strip_path_prefix(path: &str, base: &str) -> (res: Option<String>)
    ensures
        match res {
            None => strip_prefix(path@, base@) is None,
            Some(s) => strip_prefix(path@, base@) == Some(s@),
        },
{
    let p = chars_of(path);
    let b = chars_of(base);
    match strip_prefix_chars(&p, &b) {
        None => None,
        Some(v) => Some(string_of(v.as_slice())),
    }
}

pub fn file_name_chars(p: &Vec<char>) -> (res: Option<Vec<char>>)
    ensures
        match res {
            None => file_name(p@) is None,
            Some(v) => file_name(p@) == Some(v@),
        },
{
    let n = curdir_trimmed_len(p, p.len());
    let ghost t = p@.take(n as int);
    proof {
        assert(p@.take(p.len() as int) =~= p@);
        lemma_root_len_prefix(p@, n as int);
        lemma_last_sep_take(p@, root_len(p@) as int, n as int);
    }
    let r = root_length(p);
    let start = match last_sep_index(p, r, n) {
        None => r,
        Some(k) => k + 1,
    };
    let name = copy_range(p, start, n);
    proof {
        assert(name@ =~= t.skip(start as int));
    }
    if name.len() == 0 || (name.len() == 1 && name[0] == '.') || (name.len() == 2 && name[0] == '.'
        && name[1] == '.') {
        proof {
            if name.len() == 1 {
                assert(name@ =~= seq!['.']);
            }
            if name.len() == 2 {
                assert(name@ =~= seq!['.', '.']);
            }
        }
        None
    } else {
        proof {
            if name@ == seq!['.'] {
                assert(name@.len() == 1);
            }
            if name@ == seq!['.', '.'] {
                assert(name@.len() == 2);
            }
        }
        Some(name)
    }
}

pub fn extension_chars(p: &Vec<char>) -> (res: Option<Vec<char>>)
    ensures
        match res {
            None => extension(p@) is None,
            Some(v) => extension(p@) == Some(v@),
        },
{
    match file_name_chars(p) {
        None => None,
        Some(name) => {
            let mut k = name.len();
            while k > 0 && name[k - 1] != '.'
                invariant
                    k <= name.len(),
                    last_dot_before(name@, name.len() as int) == last_dot_before(name@, k as int),
                decreases k,
            {
                k = k - 1;
            }
            if k <= 1 {
                None
            } else {
                Some(copy_range(&name, k, name.len()))
            }
        },
    }
}

/// The extension of a path's file name (see `extension`).
pub fn path_extension(p: &str) -> (res: Option<String>)
    ensures
        match res {
            None => extension(p@) is None,
            Some(s) => extension(p@) == Some(s@),
        },
{
    let c = chars_of(p);
    match extension_chars(&c) {
        None => None,
        Some(v) => Some(string_of(v.as_slice())),
    }
}

/// The directory that must exist before a file can be written at `path`:
/// its parent, when that parent is not empty.
pub open spec fn dir_to_create(path: Seq<char>) -> Option<Seq<char>> {
    match parent(path) {
        Some(d) => if d.len() > 0 {
            Some(d)
        } else {
            None
        },
        None => None,
    }
}

pub fn parent_dir_to_create(path: &str) -> (res: Option<String>)
    ensures
        match res {
            None => dir_to_create(path@) is None,
            Some(s) => dir_to_create(path@) == Some(s@),
        },
{
    let c = chars_of(path);
    match parent_chars(&c) {
        None => None,
        Some(v) => if v.len() > 0 {
            Some(string_of(v.as_slice()))
        } else {
            None
        },
    }
}

/// Shape of `trim_trailing_seps(p)`: a prefix of `p` that keeps the root and is
/// empty only when `p` is, followed in `p` by separators alone.
pub proof fn lemma_trim_trailing_shape(p: Seq<char>)
    ensures
        trim_trailing_seps(p).len() <= p.len(),
        trim_trailing_seps(p) == p.take(trim_trailing_seps(p).len() as int),
        forall|i: int| trim_trailing_seps(p).len() <= i < p.len() ==> is_sep(#[trigger] p[i]),
        p.len() > 0 ==> trim_trailing_seps(p).len() > 0,
        root_len(p) <= trim_trailing_seps(p).len(),
        trim_trailing_seps(p).len() < p.len() ==> is_sep(p.last()),
    decreases p.len(),
{
    if p.len() > root_len(p) && is_sep(p.last()) {
        let q = p.drop_last();
        lemma_trim_trailing_shape(q);
        lemma_root_len_prefix(p, q.len() as int);
        assert(p.take(q.len() as int) =~= q);
        let t = trim_trailing_seps(q);
        assert(t =~= p.take(t.len() as int));
        assert forall|i: int| t.len() <= i < p.len() implies is_sep(#[trigger] p[i]) by {
            if i < q.len() {
                assert(p[i] == q[i]);
            }
        }
        if p.len() == 1 {
            assert(false);
        }
    } else {
        assert(p.take(p.len() as int) =~= p);
    }
}

/// Shape of `skip_leading_seps(q)`: `q` without its first `k` characters, all
/// separators, where the character at `k` (if any) is not one.
pub proof fn lemma_skip_leading_shape(q: Seq<char>) -> (k: int)
    ensures
        0 <= k <= q.len(),
        skip_leading_seps(q) == q.skip(k),
        forall|i: int| 0 <= i < k ==> is_sep(#[trigger] q[i]),
        k < q.len() ==> !is_sep(q[k]),
    decreases q.len(),
{
    if q.len() > 0 && is_sep(q[0]) {
        let k1 = lemma_skip_leading_shape(q.drop_first());
        assert(q.drop_first().skip(k1) =~= q.skip(k1 + 1));
        assert forall|i: int| 0 <= i < k1 + 1 implies is_sep(#[trigger] q[i]) by {
            if i > 0 {
                assert(q[i] == q.drop_first()[i - 1]);
            }
        }
        k1 + 1
    } else {
        assert(q.skip(0) =~= q);
        0
    }
}

/// Separators in front of a text that does not start with one are all skipped.
pub proof fn lemma_skip_seps_then_text(a: Seq<char>, r: Seq<char>)
    requires
        forall|i: int| 0 <= i < a.len() ==> is_sep(#[trigger] a[i]),
        r.len() > 0 ==> !is_sep(r[0]),
    ensures
        skip_leading_seps(a + r) == r,
    decreases a.len(),
{
    if a.len() > 0 {
        assert((a + r).drop_first() =~= a.drop_first() + r);
        assert(is_sep(a[0]));
        lemma_skip_seps_then_text(a.drop_first(), r);
    } else {
        assert(a + r =~= r);
    }
}

/// The pieces of `s` between separators, empty pieces included.
pub open spec fn split_seps(s: Seq<char>) -> Seq<Seq<char>>
    decreases s.len(),
{
    if s.len() == 0 {
        seq![seq![]]
    } else {
        let prev = split_seps(s.drop_last());
        if is_sep(s.last()) {
            prev.push(seq![])
        } else {
            prev.update(prev.len() - 1, prev.last().push(s.last()))
        }
    }
}

/// The components of a path: its root (when it has one), then each non-empty
/// piece between separators.
pub open spec fn components(p: Seq<char>) -> Seq<Seq<char>> {
    let r = root_len(p) as int;
    let root: Seq<Seq<char>> = if r > 0 {
        seq![p.take(r)]
    } else {
        seq![]
    };
    root + split_seps(p.skip(r)).filter(|c: Seq<char>| c.len() > 0)
}

/// Length of the longest common prefix of `a` and `b`, counted from `i`.
pub open spec fn common_len(a: Seq<Seq<char>>, b: Seq<Seq<char>>, i: int) -> int
    decreases a.len() - i,
{
    if 0 <= i < a.len() && i < b.len() && a[i] == b[i] {
        common_len(a, b, i + 1)
    } else {
        i
    }
}

/// `n` parent steps: `..` joined `n` times.
pub open spec fn parent_steps(n: nat) -> Seq<char>
    decreases n,
{
    if n == 0 {
        seq![]
    } else {
        join(parent_steps((n - 1) as nat), seq!['.', '.'])
    }
}

/// The components joined one after another onto an empty path.
pub open spec fn join_all(cs: Seq<Seq<char>>) -> Seq<char>
    decreases cs.len(),
{
    if cs.len() == 0 {
        seq![]
    } else {
        join(join_all(cs.drop_last()), cs.last())
    }
}

/// The path that leads from directory `base` to `target`, both already made
/// absolute and canonical: as many `..` as `base` has components past the
/// common ones, then the rest of `target`. `None` when the two share no
/// leading component (different roots or drives).
pub open spec fn relative_path(target: Seq<char>, base: Seq<char>) -> Option<Seq<char>> {
    let tc = components(target);
    let bc = components(base);
    let c = common_len(tc, bc, 0);
    if c == 0 {
        None
    } else {
        Some(join(parent_steps((bc.len() - c) as nat), join_all(tc.skip(c))))
    }
}

/// A vector of characters seen deeply is its plain view.
pub proof fn lemma_chars_deep_view(v: Vec<char>)
    ensures
        v.deep_view() == v@,
{
    assert(v.deep_view() =~= v@);
}

pub fn components_of(p: &Vec<char>) -> (res: Vec<Vec<char>>)
    ensures
        res.deep_view() == components(p@),
{
    let r = root_length(p);
    let mut out: Vec<Vec<char>> = Vec::new();
    if r > 0 {
        let rt = copy_range(p, 0, r);
        proof {
            lemma_chars_deep_view(rt);
        }
        out.push(rt);
        proof {
            assert(p@.subrange(0, r as int) =~= p@.take(r as int));
            assert(out.deep_view() =~= seq![p@.take(r as int)]);
        }
    }
    let ghost root = out.deep_view();
    let ghost s = p@.skip(r as int);
    let ghost mut done: Seq<Seq<char>> = seq![];
    let mut cur: Vec<char> = Vec::new();
    let mut i: usize = r;
    proof {
        reveal(Seq::filter);
        assert(s.take(0) =~= seq![]);
        assert(split_seps(s.take(0)) =~= done.push(cur@));
        assert(done.filter(|c: Seq<char>| c.len() > 0) =~= seq![]);
        assert(out.deep_view() =~= root + done.filter(|c: Seq<char>| c.len() > 0));
    }
    while i < p.len()
        invariant
            r <= i <= p.len(),
            r == root_len(p@),
            s == p@.skip(r as int),
            split_seps(s.take(i - r)) == done.push(cur@),
            out.deep_view() == root + done.filter(|c: Seq<char>| c.len() > 0),
        decreases p.len() - i,
    {
        proof {
            reveal(Seq::filter);
            assert(s.take(i - r + 1).drop_last() =~= s.take(i - r));
            assert(s.take(i - r + 1).last() == p@[i as int]);
        }
        if sep_char(p[i]) {
            let ghost piece = cur@;
            let ghost before = out.deep_view();
            if cur.len() > 0 {
                proof {
                    lemma_chars_deep_view(cur);
                }
                out.push(cur);
                proof {
                    assert(out.deep_view() =~= before.push(piece));
                }
            }
            proof {
                assert(done.push(piece).drop_last() =~= done);
                assert((root + done.filter(|c: Seq<char>| c.len() > 0)).push(piece) =~= root + done.filter(
                    |c: Seq<char>| c.len() > 0,
                ).push(piece));
                done = done.push(piece);
            }
            cur = Vec::new();
        } else {
            cur.push(p[i]);
        }
        i = i + 1;
    }
    let ghost piece = cur@;
    let ghost before = out.deep_view();
    if cur.len() > 0 {
        proof {
            lemma_chars_deep_view(cur);
        }
        out.push(cur);
    }
    proof {
        reveal(Seq::filter);
        assert(s.take(p.len() - r) =~= s);
        assert(done.push(piece).drop_last() =~= done);
        if piece.len() > 0 {
            assert(out.deep_view() =~= before.push(piece));
            assert((root + done.filter(|c: Seq<char>| c.len() > 0)).push(piece) =~= root + done.filter(
                |c: Seq<char>| c.len() > 0,
            ).push(piece));
        }
        assert(out.deep_view() =~= root + split_seps(s).filter(|c: Seq<char>| c.len() > 0));
    }
    out
}

fn chars_equal(a: &Vec<char>, b: &Vec<char>) -> (res: bool)
    ensures
        res == (a@ == b@),
{
    if a.len() != b.len() {
        return false;
    }
    let r = same_prefix(a, b, a.len());
    proof {
        assert(a@.take(a.len() as int) =~= a@);
        assert(b@.take(b.len() as int) =~= b@);
    }
    r
}

/// The path from directory `base` to `target` (see `relative_path`); both
/// paths are expected to be canonical already.
pub fn pathdiff_relative(target: &str, base: &str) -> (res: Option<String>)
    ensures
        match res {
            None => relative_path(target@, base@) is None,
            Some(s) => relative_path(target@, base@) == Some(s@),
        },
{
    let tcs = chars_of(target);
    let bcs = chars_of(base);
    let tc = components_of(&tcs);
    let bc = components_of(&bcs);
    let ghost tv = tc.deep_view();
    let ghost bv = bc.deep_view();
    let mut common: usize = 0;
    proof {
        assert forall|i: int| 0 <= i < tc.len() implies tv[i] == (#[trigger] tc@[i])@ by {
            lemma_chars_deep_view(tc@[i]);
        }
        assert forall|i: int| 0 <= i < bc.len() implies bv[i] == (#[trigger] bc@[i])@ by {
            lemma_chars_deep_view(bc@[i]);
        }
    }
    while common < tc.len() && common < bc.len() && chars_equal(&tc[common], &bc[common])
        invariant
            common <= tc.len(),
            common <= bc.len(),
            forall|i: int| 0 <= i < tc.len() ==> tv[i] == (#[trigger] tc@[i])@,
            forall|i: int| 0 <= i < bc.len() ==> bv[i] == (#[trigger] bc@[i])@,
            tv == tc.deep_view(),
            bv == bc.deep_view(),
            common_len(tv, bv, 0) == common_len(tv, bv, common as int),
        decreases tc.len() - common,
    {
        common = common + 1;
    }
    if common == 0 {
        return None;
    }
    let ups = bc.len() - common;
    let mut out: Vec<char> = Vec::new();
    let mut n: usize = 0;
    while n < ups
        invariant
            n <= ups,
            out@ == parent_steps(n as nat),
        decreases ups - n,
    {
        let mut dots: Vec<char> = Vec::new();
        dots.push('.');
        dots.push('.');
        proof {
            assert(dots@ =~= seq!['.', '.']);
        }
        out = join_chars(&out, &dots);
        n = n + 1;
    }
    let mut rest: Vec<char> = Vec::new();
    let mut k: usize = common;
    proof {
        assert(tv.skip(common as int).take(0) =~= seq![]);
    }
    while k < tc.len()
        invariant
            common <= k <= tc.len(),
            tv == tc.deep_view(),
            forall|i: int| 0 <= i < tc.len() ==> tv[i] == (#[trigger] tc@[i])@,
            rest@ == join_all(tv.skip(common as int).take(k - common)),
        decreases tc.len() - k,
    {
        proof {
            assert(tv.skip(common as int).take(k - common + 1).drop_last() =~= tv.skip(
                common as int,
            ).take(k - common));
        }
        rest = join_chars(&rest, &tc[k]);
        k = k + 1;
    }
    proof {
        assert(tv.skip(common as int).take(tc.len() - common) =~= tv.skip(common as int));
    }
    let res = join_chars(&out, &rest);
    Some(string_of(res.as_slice()))
}

/// `p` with its roots and drives removed: while it starts with a separator or
/// with a drive (`C:`), those characters are dropped.
pub open spec fn relative_part(p: Seq<char>) -> Seq<char>
    decreases p.len(),
{
    if p.len() > 0 && is_sep(p[0]) {
        relative_part(p.drop_first())
    } else if has_drive(p) {
        relative_part(p.skip(2))
    } else {
        p
    }
}

/// `relative_part(p)` is `p` without its first `q` characters, is never
/// absolute, and is `p` itself when `p` is not absolute.
pub proof fn lemma_relative_part_shape(p: Seq<char>) -> (q: int)
    ensures
        0 <= q <= p.len(),
        relative_part(p) == p.skip(q),
        q > 0 ==> is_sep(p[0]) || has_drive(p),
        !is_absolute(relative_part(p)),
        !has_drive(relative_part(p)),
    decreases p.len(),
{
    if p.len() > 0 && is_sep(p[0]) {
        let q1 = lemma_relative_part_shape(p.drop_first());
        assert(p.drop_first().skip(q1) =~= p.skip(q1 + 1));
        q1 + 1
    } else if has_drive(p) {
        let q1 = lemma_relative_part_shape(p.skip(2));
        assert(p.skip(2).skip(q1) =~= p.skip(q1 + 2));
        q1 + 2
    } else {
        assert(p.skip(0) =~= p);
        0
    }
}

/// Index in `p` where `relative_part(p@.skip(from))` starts.
pub fn relative_part_start(p: &Vec<char>, from: usize) -> (res: usize)
    requires
        from <= p.len(),
    ensures
        from <= res <= p.len(),
        relative_part(p@.skip(from as int)) == p@.skip(res as int),
{
    let mut k = from;
    loop
        invariant
            from <= k <= p.len(),
            relative_part(p@.skip(from as int)) == relative_part(p@.skip(k as int)),
        decreases p.len() - k,
    {
        let ghost t = p@.skip(k as int);
        if k < p.len() && sep_char(p[k]) {
            proof {
                assert(t.drop_first() =~= p@.skip(k + 1));
            }
            k = k + 1;
        } else if p.len() - k >= 2 && drive_letter(p[k]) && p[k + 1] == ':' {
            proof {
                assert(has_drive(t));
                assert(t.skip(2) =~= p@.skip(k + 2));
            }
            k = k + 2;
        } else {
            proof {
                assert(!has_drive(t));
            }
            return k;
        }
    }
}

/// The non-empty ones among `cs`, in order.
pub open spec fn drop_empty(cs: Seq<Seq<char>>) -> Seq<Seq<char>> {
    cs.filter(|c: Seq<char>| c.len() > 0)
}

/// The non-empty pieces of `s` between separators.
pub open spec fn pieces(s: Seq<char>) -> Seq<Seq<char>> {
    drop_empty(split_seps(s))
}

/// Whether no character of `s` is a separator.
pub open spec fn no_sep(s: Seq<char>) -> bool {
    forall|i: int| 0 <= i < s.len() ==> !is_sep(#[trigger] s[i])
}

proof fn lemma_split_seps_nonempty(s: Seq<char>)
    ensures
        split_seps(s).len() >= 1,
    decreases s.len(),
{
    if s.len() > 0 {
        lemma_split_seps_nonempty(s.drop_last());
    }
}

/// Splitting at a separator splits the two sides apart.
proof fn lemma_split_seps_concat(x: Seq<char>, c: char, y: Seq<char>)
    requires
        is_sep(c),
    ensures
        split_seps(x + seq![c] + y) == split_seps(x) + split_seps(y),
    decreases y.len(),
{
    let z = x + seq![c] + y;
    if y.len() == 0 {
        assert(z.drop_last() =~= x);
        assert(z =~= x + seq![c]);
        assert(split_seps(x) + split_seps(y) =~= split_seps(x).push(seq![]));
    } else {
        let y1 = y.drop_last();
        lemma_split_seps_concat(x, c, y1);
        lemma_split_seps_nonempty(y1);
        lemma_split_seps_nonempty(x);
        assert(z.drop_last() =~= x + seq![c] + y1);
        assert(z.last() == y.last());
        let a = split_seps(x);
        let b = split_seps(y1);
        if is_sep(y.last()) {
            assert((a + b).push(seq![]) =~= a + b.push(seq![]));
        } else {
            assert((a + b).update((a + b).len() - 1, (a + b).last().push(y.last())) =~= a + b.update(
                b.len() - 1,
                b.last().push(y.last()),
            ));
        }
    }
}

proof fn lemma_pieces_concat(x: Seq<char>, c: char, y: Seq<char>)
    requires
        is_sep(c),
    ensures
        pieces(x + seq![c] + y) == pieces(x) + pieces(y),
{
    lemma_split_seps_concat(x, c, y);
    Seq::filter_distributes_over_add(
        split_seps(x),
        split_seps(y),
        |c: Seq<char>| c.len() > 0,
    );
}

proof fn lemma_pieces_empty()
    ensures
        pieces(Seq::<char>::empty()) =~= Seq::<Seq<char>>::empty(),
{
    reveal(Seq::filter);
    let e = Seq::<char>::empty();
    assert(split_seps(e) == seq![e]);
    assert(drop_empty(Seq::<Seq<char>>::empty()) =~= Seq::<Seq<char>>::empty());
    assert(seq![e].drop_last() =~= Seq::<Seq<char>>::empty());
    assert(seq![e].last() == e);
}

proof fn lemma_split_seps_word(w: Seq<char>)
    requires
        no_sep(w),
    ensures
        split_seps(w) =~= seq![w],
    decreases w.len(),
{
    if w.len() > 0 {
        assert(no_sep(w.drop_last())) by {
            assert forall|i: int| 0 <= i < w.drop_last().len() implies !is_sep(
                #[trigger] w.drop_last()[i],
            ) by {
                assert(w.drop_last()[i] == w[i]);
            }
        }
        lemma_split_seps_word(w.drop_last());
        assert(!is_sep(w[w.len() - 1]));
        assert(w.drop_last().push(w.last()) =~= w);
    } else {
        assert(w =~= Seq::<char>::empty());
    }
}

/// A non-empty word without separators is its only piece.
proof fn lemma_pieces_word(w: Seq<char>)
    requires
        no_sep(w),
        w.len() > 0,
    ensures
        pieces(w) =~= seq![w],
{
    reveal(Seq::filter);
    lemma_split_seps_word(w);
    assert(seq![w].drop_last() =~= Seq::<Seq<char>>::empty());
}

/// Every piece of a path is non-empty and holds no separator.
proof fn lemma_pieces_are_words(s: Seq<char>)
    ensures
        forall|i: int|
            0 <= i < pieces(s).len() ==> (#[trigger] pieces(s)[i]).len() > 0 && no_sep(
                pieces(s)[i],
            ),
{
    lemma_split_words(s);
    lemma_filter_words(split_seps(s));
}

proof fn lemma_split_words(s: Seq<char>)
    ensures
        forall|i: int| 0 <= i < split_seps(s).len() ==> no_sep(#[trigger] split_seps(s)[i]),
    decreases s.len(),
{
    if s.len() > 0 {
        lemma_split_words(s.drop_last());
        lemma_split_seps_nonempty(s.drop_last());
        let prev = split_seps(s.drop_last());
        assert forall|i: int| 0 <= i < split_seps(s).len() implies no_sep(
            #[trigger] split_seps(s)[i],
        ) by {
            if i < prev.len() - 1 || is_sep(s.last()) {
                if i < prev.len() {
                    assert(split_seps(s)[i] == prev[i]);
                }
            } else {
                assert(split_seps(s)[i] == prev.last().push(s.last()));
                assert(no_sep(prev[prev.len() - 1]));
            }
        }
    }
}

proof fn lemma_filter_words(cs: Seq<Seq<char>>)
    requires
        forall|i: int| 0 <= i < cs.len() ==> no_sep(#[trigger] cs[i]),
    ensures
        forall|i: int|
            0 <= i < drop_empty(cs).len() ==> (#[trigger] drop_empty(cs)[i]).len() > 0 && no_sep(
                drop_empty(cs)[i],
            ),
    decreases cs.len(),
{
    reveal(Seq::filter);
    if cs.len() > 0 {
        lemma_filter_words(cs.drop_last());
        let f = drop_empty(cs);
        let g = drop_empty(cs.drop_last());
        assert forall|i: int| 0 <= i < f.len() implies (#[trigger] f[i]).len() > 0 && no_sep(f[i]) by {
            if i < g.len() {
                assert(f[i] == g[i]);
            } else {
                assert(f[i] == cs.last());
                assert(no_sep(cs[cs.len() - 1]));
            }
        }
    }
}

/// A relative path (no root, no drive) is made of its pieces.
proof fn lemma_components_relative(p: Seq<char>)
    requires
        !is_absolute(p),
    ensures
        components(p) == pieces(p),
{
    assert(p.skip(0) =~= p);
    assert(Seq::<Seq<char>>::empty() + pieces(p) =~= pieces(p));
}

/// Joining a relative path without drive onto a non-empty `base`: the pieces
/// after the root of `base` are followed by those of `rel`.
proof fn lemma_pieces_join(base: Seq<char>, rel: Seq<char>)
    requires
        base.len() > 0,
        is_absolute(base) || !has_drive(base),
        !is_absolute(rel),
        !has_drive(rel),
    ensures
        root_len(join(base, rel)) == root_len(base),
        pieces(join(base, rel).skip(root_len(base) as int)) == pieces(
            base.skip(root_len(base) as int),
        ) + pieces(rel),
{
    let r = root_len(base) as int;
    let x = base.skip(r);
    let j = join(base, rel);
    if is_sep(base.last()) {
        assert(j == base + rel);
        if base.len() as int > r {
            let x1 = x.drop_last();
            assert(x =~= x1 + seq![base.last()] + Seq::<char>::empty());
            assert(j.skip(r) =~= x1 + seq![base.last()] + rel);
            lemma_pieces_concat(x1, base.last(), rel);
            lemma_pieces_concat(x1, base.last(), Seq::<char>::empty());
            lemma_pieces_empty();
            assert(pieces(x1) + pieces(Seq::<char>::empty()) =~= pieces(x1));
        } else {
            assert(j.skip(r) =~= rel);
            assert(x =~= Seq::<char>::empty());
            lemma_pieces_empty();
            assert(Seq::<Seq<char>>::empty() + pieces(rel) =~= pieces(rel));
        }
    } else {
        assert(j == base + seq!['/'] + rel);
        assert(j.skip(r) =~= x + seq!['/'] + rel);
        lemma_pieces_concat(x, '/', rel);
    }
}

/// `n` parent steps.
pub open spec fn dotdots(n: nat) -> Seq<Seq<char>> {
    Seq::new(n, |i: int| seq!['.', '.'])
}

proof fn lemma_parent_steps(n: nat)
    ensures
        n > 0 ==> parent_steps(n).len() > 0 && parent_steps(n)[0] == '.' && !is_absolute(
            parent_steps(n),
        ) && !has_drive(parent_steps(n)),
        n == 0 ==> parent_steps(n) == Seq::<char>::empty(),
        pieces(parent_steps(n)) =~= dotdots(n),
    decreases n,
{
    if n == 0 {
        lemma_pieces_empty();
    } else {
        let d = seq!['.', '.'];
        lemma_parent_steps((n - 1) as nat);
        lemma_pieces_word(d);
        if n == 1 {
            assert(parent_steps(n) == d);
        } else {
            let p = parent_steps((n - 1) as nat);
            lemma_pieces_join(p, d);
            lemma_components_relative(p);
            assert(p.skip(0) =~= p);
            let j = parent_steps(n);
            assert(j.skip(0) =~= j);
            assert(dotdots((n - 1) as nat) + seq![d] =~= dotdots(n));
            assert(j == p + seq!['/'] + d);
        }
    }
}

/// Whether every component is a plain word: non-empty, no separator, no drive.
pub open spec fn plain_words(cs: Seq<Seq<char>>) -> bool {
    forall|i: int|
        0 <= i < cs.len() ==> (#[trigger] cs[i]).len() > 0 && no_sep(cs[i]) && !has_drive(cs[i])
}

proof fn lemma_join_all(cs: Seq<Seq<char>>)
    requires
        plain_words(cs),
    ensures
        pieces(join_all(cs)) =~= cs,
        !is_absolute(join_all(cs)),
        !has_drive(join_all(cs)),
        cs.len() > 0 ==> join_all(cs).len() > 0 && !is_sep(join_all(cs).last()),
    decreases cs.len(),
{
    if cs.len() == 0 {
        lemma_pieces_empty();
    } else {
        let prev = cs.drop_last();
        let w = cs.last();
        lemma_join_all(prev);
        lemma_pieces_word(w);
        assert(w.len() > 0 && no_sep(w) && !has_drive(w));
        assert(!is_sep(w[0]));
        assert(!is_sep(w.last()));
        let x = join_all(prev);
        if prev.len() == 0 {
            assert(join_all(cs) == w);
            assert(seq![w] =~= cs);
        } else {
            assert(join_all(cs) == x + seq!['/'] + w);
            lemma_pieces_concat(x, '/', w);
            assert(prev + seq![w] =~= cs);
            assert((x + seq!['/'] + w)[0] == x[0]);
            if x.len() >= 2 {
                assert((x + seq!['/'] + w)[1] == x[1]);
            } else {
                assert((x + seq!['/'] + w)[1] == '/');
            }
            assert((x + seq!['/'] + w).last() == w.last());
        }
    }
}

/// Components resolved lexically: `.` is dropped, and `..` removes the
/// component before it (a root stays).
pub open spec fn lexical(cs: Seq<Seq<char>>) -> Seq<Seq<char>>
    decreases cs.len(),
{
    if cs.len() == 0 {
        seq![]
    } else {
        let prev = lexical(cs.drop_last());
        let c = cs.last();
        if c == seq!['.'] {
            prev
        } else if c == seq!['.', '.'] && prev.len() > 0 && prev.last() != seq!['.', '.'] {
            if is_absolute(prev.last()) {
                prev
            } else {
                prev.drop_last()
            }
        } else {
            prev.push(c)
        }
    }
}

/// Whether a component is neither `.` nor `..`.
pub open spec fn not_dot(c: Seq<char>) -> bool {
    c != seq!['.'] && c != seq!['.', '.']
}

proof fn lemma_lexical_plain(cs: Seq<Seq<char>>)
    requires
        forall|i: int| 0 <= i < cs.len() ==> not_dot(#[trigger] cs[i]),
    ensures
        lexical(cs) == cs,
    decreases cs.len(),
{
    if cs.len() > 0 {
        lemma_lexical_plain(cs.drop_last());
        assert(not_dot(cs[cs.len() - 1]));
        assert(cs.drop_last().push(cs.last()) =~= cs);
    }
}

proof fn lemma_lexical_append_plain(a: Seq<Seq<char>>, rest: Seq<Seq<char>>)
    requires
        forall|i: int| 0 <= i < rest.len() ==> not_dot(#[trigger] rest[i]),
    ensures
        lexical(a + rest) == lexical(a) + rest,
    decreases rest.len(),
{
    if rest.len() == 0 {
        assert(a + rest =~= a);
        assert(lexical(a) + rest =~= lexical(a));
    } else {
        lemma_lexical_append_plain(a, rest.drop_last());
        assert((a + rest).drop_last() =~= a + rest.drop_last());
        assert((a + rest).last() == rest.last());
        assert(not_dot(rest[rest.len() - 1]));
        assert((lexical(a) + rest.drop_last()).push(rest.last()) =~= lexical(a) + rest);
    }
}

proof fn lemma_lexical_climb(bc: Seq<Seq<char>>, k: nat)
    requires
        k < bc.len(),
        forall|i: int| 0 <= i < bc.len() ==> not_dot(#[trigger] bc[i]),
        forall|i: int| 1 <= i < bc.len() ==> !is_absolute(#[trigger] bc[i]),
    ensures
        lexical(bc + dotdots(k)) == bc.take(bc.len() - k),
    decreases k,
{
    if k == 0 {
        assert(bc + dotdots(0) =~= bc);
        assert(bc.take(bc.len() as int) =~= bc);
        lemma_lexical_plain(bc);
    } else {
        lemma_lexical_climb(bc, (k - 1) as nat);
        let s = bc + dotdots(k);
        assert(s.drop_last() =~= bc + dotdots((k - 1) as nat));
        assert(s.last() == seq!['.', '.']);
        let prev = bc.take(bc.len() - k + 1);
        assert(prev.last() == bc[bc.len() - k]);
        assert(not_dot(bc[bc.len() - k]));
        assert(!is_absolute(bc[bc.len() - k]));
        assert(prev.drop_last() =~= bc.take(bc.len() - k));
    }
}

proof fn lemma_common_len(a: Seq<Seq<char>>, b: Seq<Seq<char>>, i: int)
    requires
        0 <= i <= a.len(),
        i <= b.len(),
        a.take(i) == b.take(i),
    ensures
        i <= common_len(a, b, i) <= a.len(),
        common_len(a, b, i) <= b.len(),
        a.take(common_len(a, b, i)) == b.take(common_len(a, b, i)),
    decreases a.len() - i,
{
    if i < a.len() && i < b.len() && a[i] == b[i] {
        assert(a.take(i + 1) =~= a.take(i).push(a[i]));
        assert(b.take(i + 1) =~= b.take(i).push(b[i]));
        lemma_common_len(a, b, i + 1);
    }
}

/// Whether `p` is absolute and each component after its root is a plain
/// word other than `.` and `..` (as a canonical path is).
pub open spec fn is_canonical(p: Seq<char>) -> bool {
    &&& is_absolute(p)
    &&& forall|i: int| 0 <= i < pieces(p.skip(root_len(p) as int)).len() ==> {
        &&& not_dot(#[trigger] pieces(p.skip(root_len(p) as int))[i])
        &&& !has_drive(pieces(p.skip(root_len(p) as int))[i])
    }
}

/// The path that `relative_path` gives leads from `base` back to `target`:
/// joined onto `base` and resolved lexically, it has the components of `target`.
pub proof fn lemma_relative_path_leads_back(target: Seq<char>, base: Seq<char>)
    requires
        is_canonical(target),
        is_canonical(base),
        relative_path(target, base) is Some,
    ensures
        !is_absolute(relative_path(target, base)->0),
        lexical(components(join(base, relative_path(target, base)->0))) == components(target),
{
    let tc = components(target);
    let bc = components(base);
    let rt = root_len(target) as int;
    let rb = root_len(base) as int;
    let tp = pieces(target.skip(rt));
    let bp = pieces(base.skip(rb));
    lemma_pieces_are_words(target.skip(rt));
    lemma_pieces_are_words(base.skip(rb));
    assert(tc == seq![target.take(rt)] + tp);
    assert(bc == seq![base.take(rb)] + bp);
    assert(Seq::<Seq<char>>::empty().take(0) =~= Seq::<Seq<char>>::empty());
    assert(tc.take(0) =~= bc.take(0));
    lemma_common_len(tc, bc, 0);
    let c = common_len(tc, bc, 0);
    let ups = (bc.len() - c) as nat;
    let rest = tc.skip(c);
    let ps = parent_steps(ups);
    let ja = join_all(rest);
    let r = join(ps, ja);
    assert(relative_path(target, base) == Some(r));
    assert forall|i: int| 0 <= i < rest.len() implies (#[trigger] rest[i]).len() > 0 && no_sep(
        rest[i],
    ) && !has_drive(rest[i]) && not_dot(rest[i]) by {
        assert(rest[i] == tc[c + i]);
        assert(tc[c + i] == tp[c + i - 1]);
    }
    lemma_join_all(rest);
    lemma_parent_steps(ups);
    // the pieces of r: `..` for each step up, then the rest of the target
    if ups == 0 {
        assert(r == ja);
        assert(dotdots(0) + rest =~= rest);
    } else {
        lemma_pieces_join(ps, ja);
        lemma_components_relative(ps);
        assert(ps.skip(0) =~= ps);
        assert(r.skip(0) =~= r);
    }
    assert(pieces(r) == dotdots(ups) + rest);
    assert(!is_absolute(r) && !has_drive(r)) by {
        if ups > 0 {
            if is_sep(ps.last()) {
                assert(r == ps + ja);
            } else {
                assert(r == ps + seq!['/'] + ja);
            }
            assert(r[0] == '.');
            assert(r[0] == ps[0]);
        }
    }
    // components of the joined path
    let j = join(base, r);
    lemma_pieces_join(base, r);
    assert(j.take(rb) =~= base.take(rb)) by {
        if is_sep(base.last()) {
            assert(j == base + r);
        } else {
            assert(j == base + seq!['/'] + r);
        }
    }
    assert(components(j) == seq![base.take(rb)] + pieces(j.skip(rb)));
    assert(pieces(j.skip(rb)) == bp + pieces(r));
    assert(components(j) =~= bc + dotdots(ups) + rest);
    // resolving
    assert forall|i: int| 0 <= i < bc.len() implies not_dot(#[trigger] bc[i]) by {
        if i == 0 {
            assert(bc[0] == base.take(rb));
            assert(base.take(rb)[0] == base[0]);
        } else {
            assert(bc[i] == bp[i - 1]);
        }
    }
    assert forall|i: int| 1 <= i < bc.len() implies !is_absolute(#[trigger] bc[i]) by {
        assert(bc[i] == bp[i - 1]);
        assert(bp[i - 1].len() > 0 && no_sep(bp[i - 1]));
        assert(!is_sep(bp[i - 1][0]));
    }
    lemma_lexical_climb(bc, ups);
    assert(bc.take(bc.len() - ups) == tc.take(c));
    lemma_lexical_append_plain(bc + dotdots(ups), rest);
    assert(bc + dotdots(ups) + rest =~= (bc + dotdots(ups)) + rest);
    assert(tc.take(c) + rest =~= tc);
}

/// A canonical path is already resolved: resolving its components lexically
/// changes nothing.
pub proof fn lemma_canonical_is_resolved(p: Seq<char>)
    requires
        is_canonical(p),
    ensures
        lexical(components(p)) == components(p),
{
    let r = root_len(p) as int;
    let ps = pieces(p.skip(r));
    let cs = components(p);
    assert(cs == seq![p.take(r)] + ps);
    assert forall|i: int| 0 <= i < cs.len() implies not_dot(#[trigger] cs[i]) by {
        if i == 0 {
            assert(cs[0] == p.take(r));
            assert(p.take(r)[0] == p[0]);
        } else {
            assert(cs[i] == ps[i - 1]);
        }
    }
    lemma_lexical_plain(cs);
}

/// Two absolute paths get a relative path from one to the other exactly when
/// they share their root (the same `/`, or the same drive): sharing only the
/// root is enough.
pub proof fn lemma_relative_path_exists_iff_same_root(target: Seq<char>, base: Seq<char>)
    requires
        is_absolute(target),
        is_absolute(base),
    ensures
        relative_path(target, base) is Some <==> target.take(root_len(target) as int) == base.take(
            root_len(base) as int,
        ),
{
    let tc = components(target);
    let bc = components(base);
    let rt = root_len(target) as int;
    let rb = root_len(base) as int;
    assert(tc[0] == target.take(rt));
    assert(bc[0] == base.take(rb));
    if target.take(rt) == base.take(rb) {
        assert(tc.take(1) =~= bc.take(1));
        lemma_common_len(tc, bc, 1);
        assert(common_len(tc, bc, 0) == common_len(tc, bc, 1));
    } else {
        assert(common_len(tc, bc, 0) == 0);
    }
}

proof fn lemma_last_sep_is(p: Seq<char>, lo: int, hi: int, k: int)
    requires
        0 <= lo <= k < hi <= p.len(),
        is_sep(p[k]),
        forall|i: int| k < i < hi ==> !is_sep(#[trigger] p[i]),
    ensures
        last_sep_in(p, lo, hi) == Some(k),
    decreases hi,
{
    if hi - 1 > k {
        assert(!is_sep(p[hi - 1]));
        lemma_last_sep_is(p, lo, hi - 1, k);
    }
}

/// A directory `d` followed by `/` and a plain name: its parent is `d` and its
/// file name is the name. `d` ends neither with a separator nor with a `.`
/// component beyond its root, and the root of the whole path lies within `d`.
pub proof fn lemma_parent_and_name_of_child(d: Seq<char>, name: Seq<char>)
    requires
        name.len() > 0,
        no_sep(name),
        name != seq!['.'],
        name != seq!['.', '.'],
        d.len() > 0,
        trim_trailing_curdirs(d) == d,
        root_len(d + seq!['/'] + name) <= d.len(),
    ensures
        parent(d + seq!['/'] + name) == Some(d),
        file_name(d + seq!['/'] + name) == Some(name),
{
    let p = d + seq!['/'] + name;
    let n = d.len() as int;
    assert(p[n] == '/');
    assert forall|i: int| n < i < p.len() implies !is_sep(#[trigger] p[i]) by {
        assert(p[i] == name[i - n - 1]);
    }
    assert(p.last() == name.last());
    assert(!is_sep(name[name.len() - 1]));
    if name.len() == 1 {
        if name[0] == '.' {
            assert(name =~= seq!['.']);
        }
        assert(p.last() == name[0]);
    } else {
        assert(p[p.len() - 2] == name[name.len() - 2]);
        assert(!is_sep(name[name.len() - 2]));
    }
    assert(trim_trailing_curdirs(p) == p);
    let r = root_len(p) as int;
    lemma_last_sep_is(p, r, p.len() as int, n);
    assert(p.take(n) =~= d);
    assert(p.skip(n + 1) =~= name);
}

} // verus!
