//! Unix path rules, as `std::path::Path` applies them, on paths held as text.
use vstd::prelude::*;

use crate::text::{chars_of, join, join_with, lemma_seqs_push, push_all, seqs, string_of};

verus! {

/// The pieces of `s` between `'/'` separators, empty ones included.
pub open spec fn segments_state(s: Seq<char>) -> (Seq<Seq<char>>, Seq<char>)
    decreases s.len(),
{
    if s.len() == 0 {
        (Seq::empty(), Seq::empty())
    } else {
        let (done, cur) = segments_state(s.drop_last());
        if s.last() == '/' {
            (done.push(cur), Seq::empty())
        } else {
            (done, cur.push(s.last()))
        }
    }
}

pub open spec fn segments(s: Seq<char>) -> Seq<Seq<char>> {
    let (done, cur) = segments_state(s);
    done.push(cur)
}

pub open spec fn root_dir() -> Seq<char> {
    seq!['/']
}

pub open spec fn cur_dir() -> Seq<char> {
    seq!['.']
}

pub open spec fn parent_dir() -> Seq<char> {
    seq!['.', '.']
}

/// The segments that name something: neither empty nor `"."`.
pub open spec fn named(segs: Seq<Seq<char>>) -> Seq<Seq<char>>
    decreases segs.len(),
{
    if segs.len() == 0 {
        Seq::empty()
    } else {
        let r = named(segs.drop_last());
        let x = segs.last();
        if x.len() == 0 || x == cur_dir() {
            r
        } else {
            r.push(x)
        }
    }
}

/// Whether `s` is absolute: on Unix, whether it starts with `'/'`.
pub open spec fn is_absolute(s: Seq<char>) -> bool {
    s.len() > 0 && s[0] == '/'
}

/// The components of `s` as `Path::components` yields them, each as its
/// text: `"/"` for the root, `"."` for a leading current directory, then
/// the named segments (`".."` for a parent).
pub open spec fn components(s: Seq<char>) -> Seq<Seq<char>> {
    let segs = segments(s);
    if is_absolute(s) {
        seq![root_dir()] + named(segs)
    } else if segs[0] == cur_dir() {
        seq![cur_dir()] + named(segs.drop_first())
    } else {
        named(segs)
    }
}

/// The component that names a file: the last one, unless it is the root,
/// `"."` or `".."`.
pub open spec fn file_name(s: Seq<char>) -> Option<Seq<char>> {
    let cs = components(s);
    if cs.len() == 0 || cs.last() == root_dir() || cs.last() == cur_dir() || cs.last()
        == parent_dir() {
        None
    } else {
        Some(cs.last())
    }
}

/// The position of the last `'.'` of `s` before `n`, if any.
pub open spec fn last_dot(s: Seq<char>, n: int) -> Option<int>
    decreases n,
{
    if n <= 0 {
        None
    } else if s[n - 1] == '.' {
        Some(n - 1)
    } else {
        last_dot(s, n - 1)
    }
}

/// The extension of a file name: what follows its last `'.'`, unless that
/// dot is the first character.
pub open spec fn extension(name: Seq<char>) -> Option<Seq<char>> {
    match last_dot(name, name.len() as int) {
        Some(i) => if i == 0 {
            None
        } else {
            Some(name.skip(i + 1))
        },
        None => None,
    }
}

/// ASCII letters in lower case, other characters as they are.
pub open spec fn ascii_lower(c: char) -> char {
    if 'A' <= c <= 'Z' {
        ((c as u32) + 32) as char
    } else {
        c
    }
}

/// Whether `path` names a Markdown file: its extension is `md` in any ASCII
/// case.
pub open spec fn spec_is_markdown_file(path: Seq<char>) -> bool {
    match file_name(path) {
        Some(name) => match extension(name) {
            Some(ext) => ext.len() == 2 && ascii_lower(ext[0]) == 'm' && ascii_lower(ext[1]) == 'd',
            None => false,
        },
        None => false,
    }
}

pub open spec fn obsidian_dir() -> Seq<char> {
    seq!['.', 'o', 'b', 's', 'i', 'd', 'i', 'a', 'n']
}

/// Whether a walk goes into (or yields) an entry: not the Obsidian settings
/// directory when those are excluded, and not a hidden entry below the root
/// when hidden entries are excluded.
pub open spec fn spec_should_descend(
    name: Seq<char>,
    is_dir: bool,
    depth: nat,
    exclude_hidden: bool,
    exclude_obsidian_dir: bool,
) -> bool {
    &&& !(exclude_obsidian_dir && is_dir && name == obsidian_dir())
    &&& !(exclude_hidden && depth > 0 && name.len() > 0 && name[0] == '.')
}

/// The components of `path` after those of `base`, if `base`'s components
/// begin `path`'s, as `Path::strip_prefix` finds them.
pub open spec fn strip_components(path: Seq<char>, base: Seq<char>) -> Option<Seq<Seq<char>>> {
    let p = components(path);
    let b = components(base);
    if b.len() <= p.len() && p.take(b.len() as int) == b {
        Some(p.skip(b.len() as int))
    } else {
        None
    }
}

/// The path of `path` below `root`, its components joined with `'/'`.
pub open spec fn spec_relative_path(root: Seq<char>, path: Seq<char>) -> Option<Seq<char>> {
    match strip_components(path, root) {
        Some(rest) => Some(join(rest, root_dir())),
        None => None,
    }
}

/// `rel` appended to `base` as `Path::join` does for a relative path: with a
/// `'/'` between them unless `base` is empty or already ends with one.
pub open spec fn join_path(base: Seq<char>, rel: Seq<char>) -> Seq<char> {
    if base.len() == 0 || base.last() == '/' {
        base + rel
    } else {
        base + root_dir() + rel
    }
}

fn split_segments(v: &Vec<char>) -> (r: Vec<Vec<char>>)
    ensures
        seqs(r@) == segments(v@),
{
    let mut done: Vec<Vec<char>> = Vec::new();
    let mut cur: Vec<char> = Vec::new();
    assert(v@.take(0) =~= Seq::<char>::empty());
    assert(seqs(done@) =~= Seq::<Seq<char>>::empty());
    for i in 0..v.len()
        invariant
            (seqs(done@), cur@) == segments_state(v@.take(i as int)),
    {
        assert(v@.take(i + 1).drop_last() =~= v@.take(i as int));
        if v[i] == '/' {
            let piece = cur;
            proof {
                lemma_seqs_push(done@, piece);
            }
            done.push(piece);
            cur = Vec::new();
        } else {
            cur.push(v[i]);
        }
    }
    assert(v@.take(v.len() as int) =~= v@);
    proof {
        lemma_seqs_push(done@, cur);
    }
    done.push(cur);
    done
}

fn is_cur_dir(v: &Vec<char>) -> (r: bool)
    ensures
        r == (v@ == cur_dir()),
{
    if v.len() == 1 && v[0] == '.' {
        assert(v@ =~= cur_dir());
        true
    } else {
        false
    }
}

fn is_parent_dir(v: &Vec<char>) -> (r: bool)
    ensures
        r == (v@ == parent_dir()),
{
    if v.len() == 2 && v[0] == '.' && v[1] == '.' {
        assert(v@ =~= parent_dir());
        true
    } else {
        false
    }
}

/// The components of `s`, as `Path::components` yields them.
pub fn path_components(s: &str) -> (r: Vec<Vec<char>>)
    ensures
        seqs(r@) == components(s@),
{
    let v = chars_of(s);
    let segs = split_segments(&v);
    let ghost ss = seqs(segs@);
    assert(ss.len() == segs@.len());
    let mut r: Vec<Vec<char>> = Vec::new();
    let absolute = v.len() > 0 && v[0] == '/';
    let mut start: usize = 0;
    if absolute {
        let mut root: Vec<char> = Vec::new();
        root.push('/');
        assert(root@ =~= root_dir());
        r.push(root);
    } else if is_cur_dir(&segs[0]) {
        let mut cur: Vec<char> = Vec::new();
        cur.push('.');
        assert(cur@ =~= cur_dir());
        r.push(cur);
        start = 1;
    }
    let ghost head = seqs(r@);
    let ghost tail = ss.skip(start as int);
    assert(tail.take(0) =~= Seq::<Seq<char>>::empty());
    assert(head + named(tail.take(0)) =~= head);
    let mut i = start;
    while i < segs.len()
        invariant
            start <= i <= segs@.len(),
            ss == seqs(segs@),
            tail == ss.skip(start as int),
            seqs(r@) == head + named(tail.take(i - start)),
        decreases segs@.len() - i,
    {
        assert(tail.take(i - start + 1).drop_last() =~= tail.take(i - start));
        assert(tail.take(i - start + 1).last() == segs@[i as int]@);
        if segs[i].len() > 0 && !is_cur_dir(&segs[i]) {
            let mut x: Vec<char> = Vec::new();
            push_all(&mut x, &segs[i]);
            assert(x@ =~= segs@[i as int]@);
            proof {
                lemma_seqs_push(r@, x);
            }
            r.push(x);
        }
        i = i + 1;
    }
    assert(tail.take(segs@.len() - start) =~= tail);
    proof {
        if start == 1 {
            assert(ss.drop_first() =~= ss.skip(1));
        } else {
            assert(ss.skip(0) =~= ss);
        }
    }
    r
}

/// Whether `path` names a Markdown file by its extension.
pub fn is_markdown_file(path: &str) -> (r: bool)
    ensures
        r == spec_is_markdown_file(path@),
{
    let cs = path_components(path);
    let n = cs.len();
    if n == 0 {
        return false;
    }
    let name = &cs[n - 1];
    let root = name.len() == 1 && name[0] == '/';
    proof {
        if root {
            assert(name@ =~= root_dir());
        } else {
            assert(name@ != root_dir()) by {
                if name@ == root_dir() {
                    assert(name@.len() == 1 && name@[0] == '/');
                }
            }
        }
    }
    if root || is_cur_dir(name) || is_parent_dir(name) {
        return false;
    }
    let len = name.len();
    let mut j = len;
    while j > 0 && name[j - 1] != '.'
        invariant
            j <= len == name@.len(),
            last_dot(name@, len as int) == last_dot(name@, j as int),
        decreases j,
    {
        j = j - 1;
    }
    if j <= 1 {
        return false;
    }
    let dot = j - 1;
    if len - dot - 1 != 2 {
        return false;
    }
    let a = name[dot + 1];
    let b = name[dot + 2];
    let ghost ext = name@.skip(dot + 1);
    assert(ext[0] == a && ext[1] == b);
    (a == 'm' || a == 'M') && (b == 'd' || b == 'D')
}

/// Whether a directory walk goes into, or yields, an entry named `name`.
pub fn should_descend(
    name: &str,
    is_dir: bool,
    depth: usize,
    exclude_hidden: bool,
    exclude_obsidian_dir: bool,
) -> (r: bool)
    ensures
        r == spec_should_descend(name@, is_dir, depth as nat, exclude_hidden, exclude_obsidian_dir),
{
    let v = chars_of(name);
    let obsidian = lit_obsidian();
    let mut same = v.len() == obsidian.len();
    let mut k: usize = 0;
    while same && k < v.len()
        invariant
            obsidian@ == obsidian_dir(),
            k <= v@.len(),
            same ==> v@.len() == obsidian@.len(),
            same ==> forall|m: int| 0 <= m < k ==> v@[m] == obsidian@[m],
            !same ==> v@ != obsidian_dir(),
        decreases v@.len() - k,
    {
        if v[k] != obsidian[k] {
            same = false;
        }
        k = k + 1;
    }
    if same {
        assert(v@ =~= obsidian_dir());
    }
    if exclude_obsidian_dir && is_dir && same {
        return false;
    }
    if exclude_hidden && depth > 0 && v.len() > 0 && v[0] == '.' {
        return false;
    }
    true
}

fn lit_obsidian() -> (r: Vec<char>)
    ensures
        r@ == obsidian_dir(),
{
    let r = chars_of(".obsidian");
    proof {
        reveal_strlit(".obsidian");
    }
    assert(r@ =~= obsidian_dir());
    r
}

/// The path of `path` below `root`, its components joined with `'/'`, or
/// `None` when `path` is not below `root`.
pub fn relative_path(root: &str, path: &str) -> (r: Option<String>)
    ensures
        match r {
            Some(s) => spec_relative_path(root@, path@) == Some(s@),
            None => spec_relative_path(root@, path@) is None,
        },
{
    let p = path_components(path);
    let b = path_components(root);
    let ghost ps = seqs(p@);
    let ghost bs = seqs(b@);
    if b.len() > p.len() {
        return None;
    }
    let mut k: usize = 0;
    while k < b.len()
        invariant
            b@.len() <= p@.len(),
            ps == seqs(p@),
            bs == seqs(b@),
            ps == components(path@),
            bs == components(root@),
            k <= b@.len(),
            ps.take(k as int) == bs.take(k as int),
        decreases b@.len() - k,
    {
        if !same_chars(&p[k], &b[k]) {
            assert(ps[k as int] == p@[k as int]@);
            assert(bs[k as int] == b@[k as int]@);
            assert(ps.take(bs.len() as int)[k as int] != bs[k as int]);
            assert(ps.take(bs.len() as int) != bs);
            return None;
        }
        assert(ps.take(k + 1) =~= ps.take(k as int).push(ps[k as int]));
        assert(bs.take(k + 1) =~= bs.take(k as int).push(bs[k as int]));
        k = k + 1;
    }
    assert(bs.take(bs.len() as int) =~= bs);
    let mut rest: Vec<Vec<char>> = Vec::new();
    let mut i = b.len();
    assert(ps.skip(b@.len() as int).take(0) =~= Seq::<Seq<char>>::empty());
    assert(seqs(rest@) =~= Seq::<Seq<char>>::empty());
    while i < p.len()
        invariant
            b@.len() <= i <= p@.len(),
            ps == seqs(p@),
            seqs(rest@) == ps.skip(b@.len() as int).take(i - b@.len()),
        decreases p@.len() - i,
    {
        let mut x: Vec<char> = Vec::new();
        push_all(&mut x, &p[i]);
        proof {
            lemma_seqs_push(rest@, x);
        }
        rest.push(x);
        assert(ps.skip(b@.len() as int).take(i + 1 - b@.len()) =~= ps.skip(b@.len() as int).take(
            i - b@.len(),
        ).push(ps[i as int]));
        i = i + 1;
    }
    assert(ps.skip(b@.len() as int).take(p@.len() - b@.len()) =~= ps.skip(b@.len() as int));
    let mut sep: Vec<char> = Vec::new();
    sep.push('/');
    assert(sep@ =~= root_dir());
    let joined = join_with(&rest, &sep);
    Some(string_of(&joined))
}

fn same_chars(a: &Vec<char>, b: &Vec<char>) -> (r: bool)
    ensures
        r == (a@ == b@),
{
    if a.len() != b.len() {
        return false;
    }
    let mut k: usize = 0;
    while k < a.len()
        invariant
            a@.len() == b@.len(),
            k <= a@.len(),
            forall|m: int| 0 <= m < k ==> a@[m] == b@[m],
        decreases a@.len() - k,
    {
        if a[k] != b[k] {
            return false;
        }
        k = k + 1;
    }
    assert(a@ =~= b@);
    true
}

/// Whether `path` lies at or below `base`: `base`'s components begin
/// `path`'s, as `Path::starts_with` decides.
pub fn path_starts_with(path: &str, base: &str) -> (r: bool)
    ensures
        r == (strip_components(path@, base@) is Some),
{
    let p = path_components(path);
    let b = path_components(base);
    let ghost ps = seqs(p@);
    let ghost bs = seqs(b@);
    if b.len() > p.len() {
        return false;
    }
    let mut k: usize = 0;
    while k < b.len()
        invariant
            b@.len() <= p@.len(),
            ps == seqs(p@),
            bs == seqs(b@),
            ps == components(path@),
            bs == components(base@),
            k <= b@.len(),
            ps.take(k as int) == bs.take(k as int),
        decreases b@.len() - k,
    {
        if !same_chars(&p[k], &b[k]) {
            assert(ps[k as int] == p@[k as int]@);
            assert(bs[k as int] == b@[k as int]@);
            assert(ps.take(bs.len() as int)[k as int] != bs[k as int]);
            assert(ps.take(bs.len() as int) != bs);
            return false;
        }
        assert(ps.take(k + 1) =~= ps.take(k as int).push(ps[k as int]));
        assert(bs.take(k + 1) =~= bs.take(k as int).push(bs[k as int]));
        k = k + 1;
    }
    assert(bs.take(bs.len() as int) =~= bs);
    true
}

/// Whether some component of `s` is `".."`.
pub open spec fn has_parent_dir(s: Seq<char>) -> bool {
    exists|i: int| 0 <= i < components(s).len() && #[trigger] components(s)[i] == parent_dir()
}

/// Whether `path` climbs to a parent directory anywhere.
pub fn has_parent_component(path: &str) -> (r: bool)
    ensures
        r == has_parent_dir(path@),
{
    let cs = path_components(path);
    let ghost v = seqs(cs@);
    for i in 0..cs.len()
        invariant
            v == seqs(cs@),
            v == components(path@),
            forall|k: int| 0 <= k < i ==> v[k] != parent_dir(),
    {
        if is_parent_dir(&cs[i]) {
            assert(v[i as int] == parent_dir());
            return true;
        }
    }
    false
}

/// `rel` joined onto `base`, as `Path::join` does for a relative path.
pub fn join_relative(base: &str, rel: &str) -> (r: String)
    requires
        !is_absolute(rel@),
    ensures
        r@ == join_path(base@, rel@),
{
    let mut v = chars_of(base);
    let n = v.len();
    if n > 0 && v[n - 1] != '/' {
        v.push('/');
    }
    let rv = chars_of(rel);
    push_all(&mut v, &rv);
    assert(v@ =~= join_path(base@, rel@));
    string_of(&v)
}


proof fn lemma_segments_state_concat(p: Seq<char>, q: Seq<char>)
    ensures
        segments_state(p + seq!['/'] + q) == (segments(p) + segments_state(q).0, segments_state(
            q,
        ).1),
    decreases q.len(),
{
    let s = p + seq!['/'] + q;
    if q.len() == 0 {
        assert(s =~= p + seq!['/']);
        assert(s.drop_last() =~= p);
        assert(segments(p) + Seq::<Seq<char>>::empty() =~= segments(p));
    } else {
        assert(s.drop_last() =~= p + seq!['/'] + q.drop_last());
        assert(s.last() == q.last());
        lemma_segments_state_concat(p, q.drop_last());
        let (d, c) = segments_state(q.drop_last());
        assert((segments(p) + d).push(c) =~= segments(p) + d.push(c));
    }
}

proof fn lemma_segments_concat(p: Seq<char>, q: Seq<char>)
    ensures
        segments(p + seq!['/'] + q) == segments(p) + segments(q),
{
    lemma_segments_state_concat(p, q);
    let (d, c) = segments_state(q);
    assert((segments(p) + d).push(c) =~= segments(p) + d.push(c));
}

proof fn lemma_segments_nonempty(s: Seq<char>)
    ensures
        segments(s).len() >= 1,
{
}

proof fn lemma_named_concat(a: Seq<Seq<char>>, b: Seq<Seq<char>>)
    ensures
        named(a + b) == named(a) + named(b),
    decreases b.len(),
{
    if b.len() == 0 {
        assert(a + b =~= a);
        assert(named(a) + named(b) =~= named(a));
    } else {
        assert((a + b).drop_last() =~= a + b.drop_last());
        assert((a + b).last() == b.last());
        lemma_named_concat(a, b.drop_last());
        let x = b.last();
        if !(x.len() == 0 || x == cur_dir()) {
            assert((named(a) + named(b.drop_last())).push(x) =~= named(a) + named(
                b.drop_last(),
            ).push(x));
        }
    }
}

proof fn lemma_named_single(x: Seq<char>)
    ensures
        (x.len() == 0 || x == cur_dir()) ==> named(seq![x]) == Seq::<Seq<char>>::empty(),
{
    assert(seq![x].drop_last() =~= Seq::<Seq<char>>::empty());
    assert(named(Seq::<Seq<char>>::empty()) =~= Seq::<Seq<char>>::empty());
    assert(seq![x].last() == x);
}

proof fn lemma_named_elements(segs: Seq<Seq<char>>)
    ensures
        forall|i: int|
            0 <= i < named(segs).len() ==> exists|j: int|
                0 <= j < segs.len() && #[trigger] named(segs)[i] == segs[j],
    decreases segs.len(),
{
    if segs.len() > 0 {
        let prev = segs.drop_last();
        lemma_named_elements(prev);
        assert forall|i: int| 0 <= i < named(segs).len() implies exists|j: int|
            0 <= j < segs.len() && #[trigger] named(segs)[i] == segs[j] by {
            if i < named(prev).len() {
                assert(named(segs)[i] == named(prev)[i]);
                let j = choose|j: int| 0 <= j < prev.len() && named(prev)[i] == prev[j];
                assert(segs[j] == prev[j]);
            } else {
                assert(named(segs)[i] == segs[segs.len() - 1]);
            }
        }
    }
}

/// The components of a path joined under `base`: those of `base`, then the
/// named segments of `rel`.
proof fn lemma_join_components(base: Seq<char>, rel: Seq<char>)
    requires
        !is_absolute(rel),
    ensures
        base.len() == 0 ==> components(join_path(base, rel)) == components(rel),
        base.len() > 0 ==> components(join_path(base, rel)) == components(base) + named(
            segments(rel),
        ),
{
    let j = join_path(base, rel);
    let sr = segments(rel);
    if base.len() == 0 {
        assert(j =~= rel);
    } else {
        // `base` splits as `b + '/' + z`, with `z` empty when it ends in '/'.
        let b = if base.last() == '/' {
            base.drop_last()
        } else {
            base
        };
        let z = Seq::<char>::empty();
        if base.last() == '/' {
            assert(base =~= b + seq!['/'] + z);
            assert(j =~= b + seq!['/'] + rel);
        } else {
            assert(j =~= b + seq!['/'] + rel);
        }
        let sb = segments(b);
        lemma_segments_concat(b, rel);
        lemma_named_concat(sb, sr);
        let sbase = segments(base);
        let tail = if base.last() == '/' {
            segments(z)
        } else {
            Seq::<Seq<char>>::empty()
        };
        if base.last() == '/' {
            lemma_segments_concat(b, z);
            assert(segments(z) =~= seq![Seq::<char>::empty()]);
            lemma_named_single(Seq::<char>::empty());
        } else {
            assert(sbase + tail =~= sbase);
        }
        assert(sbase == sb + tail);
        lemma_named_concat(sb, tail);
        assert(named(tail) =~= Seq::<Seq<char>>::empty());
        assert(named(sbase) =~= named(sb));
        assert(segments(j) == sb + sr);
        lemma_segments_nonempty(b);
        assert(segments(j)[0] == sb[0]);
        assert(sbase[0] == sb[0]);
        assert(is_absolute(j) == is_absolute(base)) by {
            if b.len() > 0 {
                assert(j[0] == b[0]);
                assert(base[0] == b[0]);
            } else {
                assert(base =~= seq!['/']);
                assert(j[0] == '/');
            }
        }
        if !is_absolute(base) && sb[0] == cur_dir() {
            assert((sb + sr).drop_first() =~= sb.drop_first() + sr);
            assert((sb + tail).drop_first() =~= sb.drop_first() + tail);
            lemma_named_concat(sb.drop_first(), sr);
            lemma_named_concat(sb.drop_first(), tail);
            assert(components(base) =~= seq![cur_dir()] + named(sb.drop_first()));
            assert(components(j) =~= seq![cur_dir()] + named(sb.drop_first()) + named(sr));
        }
        assert(components(j) =~= components(base) + named(sr));
    }
}

/// A relative path joined under a base stays below it: the base's
/// components begin the joined path's, and what follows them climbs to no
/// parent unless the relative path does.
pub proof fn law_join_stays_under_base(base: Seq<char>, rel: Seq<char>)
    requires
        !is_absolute(rel),
    ensures
        strip_components(join_path(base, rel), base) matches Some(rest) && (!has_parent_dir(rel)
            ==> !rest.contains(parent_dir())),
{
    lemma_join_components(base, rel);
    let cb = components(base);
    let sr = segments(rel);
    let cr = components(rel);
    let cj = components(join_path(base, rel));
    if base.len() == 0 {
        let sb = segments(base);
        assert(sb =~= seq![Seq::<char>::empty()]);
        lemma_named_single(Seq::<char>::empty());
        assert(cb =~= Seq::<Seq<char>>::empty());
        assert(cj.take(cb.len() as int) =~= cb);
        assert(cj.skip(0) =~= cr);
        if !has_parent_dir(rel) && cr.contains(parent_dir()) {
            let i = choose|i: int| 0 <= i < cr.len() && cr[i] == parent_dir();
        }
    } else {
        assert(cj.take(cb.len() as int) =~= cb);
        assert(cj.skip(cb.len() as int) =~= named(sr));
        if !has_parent_dir(rel) && named(sr).contains(parent_dir()) {
            let i = choose|i: int| 0 <= i < named(sr).len() && named(sr)[i] == parent_dir();
            lemma_named_elements(sr);
            let k = choose|k: int| 0 <= k < sr.len() && named(sr)[i] == sr[k];
            if sr[0] == cur_dir() {
                assert(cur_dir().len() != parent_dir().len());
                assert(k != 0);
                assert(sr =~= seq![sr[0]] + sr.drop_first());
                lemma_named_concat(seq![sr[0]], sr.drop_first());
                lemma_named_single(sr[0]);
                assert(named(sr) =~= named(sr.drop_first()));
                assert(cr =~= seq![cur_dir()] + named(sr.drop_first()));
                assert(cr[i + 1] == named(sr)[i]);
            } else {
                assert(cr == named(sr));
                assert(cr[i] == parent_dir());
            }
        }
    }
}


/// The walk's descent rules: with hidden entries excluded, no entry below the
/// root whose name starts with `'.'` is entered, at whatever depth; with the
/// Obsidian directory excluded, no directory named `.obsidian` is; every
/// other entry is.
pub proof fn law_descent(
    name: Seq<char>,
    is_dir: bool,
    depth: nat,
    exclude_hidden: bool,
    exclude_obsidian_dir: bool,
)
    ensures
        exclude_hidden && depth > 0 && name.len() > 0 && name[0] == '.' ==> !spec_should_descend(
            name,
            is_dir,
            depth,
            exclude_hidden,
            exclude_obsidian_dir,
        ),
        exclude_obsidian_dir && is_dir && name == seq!['.', 'o', 'b', 's', 'i', 'd', 'i', 'a', 'n']
            ==> !spec_should_descend(name, is_dir, depth, exclude_hidden, exclude_obsidian_dir),
        !(name.len() > 0 && name[0] == '.') ==> spec_should_descend(
            name,
            is_dir,
            depth,
            exclude_hidden,
            exclude_obsidian_dir,
        ),
        !exclude_hidden && !(exclude_obsidian_dir && is_dir && name == seq![
            '.',
            'o',
            'b',
            's',
            'i',
            'd',
            'i',
            'a',
            'n',
        ]) ==> spec_should_descend(name, is_dir, depth, exclude_hidden, exclude_obsidian_dir),
        depth == 0 && !(exclude_obsidian_dir && is_dir && name == seq![
            '.',
            'o',
            'b',
            's',
            'i',
            'd',
            'i',
            'a',
            'n',
        ]) ==> spec_should_descend(name, is_dir, depth, exclude_hidden, exclude_obsidian_dir),
{
    assert(obsidian_dir() =~= seq!['.', 'o', 'b', 's', 'i', 'd', 'i', 'a', 'n']);
    if !(name.len() > 0 && name[0] == '.') {
        assert(name != obsidian_dir());
    }
}

} // verus!
