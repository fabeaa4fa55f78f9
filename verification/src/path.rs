//! Unix paths held as text: their components, their order and equality
//! (component by component, as std's `Path` compares them), their final name,
//! and joining.
use vstd::prelude::*;

use crate::text;
use crate::text::split_chars;

verus! {

// ---------------------------------------------------------------------------
// Lexicographic order on code sequences.
// ---------------------------------------------------------------------------

/// `a` sorts before `b`, element by element, a proper prefix first.
pub open spec fn lex_lt(a: Seq<u32>, b: Seq<u32>) -> bool
    decreases a.len(),
{
    if a.len() == 0 {
        b.len() > 0
    } else if b.len() == 0 {
        false
    } else if a[0] < b[0] {
        true
    } else if a[0] > b[0] {
        false
    } else {
        lex_lt(a.drop_first(), b.drop_first())
    }
}

pub proof fn lemma_lex_irreflexive(a: Seq<u32>)
    ensures
        !lex_lt(a, a),
    decreases a.len(),
{
    if a.len() > 0 {
        lemma_lex_irreflexive(a.drop_first());
    }
}

pub proof fn lemma_lex_transitive(a: Seq<u32>, b: Seq<u32>, c: Seq<u32>)
    requires
        lex_lt(a, b),
        lex_lt(b, c),
    ensures
        lex_lt(a, c),
    decreases a.len(),
{
    if a.len() > 0 && b.len() > 0 && c.len() > 0 && a[0] == b[0] && b[0] == c[0] {
        lemma_lex_transitive(a.drop_first(), b.drop_first(), c.drop_first());
    }
}

pub proof fn lemma_lex_total(a: Seq<u32>, b: Seq<u32>)
    ensures
        lex_lt(a, b) || lex_lt(b, a) || a == b,
    decreases a.len(),
{
    if a.len() > 0 && b.len() > 0 && a[0] == b[0] {
        lemma_lex_total(a.drop_first(), b.drop_first());
        if a.drop_first() == b.drop_first() {
            assert(a =~= seq![a[0]] + a.drop_first());
            assert(b =~= seq![b[0]] + b.drop_first());
        }
    } else if a.len() == 0 && b.len() == 0 {
        assert(a =~= b);
    }
}

pub proof fn lemma_lex_asymmetric(a: Seq<u32>, b: Seq<u32>)
    requires
        lex_lt(a, b),
    ensures
        !lex_lt(b, a),
{
    if lex_lt(b, a) {
        lemma_lex_transitive(a, b, a);
        lemma_lex_irreflexive(a);
    }
}

/// Lexicographic order on sequences of code sequences, each compared with `lex_lt`.
pub open spec fn lex2_lt(a: Seq<Seq<u32>>, b: Seq<Seq<u32>>) -> bool
    decreases a.len(),
{
    if a.len() == 0 {
        b.len() > 0
    } else if b.len() == 0 {
        false
    } else if lex_lt(a[0], b[0]) {
        true
    } else if a[0] != b[0] {
        false
    } else {
        lex2_lt(a.drop_first(), b.drop_first())
    }
}

pub proof fn lemma_lex2_irreflexive(a: Seq<Seq<u32>>)
    ensures
        !lex2_lt(a, a),
    decreases a.len(),
{
    if a.len() > 0 {
        lemma_lex_irreflexive(a[0]);
        lemma_lex2_irreflexive(a.drop_first());
    }
}

pub proof fn lemma_lex2_transitive(a: Seq<Seq<u32>>, b: Seq<Seq<u32>>, c: Seq<Seq<u32>>)
    requires
        lex2_lt(a, b),
        lex2_lt(b, c),
    ensures
        lex2_lt(a, c),
    decreases a.len(),
{
    if a.len() > 0 && b.len() > 0 && c.len() > 0 {
        if lex_lt(a[0], b[0]) && lex_lt(b[0], c[0]) {
            lemma_lex_transitive(a[0], b[0], c[0]);
        } else if lex_lt(a[0], b[0]) {
            assert(b[0] == c[0]);
        } else if lex_lt(b[0], c[0]) {
            assert(a[0] == b[0]);
        } else {
            assert(a[0] == b[0] && b[0] == c[0]);
            lemma_lex_irreflexive(a[0]);
            lemma_lex2_transitive(a.drop_first(), b.drop_first(), c.drop_first());
        }
    }
}

pub proof fn lemma_lex2_total(a: Seq<Seq<u32>>, b: Seq<Seq<u32>>)
    ensures
        lex2_lt(a, b) || lex2_lt(b, a) || a == b,
    decreases a.len(),
{
    if a.len() > 0 && b.len() > 0 {
        lemma_lex_total(a[0], b[0]);
        if a[0] == b[0] {
            lemma_lex_irreflexive(a[0]);
            lemma_lex2_total(a.drop_first(), b.drop_first());
            if a.drop_first() == b.drop_first() {
                assert(a =~= seq![a[0]] + a.drop_first());
                assert(b =~= seq![b[0]] + b.drop_first());
            }
        }
    } else if a.len() == 0 && b.len() == 0 {
        assert(a =~= b);
    }
}

pub proof fn lemma_lex2_asymmetric(a: Seq<Seq<u32>>, b: Seq<Seq<u32>>)
    requires
        lex2_lt(a, b),
    ensures
        !lex2_lt(b, a),
{
    if lex2_lt(b, a) {
        lemma_lex2_transitive(a, b, a);
        lemma_lex2_irreflexive(a);
    }
}

pub open spec fn views32(v: Seq<Vec<u32>>) -> Seq<Seq<u32>> {
    v.map_values(|x: Vec<u32>| x@)
}

/// Compares two code sequences: `Some(true)` when `a` sorts first, `Some(false)`
/// when `b` does, `None` when they are equal.
pub fn lex_compare(a: &Vec<u32>, b: &Vec<u32>) -> (r: Option<bool>)
    ensures
        r == Some(true) <==> lex_lt(a@, b@),
        r == Some(false) <==> lex_lt(b@, a@),
        r is None <==> a@ == b@,
{
    let mut i: usize = 0;
    assert(a@.skip(0) =~= a@);
    assert(b@.skip(0) =~= b@);
    while i < a.len() && i < b.len() && a[i] == b[i]
        invariant
            0 <= i <= a.len(),
            i <= b.len(),
            a@.take(i as int) == b@.take(i as int),
            lex_lt(a@, b@) == lex_lt(a@.skip(i as int), b@.skip(i as int)),
            lex_lt(b@, a@) == lex_lt(b@.skip(i as int), a@.skip(i as int)),
        decreases a.len() - i,
    {
        proof {
            assert(a@.skip(i as int).drop_first() =~= a@.skip(i + 1));
            assert(b@.skip(i as int).drop_first() =~= b@.skip(i + 1));
            assert(a@.take(i + 1) =~= a@.take(i as int).push(a@[i as int]));
            assert(b@.take(i + 1) =~= b@.take(i as int).push(b@[i as int]));
        }
        i = i + 1;
    }
    proof {
        lemma_lex_total(a@, b@);
        lemma_lex_irreflexive(a@);
    }
    if i == a.len() && i == b.len() {
        assert(a@ =~= a@.take(i as int));
        assert(b@ =~= b@.take(i as int));
        None
    } else if i == a.len() {
        assert(a@.skip(i as int).len() == 0);
        proof {
            lemma_lex_asymmetric(a@, b@);
        }
        Some(true)
    } else if i == b.len() {
        assert(b@.skip(i as int).len() == 0);
        proof {
            lemma_lex_asymmetric(b@, a@);
        }
        Some(false)
    } else if a[i] < b[i] {
        assert(a@.skip(i as int)[0] == a@[i as int]);
        assert(b@.skip(i as int)[0] == b@[i as int]);
        proof {
            lemma_lex_asymmetric(a@, b@);
        }
        Some(true)
    } else {
        assert(a@.skip(i as int)[0] == a@[i as int]);
        assert(b@.skip(i as int)[0] == b@[i as int]);
        proof {
            lemma_lex_asymmetric(b@, a@);
        }
        Some(false)
    }
}

/// Compares two sequences of code sequences: `Some(true)` when `a` sorts first,
/// `Some(false)` when `b` does, `None` when they are equal.
pub fn lex2_compare(a: &Vec<Vec<u32>>, b: &Vec<Vec<u32>>) -> (r: Option<bool>)
    ensures
        r == Some(true) <==> lex2_lt(views32(a@), views32(b@)),
        r == Some(false) <==> lex2_lt(views32(b@), views32(a@)),
        r is None <==> views32(a@) == views32(b@),
{
    let ghost va = views32(a@);
    let ghost vb = views32(b@);
    let mut i: usize = 0;
    assert(va.skip(0) =~= va);
    assert(vb.skip(0) =~= vb);
    while i < a.len() && i < b.len()
        invariant
            va == views32(a@),
            vb == views32(b@),
            0 <= i <= a.len(),
            i <= b.len(),
            va.take(i as int) == vb.take(i as int),
            lex2_lt(va, vb) == lex2_lt(va.skip(i as int), vb.skip(i as int)),
            lex2_lt(vb, va) == lex2_lt(vb.skip(i as int), va.skip(i as int)),
        decreases a.len() - i,
    {
        let c = lex_compare(&a[i], &b[i]);
        assert(va.skip(i as int)[0] == a@[i as int]@);
        assert(vb.skip(i as int)[0] == b@[i as int]@);
        match c {
            Some(first) => {
                proof {
                    lemma_lex2_total(va, vb);
                    lemma_lex2_irreflexive(va);
                    if first {
                        lemma_lex_asymmetric(a@[i as int]@, b@[i as int]@);
                        lemma_lex2_asymmetric(va, vb);
                    } else {
                        lemma_lex_asymmetric(b@[i as int]@, a@[i as int]@);
                        lemma_lex2_asymmetric(vb, va);
                    }
                    if va == vb {
                        assert(va[i as int] == vb[i as int]);
                    }
                }
                return Some(first);
            },
            None => {},
        }
        proof {
            lemma_lex_irreflexive(a@[i as int]@);
            assert(va.skip(i as int).drop_first() =~= va.skip(i + 1));
            assert(vb.skip(i as int).drop_first() =~= vb.skip(i + 1));
            assert(va.take(i + 1) =~= va.take(i as int).push(va[i as int]));
            assert(vb.take(i + 1) =~= vb.take(i as int).push(vb[i as int]));
        }
        i = i + 1;
    }
    proof {
        lemma_lex2_total(va, vb);
        lemma_lex2_irreflexive(va);
    }
    if i == a.len() && i == b.len() {
        assert(va =~= va.take(i as int));
        assert(vb =~= vb.take(i as int));
        None
    } else if i == a.len() {
        assert(va.skip(i as int).len() == 0);
        proof {
            lemma_lex2_asymmetric(va, vb);
        }
        Some(true)
    } else {
        assert(vb.skip(i as int).len() == 0);
        proof {
            lemma_lex2_asymmetric(vb, va);
        }
        Some(false)
    }
}

// ---------------------------------------------------------------------------
// Components.
// ---------------------------------------------------------------------------

/// A piece between separators that names something: not empty and not `.`.
pub open spec fn kept(piece: Seq<char>) -> bool {
    piece.len() > 0 && piece != seq!['.']
}

/// The pieces that name something, in order.
pub open spec fn kept_pieces(pieces: Seq<Seq<char>>) -> Seq<Seq<char>>
    decreases pieces.len(),
{
    if pieces.len() == 0 {
        Seq::empty()
    } else {
        let prev = kept_pieces(pieces.drop_last());
        if kept(pieces.last()) {
            prev.push(pieces.last())
        } else {
            prev
        }
    }
}

/// The names in a path: its pieces between `/` other than empty pieces and `.`
/// (`..` included).
pub open spec fn path_names(p: Seq<char>) -> Seq<Seq<char>> {
    kept_pieces(text::split_on(p, '/'))
}

/// The path begins at the root.
pub open spec fn has_root(p: Seq<char>) -> bool {
    p.len() > 0 && p[0] == '/'
}

/// The path is relative and begins with a `.` component.
pub open spec fn has_cur_dir(p: Seq<char>) -> bool {
    !has_root(p) && p.len() > 0 && p[0] == '.' && (p.len() == 1 || p[1] == '/')
}

/// Code of a name component: `..` sorts before every other name.
pub open spec fn name_code(name: Seq<char>) -> Seq<u32> {
    if name == seq!['.', '.'] {
        seq![2u32]
    } else {
        seq![3u32] + name.map_values(|c: char| c as u32)
    }
}

/// The components of a path as codes, in the order std's `Path` compares them:
/// the root, then a leading `.`, then the names (`..` before other names, other
/// names by their characters).
pub open spec fn path_key(p: Seq<char>) -> Seq<Seq<u32>> {
    let head: Seq<Seq<u32>> = if has_root(p) {
        seq![seq![0u32]]
    } else if has_cur_dir(p) {
        seq![seq![1u32]]
    } else {
        Seq::empty()
    };
    head + path_names(p).map_values(|n: Seq<char>| name_code(n))
}

/// `p` sorts before `q` (std's `Ord` for `Path`).
pub open spec fn path_lt(p: Seq<char>, q: Seq<char>) -> bool {
    lex2_lt(path_key(p), path_key(q))
}

/// `p` and `q` name the same path component by component (std's `PartialEq` for `Path`).
pub open spec fn path_eq(p: Seq<char>, q: Seq<char>) -> bool {
    path_key(p) == path_key(q)
}

/// The final name of a path, unless it ends in `..` or has no names (std's `Path::file_name`).
pub open spec fn file_name(p: Seq<char>) -> Option<Seq<char>> {
    let names = path_names(p);
    if names.len() > 0 && names.last() != seq!['.', '.'] {
        Some(names.last())
    } else {
        None
    }
}

/// The names in the path `v`.
pub fn names_of(v: &Vec<char>) -> (r: Vec<Vec<char>>)
    ensures
        text::views(r@) == path_names(v@),
{
    let pieces = split_chars(v, '/');
    let mut r: Vec<Vec<char>> = Vec::new();
    let mut i: usize = 0;
    while i < pieces.len()
        invariant
            0 <= i <= pieces.len(),
            text::views(pieces@) == text::split_on(v@, '/'),
            text::views(r@) == kept_pieces(text::views(pieces@).take(i as int)),
        decreases pieces.len() - i,
    {
        let p = &pieces[i];
        let keep = p.len() > 0 && !(p.len() == 1 && p[0] == '.');
        proof {
            let t = text::views(pieces@).take(i + 1);
            assert(t.drop_last() =~= text::views(pieces@).take(i as int));
            assert(t.last() == p@);
            if p@.len() == 1 && p@[0] == '.' {
                assert(p@ =~= seq!['.']);
            }
        }
        if keep {
            let ghost before = r@;
            r.push(p.clone());
            proof {
                assert(text::views(r@) =~= text::views(before).push(p@));
            }
        }
        i = i + 1;
    }
    assert(text::views(pieces@).take(pieces.len() as int) =~= text::views(pieces@));
    r
}

fn name_code_of(name: &Vec<char>) -> (r: Vec<u32>)
    ensures
        r@ == name_code(name@),
{
    let mut r: Vec<u32> = Vec::new();
    if name.len() == 2 && name[0] == '.' && name[1] == '.' {
        assert(name@ =~= seq!['.', '.']);
        r.push(2u32);
        assert(r@ =~= seq![2u32]);
        return r;
    }
    r.push(3u32);
    let mut i: usize = 0;
    while i < name.len()
        invariant
            0 <= i <= name.len(),
            r@ == seq![3u32] + name@.take(i as int).map_values(|c: char| c as u32),
        decreases name.len() - i,
    {
        r.push(name[i] as u32);
        i = i + 1;
        assert(r@ =~= seq![3u32] + name@.take(i as int).map_values(|c: char| c as u32));
    }
    assert(name@.take(name.len() as int) =~= name@);
    r
}

/// The component codes of the path `v`.
pub fn key_of(v: &Vec<char>) -> (r: Vec<Vec<u32>>)
    ensures
        views32(r@) == path_key(v@),
{
    let names = names_of(v);
    let mut r: Vec<Vec<u32>> = Vec::new();
    let ghost head: Seq<Seq<u32>>;
    if v.len() > 0 && v[0] == '/' {
        let mut first: Vec<u32> = Vec::new();
        first.push(0u32);
        r.push(first);
        proof {
            head = seq![seq![0u32]];
            assert(r@[0]@ =~= seq![0u32]);
        }
    } else if v.len() > 0 && v[0] == '.' && (v.len() == 1 || v[1] == '/') {
        let mut first: Vec<u32> = Vec::new();
        first.push(1u32);
        r.push(first);
        proof {
            head = seq![seq![1u32]];
            assert(r@[0]@ =~= seq![1u32]);
        }
    } else {
        proof {
            head = Seq::empty();
        }
    }
    assert(views32(r@) =~= head);
    let ghost nv = text::views(names@);
    let mut i: usize = 0;
    while i < names.len()
        invariant
            0 <= i <= names.len(),
            nv == text::views(names@),
            nv == path_names(v@),
            views32(r@) == head + nv.take(i as int).map_values(|n: Seq<char>| name_code(n)),
        decreases names.len() - i,
    {
        let code = name_code_of(&names[i]);
        let ghost before = r@;
        r.push(code);
        i = i + 1;
        proof {
            assert(nv[i - 1] == names@[i - 1]@);
            assert(nv.take(i as int).map_values(|n: Seq<char>| name_code(n)) =~= nv.take(i - 1).map_values(
                |n: Seq<char>| name_code(n),
            ).push(name_code(nv[i - 1])));
            assert(views32(r@) =~= views32(before).push(code@));
        }
    }
    assert(nv.take(names.len() as int) =~= nv);
    r
}

/// Compares two paths: `Some(true)` when `a` sorts first, `Some(false)` when `b`
/// does, `None` when they are equal component by component.
pub fn path_compare(a: &str, b: &str) -> (r: Option<bool>)
    ensures
        r == Some(true) <==> path_lt(a@, b@),
        r == Some(false) <==> path_lt(b@, a@),
        r is None <==> path_eq(a@, b@),
{
    let av = text::chars_of(a);
    let bv = text::chars_of(b);
    let ak = key_of(&av);
    let bk = key_of(&bv);
    lex2_compare(&ak, &bk)
}

/// Whether two paths are equal component by component.
pub fn paths_equal(a: &str, b: &str) -> (r: bool)
    ensures
        r == path_eq(a@, b@),
{
    path_compare(a, b).is_none()
}

/// The final name of the path `p`, if it has one.
pub fn file_name_of(p: &str) -> (r: Option<Vec<char>>)
    ensures
        match file_name(p@) {
            Some(n) => r matches Some(x) && x@ == n,
            None => r is None,
        },
{
    let v = text::chars_of(p);
    let mut names = names_of(&v);
    let n = names.len();
    if n == 0 {
        return None;
    }
    let ghost nv = text::views(names@);
    assert(nv.last() == names@[n - 1]@);
    let last = names.pop().unwrap();
    if last.len() == 2 && last[0] == '.' && last[1] == '.' {
        assert(last@ =~= seq!['.', '.']);
        None
    } else {
        assert(last@ != seq!['.', '.']);
        Some(last)
    }
}

/// `rel` appended to `base` (std's `Path::join`): an absolute `rel` replaces
/// `base`, and a `/` goes between them unless `base` is empty or ends with one.
pub open spec fn join(base: Seq<char>, rel: Seq<char>) -> Seq<char> {
    if has_root(rel) {
        rel
    } else if base.len() > 0 && base.last() != '/' {
        base + seq!['/'] + rel
    } else {
        base + rel
    }
}

/// Joins `rel` onto `base`.
pub fn join_path(base: &str, rel: &str) -> (r: String)
    ensures
        r@ == join(base@, rel@),
{
    let b = text::chars_of(base);
    let rv = text::chars_of(rel);
    if rv.len() > 0 && rv[0] == '/' {
        return text::string_of(rv.as_slice());
    }
    let mut out = b.clone();
    if b.len() > 0 && b[b.len() - 1] != '/' {
        out.push('/');
    }
    text::extend_vec(&mut out, &rv);
    assert(b@.len() > 0 && b@.last() != '/' ==> out@ =~= b@ + seq!['/'] + rv@);
    text::string_of(out.as_slice())
}

/// The relative text of `path` below `base` (std's `Path::strip_prefix`), as a
/// function of the two texts.
pub uninterp spec fn strip_prefix_text(path: Seq<char>, base: Seq<char>) -> Option<Seq<char>>;

/// The part of `path` below `base` (std's `Path::strip_prefix`, the remainder
/// rendered with `to_string_lossy`); `None` when `base` is not a prefix of `path`.
/// The result is claimed to be a function of the two texts and nothing more.
#[verifier::external_body]
pub fn strip_prefix(path: &str, base: &str) -> (r: Option<String>)
    ensures
        match strip_prefix_text(path@, base@) {
            Some(t) => r matches Some(s) && s@ == t,
            None => r is None,
        },
{
    std::path::Path::new(path).strip_prefix(base).ok().map(|p| p.to_string_lossy().into_owned())
}

proof fn lemma_split_tail(s: Seq<char>, w: Seq<char>)
    requires
        !w.contains('/'),
    ensures
        text::split_on(s + w, '/') == text::split_on(s, '/').update(
            text::split_on(s, '/').len() - 1,
            text::split_on(s, '/').last() + w,
        ),
    decreases w.len(),
{
    text::lemma_split_on_nonempty(s, '/');
    let base = text::split_on(s, '/');
    if w.len() == 0 {
        assert(s + w =~= s);
        assert(base.last() + w =~= base.last());
        assert(base.update(base.len() - 1, base.last() + w) =~= base);
    } else {
        let wd = w.drop_last();
        assert(!wd.contains('/')) by {
            if wd.contains('/') {
                let k = choose|k: int| 0 <= k < wd.len() && wd[k] == '/';
                assert(w[k] == '/');
            }
        }
        assert(w[w.len() - 1] != '/');
        lemma_split_tail(s, wd);
        assert((s + w).drop_last() =~= s + wd);
        assert((s + w).last() == w.last());
        let prev = text::split_on(s + wd, '/');
        assert(prev.update(prev.len() - 1, prev.last().push(w.last())) =~= base.update(
            base.len() - 1,
            base.last() + w,
        )) by {
            assert(prev.len() == base.len());
            assert(prev.last() == base.last() + wd);
            assert((base.last() + wd).push(w.last()) =~= base.last() + w);
        }
    }
}

/// A name joined onto any base path is that path's final name.
pub proof fn lemma_join_file_name(base: Seq<char>, w: Seq<char>)
    requires
        w.len() > 0,
        !w.contains('/'),
        w != seq!['.'],
        w != seq!['.', '.'],
    ensures
        file_name(join(base, w)) == Some(w),
{
    assert(!has_root(w)) by {
        assert(w[0] != '/') by {
            if w[0] == '/' {
                assert(w.contains('/'));
            }
        }
    }
    let j = join(base, w);
    let s = if base.len() > 0 && base.last() != '/' { base + seq!['/'] } else { base };
    assert(j =~= s + w);
    lemma_split_tail(s, w);
    text::lemma_split_on_nonempty(s, '/');
    let pieces = text::split_on(s, '/');
    if s.len() == 0 {
        assert(pieces == seq![Seq::<char>::empty()]);
    } else {
        assert(s.last() == '/');
        assert(s.drop_last().push('/') =~= s);
        assert(pieces == text::split_on(s.drop_last(), '/').push(Seq::<char>::empty()));
    }
    assert(pieces.last() == Seq::<char>::empty());
    assert(pieces.last() + w =~= w);
    let all = text::split_on(j, '/');
    assert(all == pieces.update(pieces.len() - 1, w));
    assert(all.drop_last() =~= pieces.drop_last());
    assert(all.last() == w);
    assert(kept(w));
    assert(path_names(j) == kept_pieces(all.drop_last()).push(w));
}

/// Joining a name onto a path adds that name to its names, and gives a different path.
pub proof fn lemma_join_names(base: Seq<char>, w: Seq<char>)
    requires
        w.len() > 0,
        !w.contains('/'),
        w != seq!['.'],
        w != seq!['.', '.'],
    ensures
        path_names(join(base, w)) == path_names(base).push(w),
        !path_eq(join(base, w), base),
{
    assert(w[0] != '/') by {
        if w[0] == '/' {
            assert(w.contains('/'));
        }
    }
    let j = join(base, w);
    let s = if base.len() > 0 && base.last() != '/' { base + seq!['/'] } else { base };
    assert(j =~= s + w);
    lemma_split_tail(s, w);
    text::lemma_split_on_nonempty(s, '/');
    text::lemma_split_on_nonempty(base, '/');
    let pieces = text::split_on(s, '/');
    let all = text::split_on(j, '/');
    if s.len() == 0 {
        assert(pieces == seq![Seq::<char>::empty()]);
        assert(base.len() == 0);
        assert(path_names(base) == kept_pieces(pieces));
        assert(kept_pieces(pieces) == kept_pieces(pieces.drop_last()));
    } else {
        assert(s.last() == '/');
        assert(s.drop_last().push('/') =~= s);
        assert(pieces == text::split_on(s.drop_last(), '/').push(Seq::<char>::empty()));
        if base.len() > 0 && base.last() != '/' {
            assert(s.drop_last() =~= base);
            assert(pieces.drop_last() =~= text::split_on(base, '/'));
        } else {
            assert(s == base);
            assert(kept_pieces(pieces) == kept_pieces(pieces.drop_last()));
        }
    }
    assert(pieces.last() + w =~= w);
    assert(all == pieces.update(pieces.len() - 1, w));
    assert(all.drop_last() =~= pieces.drop_last());
    assert(all.last() == w);
    assert(kept(w));
    assert(path_names(j) == kept_pieces(all.drop_last()).push(w));
    assert(kept_pieces(pieces.drop_last()) == path_names(base));
    // The root and leading `.` parts agree, so the keys differ in length.
    if base.len() > 0 {
        assert(j[0] == base[0]);
        if base.len() >= 2 {
            assert(j[1] == base[1]);
        } else if base[0] != '/' {
            assert(j[1] == '/');
        }
        assert(has_root(j) == has_root(base));
        assert(has_cur_dir(j) == has_cur_dir(base));
    } else {
        assert(j == w);
        assert(!has_root(j));
    }
    let kj = path_key(j);
    let kb = path_key(base);
    if base.len() > 0 {
        assert(kj.len() == kb.len() + 1);
    } else {
        assert(kb.len() == 0);
        assert(kj.len() >= 1);
    }
}

} // verus!
