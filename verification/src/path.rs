//! Paths are held as strings. Their structure follows the Unix reading of
//! `std::path`: a leading `/` is the root, pieces between separators that are
//! empty or `.` are dropped (a leading `.` of a relative path stays, as the
//! current directory), and `..` names the parent directory.
//!
//! A component is a character sequence: `/` stands for the root, `.` for the
//! current directory, `..` for the parent directory; anything else is a
//! normal name (a normal name never holds `/` and is never `.` or `..`).
use vstd::prelude::*;
use crate::text::{chars_of, holds_at, string_of, string_views};


verus! {

/// The pieces of `s` between occurrences of `sep` (`"a//b"` split on `/`
/// gives `a`, ``, `b`), as `str::split` gives them.
pub open spec fn split_on(s: Seq<char>, sep: char) -> Seq<Seq<char>>
    decreases s.len(),
{
    if s.len() == 0 {
        seq![Seq::<char>::empty()]
    } else {
        let init = split_on(s.drop_last(), sep);
        if s.last() == sep {
            init.push(Seq::<char>::empty())
        } else {
            init.update(init.len() - 1, init.last().push(s.last()))
        }
    }
}

pub proof fn lemma_split_on_nonempty(s: Seq<char>, sep: char)
    ensures
        split_on(s, sep).len() >= 1,
    decreases s.len(),
{
    if s.len() > 0 {
        lemma_split_on_nonempty(s.drop_last(), sep);
    }
}

/// The pieces of `s` between separators `/`.
pub open spec fn split_sep(s: Seq<char>) -> Seq<Seq<char>> {
    split_on(s, '/')
}

pub open spec fn root_comp() -> Seq<char> {
    seq!['/']
}

pub open spec fn cur_comp() -> Seq<char> {
    seq!['.']
}

pub open spec fn parent_comp() -> Seq<char> {
    seq!['.', '.']
}

/// A normal name: neither the root, nor `.`, nor `..`.
pub open spec fn is_normal(c: Seq<char>) -> bool {
    c != root_comp() && c != cur_comp() && c != parent_comp()
}

/// The component a piece contributes, if any.
pub open spec fn piece_comps(p: Seq<char>, first: bool, rooted: bool) -> Seq<Seq<char>> {
    if p.len() == 0 {
        seq![]
    } else if p == cur_comp() {
        if first && !rooted {
            seq![p]
        } else {
            seq![]
        }
    } else {
        seq![p]
    }
}

pub open spec fn comps_of_pieces(ps: Seq<Seq<char>>, rooted: bool) -> Seq<Seq<char>>
    decreases ps.len(),
{
    if ps.len() == 0 {
        seq![]
    } else {
        comps_of_pieces(ps.drop_last(), rooted) + piece_comps(ps.last(), ps.len() == 1, rooted)
    }
}

pub open spec fn is_rooted(s: Seq<char>) -> bool {
    s.len() > 0 && s[0] == '/'
}

/// The components of a path.
#[verifier::opaque]
pub open spec fn components(s: Seq<char>) -> Seq<Seq<char>> {
    (if is_rooted(s) {
        seq![root_comp()]
    } else {
        seq![]
    }) + comps_of_pieces(split_sep(s), is_rooted(s))
}

/// Two strings name the same path when their components agree.
pub open spec fn same_path(a: Seq<char>, b: Seq<char>) -> bool {
    components(a) == components(b)
}

/// The last component, where it is a normal name.
pub open spec fn spec_file_name(s: Seq<char>) -> Option<Seq<char>> {
    let c = components(s);
    if c.len() > 0 && is_normal(c.last()) {
        Some(c.last())
    } else {
        None
    }
}

/// Names joined by `/`.
pub open spec fn join_names(c: Seq<Seq<char>>) -> Seq<char>
    decreases c.len(),
{
    if c.len() == 0 {
        seq![]
    } else if c.len() == 1 {
        c[0]
    } else {
        join_names(c.drop_last()) + seq!['/'] + c.last()
    }
}

/// The string written for a sequence of components.
pub open spec fn render(c: Seq<Seq<char>>) -> Seq<char> {
    if c.len() > 0 && c[0] == root_comp() {
        seq!['/'] + join_names(c.drop_first())
    } else {
        join_names(c)
    }
}

/// The path without its last component; none for the root or the empty path.
/// It is written in normal form, components joined by one `/`.
pub open spec fn spec_parent(s: Seq<char>) -> Option<Seq<char>> {
    let c = components(s);
    if c.len() > 0 && c.last() != root_comp() {
        Some(render(c.drop_last()))
    } else {
        None
    }
}

/// `base` with `name` pushed on it: a rooted `name` replaces `base`,
/// otherwise one separator is put between them unless `base` is empty or
/// already ends in one.
pub open spec fn spec_join(base: Seq<char>, name: Seq<char>) -> Seq<char> {
    if is_rooted(name) {
        name
    } else if base.len() == 0 || base.last() == '/' {
        base + name
    } else {
        base + seq!['/'] + name
    }
}

/// The order of component kinds: root, `.`, `..`, then normal names.
pub open spec fn comp_rank(c: Seq<char>) -> int {
    if c == root_comp() {
        0
    } else if c == cur_comp() {
        1
    } else if c == parent_comp() {
        2
    } else {
        3
    }
}

/// Strict lexicographic order of character sequences by code point.
pub open spec fn chars_less(a: Seq<char>, b: Seq<char>) -> bool
    decreases a.len(),
{
    if b.len() == 0 {
        false
    } else if a.len() == 0 {
        true
    } else if a[0] != b[0] {
        a[0] < b[0]
    } else {
        chars_less(a.drop_first(), b.drop_first())
    }
}

pub open spec fn comp_less(a: Seq<char>, b: Seq<char>) -> bool {
    comp_rank(a) < comp_rank(b) || (comp_rank(a) == 3 && comp_rank(b) == 3 && chars_less(a, b))
}

/// Strict lexicographic order of component sequences.
pub open spec fn comps_less(x: Seq<Seq<char>>, y: Seq<Seq<char>>) -> bool
    decreases x.len(),
{
    if y.len() == 0 {
        false
    } else if x.len() == 0 {
        true
    } else if x[0] != y[0] {
        comp_less(x[0], y[0])
    } else {
        comps_less(x.drop_first(), y.drop_first())
    }
}

/// The order of paths: by their components.
#[verifier::opaque]
pub open spec fn path_less(a: Seq<char>, b: Seq<char>) -> bool {
    comps_less(components(a), components(b))
}


pub proof fn lemma_chars_less_irreflexive(a: Seq<char>)
    ensures
        !chars_less(a, a),
    decreases a.len(),
{
    if a.len() > 0 {
        lemma_chars_less_irreflexive(a.drop_first());
    }
}

pub proof fn lemma_chars_less_total(a: Seq<char>, b: Seq<char>)
    ensures
        a != b ==> chars_less(a, b) || chars_less(b, a),
        !(chars_less(a, b) && chars_less(b, a)),
    decreases a.len(),
{
    if a.len() > 0 && b.len() > 0 {
        lemma_chars_less_total(a.drop_first(), b.drop_first());
        if a[0] == b[0] && a != b {
            assert(a.drop_first() != b.drop_first()) by {
                if a.drop_first() == b.drop_first() {
                    assert(a =~= seq![a[0]] + a.drop_first());
                    assert(b =~= seq![b[0]] + b.drop_first());
                }
            }
        }
    } else if a.len() == 0 && b.len() == 0 {
        assert(a =~= b);
    }
}

pub proof fn lemma_chars_less_transitive(a: Seq<char>, b: Seq<char>, c: Seq<char>)
    requires
        chars_less(a, b),
        chars_less(b, c),
    ensures
        chars_less(a, c),
    decreases a.len(),
{
    if a.len() > 0 && b.len() > 0 && c.len() > 0 && a[0] == b[0] && b[0] == c[0] {
        lemma_chars_less_transitive(a.drop_first(), b.drop_first(), c.drop_first());
    }
}

pub proof fn lemma_comp_less_total(a: Seq<char>, b: Seq<char>)
    ensures
        a != b ==> comp_less(a, b) || comp_less(b, a),
        !(comp_less(a, b) && comp_less(b, a)),
        !comp_less(a, a),
{
    lemma_chars_less_total(a, b);
    lemma_chars_less_irreflexive(a);
}

pub proof fn lemma_comp_less_transitive(a: Seq<char>, b: Seq<char>, c: Seq<char>)
    requires
        comp_less(a, b),
        comp_less(b, c),
    ensures
        comp_less(a, c),
{
    if comp_rank(a) == 3 && comp_rank(b) == 3 && comp_rank(c) == 3 {
        lemma_chars_less_transitive(a, b, c);
    }
}

pub proof fn lemma_comps_less_irreflexive(x: Seq<Seq<char>>)
    ensures
        !comps_less(x, x),
    decreases x.len(),
{
    if x.len() > 0 {
        lemma_comps_less_irreflexive(x.drop_first());
    }
}

pub proof fn lemma_comps_less_total(x: Seq<Seq<char>>, y: Seq<Seq<char>>)
    ensures
        x != y ==> comps_less(x, y) || comps_less(y, x),
        !(comps_less(x, y) && comps_less(y, x)),
    decreases x.len(),
{
    if x.len() > 0 && y.len() > 0 {
        lemma_comps_less_total(x.drop_first(), y.drop_first());
        lemma_comp_less_total(x[0], y[0]);
        if x[0] == y[0] && x != y {
            assert(x.drop_first() != y.drop_first()) by {
                if x.drop_first() == y.drop_first() {
                    assert(x =~= seq![x[0]] + x.drop_first());
                    assert(y =~= seq![y[0]] + y.drop_first());
                }
            }
        }
    } else if x.len() == 0 && y.len() == 0 {
        assert(x =~= y);
    }
}

pub proof fn lemma_comps_less_transitive(x: Seq<Seq<char>>, y: Seq<Seq<char>>, z: Seq<Seq<char>>)
    requires
        comps_less(x, y),
        comps_less(y, z),
    ensures
        comps_less(x, z),
    decreases x.len(),
{
    if x.len() > 0 && y.len() > 0 && z.len() > 0 {
        if x[0] == y[0] && y[0] == z[0] {
            lemma_comps_less_transitive(x.drop_first(), y.drop_first(), z.drop_first());
        } else if x[0] == y[0] {
        } else if y[0] == z[0] {
        } else {
            lemma_comp_less_total(x[0], z[0]);
            if x[0] == z[0] {
                lemma_comp_less_total(x[0], y[0]);
            } else {
                lemma_comp_less_transitive(x[0], y[0], z[0]);
            }
        }
    }
}

/// `path_less` is a strict total order on paths taken up to `same_path`.
pub proof fn lemma_path_order(a: Seq<char>, b: Seq<char>, c: Seq<char>)
    ensures
        !path_less(a, a),
        !same_path(a, b) ==> path_less(a, b) || path_less(b, a),
        same_path(a, b) ==> !path_less(a, b),
        !(path_less(a, b) && path_less(b, a)),
        path_less(a, b) && path_less(b, c) ==> path_less(a, c),
{
    reveal(path_less);
    lemma_comps_less_irreflexive(components(a));
    lemma_comps_less_total(components(a), components(b));
    if path_less(a, b) && path_less(b, c) {
        lemma_comps_less_transitive(components(a), components(b), components(c));
    }
}


/// The views of a sequence of character vectors.
pub open spec fn views(v: Seq<Vec<char>>) -> Seq<Seq<char>> {
    v.map_values(|x: Vec<char>| x@)
}

pub open spec fn root_prefix(rooted: bool) -> Seq<Seq<char>> {
    if rooted {
        seq![root_comp()]
    } else {
        seq![]
    }
}

fn push_piece(out: &mut Vec<Vec<char>>, p: Vec<char>, first: bool, rooted: bool)
    ensures
        views(final(out)@) == views(old(out)@) + piece_comps(p@, first, rooted),
{
    let ghost before = views(out@);
    if p.len() == 0 {
        assert(views(out@) =~= before + piece_comps(p@, first, rooted));
    } else if p.len() == 1 && p[0] == '.' {
        assert(p@ =~= cur_comp());
        if first && !rooted {
            out.push(p);
            assert(views(out@) =~= before + piece_comps(p@, first, rooted));
        } else {
            assert(views(out@) =~= before + piece_comps(p@, first, rooted));
        }
    } else {
        assert(p@ != cur_comp());
        out.push(p);
        assert(views(out@) =~= before + piece_comps(p@, first, rooted));
    }
}

/// The components of `s` (see the module's doc).
pub fn components_of(s: &str) -> (r: Vec<Vec<char>>)
    ensures
        views(r@) == components(s@),
{
    let cs = chars_of(s);
    let n = cs.len();
    let rooted = n > 0 && cs[0] == '/';
    let mut out: Vec<Vec<char>> = Vec::new();
    if rooted {
        let mut root: Vec<char> = Vec::new();
        root.push('/');
        assert(root@ =~= root_comp());
        out.push(root);
    }
    assert(views(out@) =~= root_prefix(rooted));
    let mut cur: Vec<char> = Vec::new();
    let mut seen_sep = false;
    let mut i: usize = 0;
    assert(s@.take(0) =~= Seq::<char>::empty());
    while i < n
        invariant
            cs@ == s@,
            n == cs.len(),
            i <= n,
            rooted == is_rooted(s@),
            cur@ == split_sep(s@.take(i as int)).last(),
            seen_sep == (split_sep(s@.take(i as int)).len() > 1),
            views(out@) == root_prefix(rooted) + comps_of_pieces(
                split_sep(s@.take(i as int)).drop_last(),
                rooted,
            ),
        decreases n - i,
    {
        let c = cs[i];
        let ghost sp = split_sep(s@.take(i as int));
        proof {
            lemma_split_on_nonempty(s@.take(i as int), '/');
            assert(s@.take(i + 1).drop_last() =~= s@.take(i as int));
            assert(s@.take(i + 1).last() == c);
        }
        if c == '/' {
            let p = cur;
            cur = Vec::new();
            push_piece(&mut out, p, !seen_sep, rooted);
            seen_sep = true;
            proof {
                let sp2 = split_sep(s@.take(i + 1));
                assert(sp2 == sp.push(Seq::<char>::empty()));
                assert(sp2.drop_last() =~= sp);
                assert(sp =~= sp.drop_last().push(sp.last()));
                assert(root_prefix(rooted) + comps_of_pieces(sp.drop_last(), rooted) + piece_comps(
                    sp.last(),
                    sp.len() == 1,
                    rooted,
                ) =~= root_prefix(rooted) + comps_of_pieces(sp, rooted));
            }
        } else {
            cur.push(c);
            proof {
                let sp2 = split_sep(s@.take(i + 1));
                assert(sp2 == sp.update(sp.len() - 1, sp.last().push(c)));
                assert(sp2.drop_last() =~= sp.drop_last());
            }
        }
        i = i + 1;
    }
    let ghost sp = split_sep(s@);
    proof {
        assert(s@.take(n as int) =~= s@);
        lemma_split_on_nonempty(s@, '/');
        assert(sp =~= sp.drop_last().push(sp.last()));
    }
    let p = cur;
    push_piece(&mut out, p, !seen_sep, rooted);
    assert(root_prefix(rooted) + comps_of_pieces(sp.drop_last(), rooted) + piece_comps(
        sp.last(),
        sp.len() == 1,
        rooted,
    ) =~= root_prefix(rooted) + comps_of_pieces(sp, rooted));
    proof {
        reveal(components);
    }
    assert(views(out@) =~= components(s@));
    out
}


/// The view of an optional string.
pub open spec fn opt_view(o: Option<String>) -> Option<Seq<char>> {
    match o {
        Some(s) => Some(s@),
        None => None,
    }
}

pub fn chars_eq(a: &Vec<char>, b: &Vec<char>) -> (r: bool)
    ensures
        r == (a@ == b@),
{
    if a.len() != b.len() {
        return false;
    }
    let mut i: usize = 0;
    while i < a.len()
        invariant
            a.len() == b.len(),
            i <= a.len(),
            forall|j: int| 0 <= j < i ==> a@[j] == b@[j],
        decreases a.len() - i,
    {
        if a[i] != b[i] {
            return false;
        }
        i = i + 1;
    }
    assert(a@ =~= b@);
    true
}

fn comp_is(c: &Vec<char>, dots: usize) -> (r: bool)
    requires
        dots <= 2,
    ensures
        dots == 0 ==> r == (c@ == root_comp()),
        dots == 1 ==> r == (c@ == cur_comp()),
        dots == 2 ==> r == (c@ == parent_comp()),
{
    if dots == 0 {
        let r = c.len() == 1 && c[0] == '/';
        assert(r ==> c@ =~= root_comp());
        r
    } else if dots == 1 {
        let r = c.len() == 1 && c[0] == '.';
        assert(r ==> c@ =~= cur_comp());
        r
    } else {
        let r = c.len() == 2 && c[0] == '.' && c[1] == '.';
        assert(r ==> c@ =~= parent_comp());
        r
    }
}

fn comp_rank_of(c: &Vec<char>) -> (r: u8)
    ensures
        r as int == comp_rank(c@),
{
    if comp_is(c, 0) {
        0
    } else if comp_is(c, 1) {
        1
    } else if comp_is(c, 2) {
        2
    } else {
        3
    }
}

/// The last component of `p` where it is a normal name.
pub fn file_name(p: &str) -> (r: Option<String>)
    ensures
        opt_view(r) == spec_file_name(p@),
{
    let c = components_of(p);
    let n = c.len();
    if n > 0 && comp_rank_of(&c[n - 1]) == 3 {
        let s = string_of(&c[n - 1]);
        Some(s)
    } else {
        None
    }
}

/// Names `c[from..to]` joined by `/`.
fn join_names_of(c: &Vec<Vec<char>>, from: usize, to: usize) -> (r: Vec<char>)
    requires
        from <= to <= c.len(),
    ensures
        r@ == join_names(views(c@).subrange(from as int, to as int)),
{
    let mut out: Vec<char> = Vec::new();
    let mut i = from;
    assert(views(c@).subrange(from as int, from as int) =~= Seq::<Seq<char>>::empty());
    while i < to
        invariant
            from <= i <= to <= c.len(),
            out@ == join_names(views(c@).subrange(from as int, i as int)),
        decreases to - i,
    {
        let ghost before = views(c@).subrange(from as int, i as int);
        let ghost after = views(c@).subrange(from as int, i + 1);
        assert(after.drop_last() =~= before);
        assert(after.last() == c@[i as int]@);
        if i > from {
            out.push('/');
        }
        let piece = &c[i];
        let mut k: usize = 0;
        let ghost start = out@;
        while k < piece.len()
            invariant
                k <= piece.len(),
                out@ == start + piece@.take(k as int),
            decreases piece.len() - k,
        {
            out.push(piece[k]);
            k = k + 1;
            assert(out@ =~= start + piece@.take(k as int));
        }
        assert(piece@.take(piece.len() as int) =~= piece@);
        if i == from {
            assert(after.len() == 1);
            assert(out@ =~= join_names(after));
        } else {
            assert(out@ =~= join_names(after));
        }
        i = i + 1;
    }
    out
}

/// The string written for `c[..k]`.
fn render_of(c: &Vec<Vec<char>>, k: usize) -> (r: String)
    requires
        k <= c.len(),
    ensures
        r@ == render(views(c@).take(k as int)),
{
    let ghost t = views(c@).take(k as int);
    if k > 0 && comp_is(&c[0], 0) {
        let mut out: Vec<char> = Vec::new();
        out.push('/');
        let rest = join_names_of(c, 1, k);
        let mut i: usize = 0;
        let ghost start = out@;
        while i < rest.len()
            invariant
                i <= rest.len(),
                out@ == start + rest@.take(i as int),
            decreases rest.len() - i,
        {
            out.push(rest[i]);
            i = i + 1;
            assert(out@ =~= start + rest@.take(i as int));
        }
        assert(rest@.take(rest.len() as int) =~= rest@);
        assert(t.drop_first() =~= views(c@).subrange(1, k as int));
        assert(start =~= seq!['/']);
        string_of(&out)
    } else {
        let out = join_names_of(c, 0, k);
        assert(t =~= views(c@).subrange(0, k as int));
        string_of(&out)
    }
}

/// The path without its last component (see `spec_parent`).
pub fn parent(p: &str) -> (r: Option<String>)
    ensures
        opt_view(r) == spec_parent(p@),
{
    let c = components_of(p);
    let n = c.len();
    if n > 0 && !comp_is(&c[n - 1], 0) {
        let s = render_of(&c, n - 1);
        assert(views(c@).take(n - 1) =~= views(c@).drop_last());
        Some(s)
    } else {
        None
    }
}

/// `base` joined with `name`, as `PathBuf::join` does it on Unix.
pub fn join(base: &str, name: &str) -> (r: String)
    ensures
        r@ == spec_join(base@, name@),
{
    let b = chars_of(base);
    let m = chars_of(name);
    if m.len() > 0 && m[0] == '/' {
        return string_of(&m);
    }
    let mut out = string_of(&b);
    if !(b.len() == 0 || b[b.len() - 1] == '/') {
        out.push('/');
    }
    out.append(name);
    out
}

fn comps_eq(x: &Vec<Vec<char>>, y: &Vec<Vec<char>>) -> (r: bool)
    ensures
        r == (views(x@) == views(y@)),
{
    if x.len() != y.len() {
        return false;
    }
    let mut i: usize = 0;
    while i < x.len()
        invariant
            x.len() == y.len(),
            i <= x.len(),
            forall|j: int| 0 <= j < i ==> views(x@)[j] == views(y@)[j],
        decreases x.len() - i,
    {
        if !chars_eq(&x[i], &y[i]) {
            assert(views(x@)[i as int] != views(y@)[i as int]);
            return false;
        }
        i = i + 1;
    }
    assert(views(x@) =~= views(y@));
    true
}

/// Whether `a` and `b` name the same path.
pub fn same_path_of(a: &str, b: &str) -> (r: bool)
    ensures
        r == same_path(a@, b@),
{
    let x = components_of(a);
    let y = components_of(b);
    comps_eq(&x, &y)
}

fn chars_less_of(a: &Vec<char>, b: &Vec<char>) -> (r: bool)
    ensures
        r == chars_less(a@, b@),
{
    let mut i: usize = 0;
    assert(a@.skip(0) =~= a@);
    assert(b@.skip(0) =~= b@);
    while i < a.len() && i < b.len()
        invariant
            i <= a.len(),
            i <= b.len(),
            chars_less(a@, b@) == chars_less(a@.skip(i as int), b@.skip(i as int)),
        decreases a.len() - i,
    {
        let ghost sa = a@.skip(i as int);
        let ghost sb = b@.skip(i as int);
        assert(sa.drop_first() =~= a@.skip(i + 1));
        assert(sb.drop_first() =~= b@.skip(i + 1));
        if a[i] != b[i] {
            return a[i] < b[i];
        }
        i = i + 1;
    }
    i < b.len()
}

fn comp_less_of(a: &Vec<char>, b: &Vec<char>) -> (r: bool)
    ensures
        r == comp_less(a@, b@),
{
    let ra = comp_rank_of(a);
    let rb = comp_rank_of(b);
    ra < rb || (ra == 3 && rb == 3 && chars_less_of(a, b))
}

fn comps_less_of(x: &Vec<Vec<char>>, y: &Vec<Vec<char>>) -> (r: bool)
    ensures
        r == comps_less(views(x@), views(y@)),
{
    let mut i: usize = 0;
    assert(views(x@).skip(0) =~= views(x@));
    assert(views(y@).skip(0) =~= views(y@));
    while i < x.len() && i < y.len()
        invariant
            i <= x.len(),
            i <= y.len(),
            comps_less(views(x@), views(y@)) == comps_less(
                views(x@).skip(i as int),
                views(y@).skip(i as int),
            ),
        decreases x.len() - i,
    {
        let ghost sx = views(x@).skip(i as int);
        let ghost sy = views(y@).skip(i as int);
        assert(sx.drop_first() =~= views(x@).skip(i + 1));
        assert(sy.drop_first() =~= views(y@).skip(i + 1));
        if !chars_eq(&x[i], &y[i]) {
            return comp_less_of(&x[i], &y[i]);
        }
        i = i + 1;
    }
    i < y.len()
}

/// Whether `a` comes before `b` in the order of paths.
pub fn path_less_of(a: &str, b: &str) -> (r: bool)
    ensures
        r == path_less(a@, b@),
{
    let x = components_of(a);
    let y = components_of(b);
    proof {
        reveal(path_less);
    }
    comps_less_of(&x, &y)
}


/// `c[k]` names a path that no earlier member of `c` names.
pub open spec fn first_of_class(c: Seq<Seq<char>>, k: int) -> bool {
    forall|k2: int| 0 <= k2 < k ==> !same_path(#[trigger] c[k2], c[k])
}

/// Some member of `r` names the same path as `x`.
#[verifier::opaque]
pub open spec fn covered(r: Seq<Seq<char>>, x: Seq<char>) -> bool {
    exists|i: int| 0 <= i < r.len() && same_path(r[i], x)
}

/// `x` is the first member of `c` that names its path.
#[verifier::opaque]
pub open spec fn first_member(c: Seq<Seq<char>>, x: Seq<char>) -> bool {
    exists|k: int| 0 <= k < c.len() && c[k] == x && first_of_class(c, k)
}

/// `r` is strictly increasing in the order of paths.
pub open spec fn strictly_sorted(r: Seq<Seq<char>>) -> bool {
    forall|i: int, j: int| 0 <= i < j < r.len() ==> path_less(#[trigger] r[i], #[trigger] r[j])
}

/// `r` lists the paths of `c`, each once, in increasing order, each written as
/// its first member in `c`: what sorting `c` stably and then dropping
/// neighbours that name the same path gives.
pub open spec fn sorted_firsts(r: Seq<Seq<char>>, c: Seq<Seq<char>>) -> bool {
    &&& strictly_sorted(r)
    &&& forall|k: int| 0 <= k < c.len() ==> covered(r, #[trigger] c[k])
    &&& forall|i: int| 0 <= i < r.len() ==> first_member(c, #[trigger] r[i])
}

proof fn lemma_first_member_push(c: Seq<Seq<char>>, y: Seq<char>, x: Seq<char>)
    requires
        first_member(c, x),
    ensures
        first_member(c.push(y), x),
{
    reveal(first_member);
    let k = choose|k: int| 0 <= k < c.len() && c[k] == x && first_of_class(c, k);
    let c2 = c.push(y);
    assert(c2[k] == c[k]);
    assert forall|k2: int| 0 <= k2 < k implies !same_path(#[trigger] c2[k2], c2[k]) by {
        assert(c2[k2] == c[k2]);
    }
}

proof fn lemma_extend_found(rv: Seq<Seq<char>>, cv: Seq<Seq<char>>, x: Seq<char>, p: int)
    requires
        sorted_firsts(rv, cv),
        0 <= p < rv.len(),
        same_path(rv[p], x),
    ensures
        sorted_firsts(rv, cv.push(x)),
{
    let cv2 = cv.push(x);
    assert forall|k2: int| 0 <= k2 < cv2.len() implies covered(rv, #[trigger] cv2[k2]) by {
        if k2 < cv.len() {
            assert(cv[k2] == cv2[k2]);
        } else {
            reveal(covered);
            assert(same_path(rv[p], cv2[k2]));
        }
    }
    assert forall|i: int| 0 <= i < rv.len() implies first_member(cv2, #[trigger] rv[i]) by {
        lemma_first_member_push(cv, x, rv[i]);
    }
}

proof fn lemma_insert_sorted(rv: Seq<Seq<char>>, x: Seq<char>, p: int)
    requires
        strictly_sorted(rv),
        0 <= p <= rv.len(),
        forall|i: int| 0 <= i < p ==> path_less(#[trigger] rv[i], x),
        p < rv.len() ==> path_less(x, rv[p]),
    ensures
        strictly_sorted(rv.insert(p, x)),
        forall|i: int| 0 <= i < rv.len() ==> !same_path(#[trigger] rv[i], x),
{
    let nv = rv.insert(p, x);
    assert forall|i: int| 0 <= i < rv.len() implies !same_path(#[trigger] rv[i], x) by {
        lemma_path_order(rv[i], x, x);
        if i >= p {
            if i > p {
                lemma_path_order(x, rv[p], rv[i]);
            }
            lemma_path_order(x, rv[i], rv[i]);
        }
    }
    assert forall|i: int, j: int| 0 <= i < j < nv.len() implies path_less(
        #[trigger] nv[i],
        #[trigger] nv[j],
    ) by {
        if j < p {
            assert(nv[i] == rv[i] && nv[j] == rv[j]);
        } else if j == p {
            assert(nv[i] == rv[i]);
        } else if i == p {
            assert(nv[j] == rv[j - 1]);
            if j - 1 > p {
                assert(path_less(rv[p], rv[j - 1]));
                lemma_path_order(x, rv[p], rv[j - 1]);
            }
        } else if i < p {
            assert(nv[i] == rv[i] && nv[j] == rv[j - 1]);
        } else {
            assert(nv[i] == rv[i - 1] && nv[j] == rv[j - 1]);
        }
    }
}

proof fn lemma_extend_insert(rv: Seq<Seq<char>>, cv: Seq<Seq<char>>, x: Seq<char>, p: int)
    requires
        sorted_firsts(rv, cv),
        0 <= p <= rv.len(),
        forall|i: int| 0 <= i < p ==> path_less(#[trigger] rv[i], x),
        p < rv.len() ==> path_less(x, rv[p]),
    ensures
        sorted_firsts(rv.insert(p, x), cv.push(x)),
{
    let nv = rv.insert(p, x);
    let cv2 = cv.push(x);
    lemma_insert_sorted(rv, x, p);
    assert forall|k2: int| 0 <= k2 < cv2.len() implies covered(nv, #[trigger] cv2[k2]) by {
        reveal(covered);
        if k2 < cv.len() {
            assert(cv[k2] == cv2[k2]);
            assert(covered(rv, cv[k2]));
            let i = choose|i: int| 0 <= i < rv.len() && same_path(rv[i], cv[k2]);
            if i < p {
                assert(nv[i] == rv[i]);
            } else {
                assert(nv[i + 1] == rv[i]);
            }
        } else {
            assert(nv[p] == cv2[k2]);
        }
    }
    assert forall|i: int| 0 <= i < nv.len() implies first_member(cv2, #[trigger] nv[i]) by {
        if i == p {
            reveal(first_member);
            let k = cv.len() as int;
            assert(nv[i] == cv2[k]);
            assert forall|k2: int| 0 <= k2 < k implies !same_path(#[trigger] cv2[k2], cv2[k]) by {
                assert(cv2[k2] == cv[k2]);
                assert(covered(rv, cv[k2]));
                reveal(covered);
                let j = choose|j: int| 0 <= j < rv.len() && same_path(rv[j], cv[k2]);
                assert(!same_path(rv[j], x));
            }
            assert(first_of_class(cv2, k));
        } else {
            let oi = if i < p {
                i
            } else {
                i - 1
            };
            assert(nv[i] == rv[oi]);
            lemma_first_member_push(cv, x, rv[oi]);
        }
    }
}

/// Sorts the paths of `c` and keeps one of each (the first met).
pub fn sorted_unique_paths(c: &Vec<String>) -> (r: Vec<String>)
    ensures
        sorted_firsts(string_views(r@), string_views(c@)),
{
    let mut r: Vec<String> = Vec::new();
    let mut k: usize = 0;
    assert(string_views(c@).take(0) =~= Seq::<Seq<char>>::empty());
    while k < c.len()
        invariant
            k <= c.len(),
            sorted_firsts(string_views(r@), string_views(c@).take(k as int)),
        decreases c.len() - k,
    {
        let ghost rv = string_views(r@);
        let ghost cv = string_views(c@).take(k as int);
        assert(string_views(c@).take(k + 1) =~= cv.push(c@[k as int]@));
        let x = &c[k];
        let mut p: usize = 0;
        let mut found = false;
        let mut stop = false;
        while p < r.len() && !stop
            invariant
                p <= r.len(),
                rv == string_views(r@),
                forall|i: int| 0 <= i < p ==> path_less(#[trigger] rv[i], x@),
                found ==> stop && p < r.len() && same_path(rv[p as int], x@),
                stop && !found ==> p < r.len() && path_less(x@, rv[p as int]),
            decreases r.len() - p + (if stop { 0int } else { 1int }),
        {
            if same_path_of(r[p].as_str(), x.as_str()) {
                found = true;
                stop = true;
            } else if path_less_of(x.as_str(), r[p].as_str()) {
                stop = true;
            } else {
                proof {
                    lemma_path_order(rv[p as int], x@, x@);
                }
                p = p + 1;
            }
        }
        if found {
            proof {
                lemma_extend_found(rv, cv, x@, p as int);
            }
        } else {
            r.insert(p, x.clone());
            proof {
                assert(string_views(r@) =~= rv.insert(p as int, x@));
                lemma_extend_insert(rv, cv, x@, p as int);
            }
        }
        k = k + 1;
    }
    assert(string_views(c@).take(c.len() as int) =~= string_views(c@));
    r
}

/// `s` holds no `c`.
pub open spec fn lacks(s: Seq<char>, c: char) -> bool {
    forall|i: int| 0 <= i < s.len() ==> s[i] != c
}

/// A plain file name: one normal component, written without a separator.
pub open spec fn plain_name(n: Seq<char>) -> bool {
    n.len() > 0 && lacks(n, '/') && is_normal(n)
}

/// Splitting at a separator splits the two sides.
pub proof fn lemma_split_concat(s: Seq<char>, t: Seq<char>, sep: char)
    ensures
        split_on(s + seq![sep] + t, sep) == split_on(s, sep) + split_on(t, sep),
    decreases t.len(),
{
    lemma_split_on_nonempty(t, sep);
    if t.len() == 0 {
        assert(s + seq![sep] + t =~= s.push(sep));
        assert((s.push(sep)).drop_last() =~= s);
        assert(split_on(t, sep) =~= seq![Seq::<char>::empty()]);
        assert(split_on(s, sep).push(Seq::<char>::empty()) =~= split_on(s, sep) + split_on(t, sep));
    } else {
        let u = t.drop_last();
        lemma_split_concat(s, u, sep);
        lemma_split_on_nonempty(u, sep);
        let whole = s + seq![sep] + t;
        assert(whole.drop_last() =~= s + seq![sep] + u);
        assert(whole.last() == t.last());
        let a = split_on(s, sep);
        let b = split_on(u, sep);
        if t.last() == sep {
            assert(split_on(whole, sep) =~= (a + b).push(Seq::<char>::empty()));
            assert((a + b).push(Seq::<char>::empty()) =~= a + b.push(Seq::<char>::empty()));
        } else {
            let ab = a + b;
            assert(ab.last() == b.last());
            assert(ab.update(ab.len() - 1, ab.last().push(t.last())) =~= a + b.update(
                b.len() - 1,
                b.last().push(t.last()),
            ));
        }
    }
}

/// A piece without a separator is its own only piece.
pub proof fn lemma_split_single(t: Seq<char>, sep: char)
    requires
        lacks(t, sep),
    ensures
        split_on(t, sep) == seq![t],
    decreases t.len(),
{
    if t.len() > 0 {
        lemma_split_single(t.drop_last(), sep);
        assert(t.drop_last().push(t.last()) =~= t);
        assert(seq![t.drop_last()].update(0, t.drop_last().push(t.last())) =~= seq![t]);
    } else {
        assert(t =~= Seq::<char>::empty());
    }
}

/// No piece holds the separator.
pub proof fn lemma_split_pieces_lack(s: Seq<char>, sep: char)
    ensures
        forall|k: int| 0 <= k < split_on(s, sep).len() ==> lacks(#[trigger] split_on(s, sep)[k], sep),
    decreases s.len(),
{
    if s.len() > 0 {
        lemma_split_pieces_lack(s.drop_last(), sep);
        lemma_split_on_nonempty(s.drop_last(), sep);
        let init = split_on(s.drop_last(), sep);
        assert forall|k: int| 0 <= k < split_on(s, sep).len() implies lacks(#[trigger] split_on(s, sep)[k], sep) by {
            if k < init.len() {
                assert(lacks(init[k], sep));
            }
        }
    }
}

proof fn lemma_comps_of_one(x: Seq<char>, rooted: bool)
    ensures
        comps_of_pieces(seq![x], rooted) == piece_comps(x, true, rooted),
{
    assert(seq![x].drop_last() =~= Seq::<Seq<char>>::empty());
    assert(seq![x].last() == x);
    assert(seq![x].len() == 1);
    assert(comps_of_pieces(Seq::<Seq<char>>::empty(), rooted) == Seq::<Seq<char>>::empty());
    assert(comps_of_pieces(seq![x], rooted) == comps_of_pieces(seq![x].drop_last(), rooted) + piece_comps(x, true, rooted));
    assert(Seq::<Seq<char>>::empty() + piece_comps(x, true, rooted) =~= piece_comps(x, true, rooted));
}

/// The components of pieces that are all normal names followed after a
/// first piece are those of the first piece and then the names.
proof fn lemma_comps_of_named_pieces(pre: Seq<Seq<char>>, xs: Seq<Seq<char>>, rooted: bool)
    requires
        pre.len() >= 1,
        forall|i: int| 0 <= i < xs.len() ==> (#[trigger] xs[i]).len() > 0 && xs[i] != cur_comp(),
    ensures
        comps_of_pieces(pre + xs, rooted) == comps_of_pieces(pre, rooted) + xs,
    decreases xs.len(),
{
    if xs.len() == 0 {
        assert(pre + xs =~= pre);
        assert(comps_of_pieces(pre, rooted) + xs =~= comps_of_pieces(pre, rooted));
    } else {
        lemma_comps_of_named_pieces(pre, xs.drop_last(), rooted);
        assert((pre + xs).drop_last() =~= pre + xs.drop_last());
        assert((pre + xs).last() == xs.last());
        assert(comps_of_pieces(pre, rooted) + xs =~= comps_of_pieces(pre, rooted) + xs.drop_last() + seq![xs.last()]);
    }
}

/// Joining a plain name adds it as the last component.
pub proof fn lemma_join_components(d: Seq<char>, n: Seq<char>)
    requires
        plain_name(n),
    ensures
        components(spec_join(d, n)) == components(d).push(n),
{
    reveal(components);
    lemma_split_single(n, '/');
    assert(!is_rooted(n));
    let j = spec_join(d, n);
    if d.len() == 0 {
        assert(j == n);
        assert(split_on(d, '/') =~= seq![Seq::<char>::empty()]);
        lemma_comps_of_one(n, false);
        lemma_comps_of_one(Seq::<char>::empty(), false);
        assert(comps_of_pieces(seq![n], false) =~= seq![n]);
        assert(components(d) =~= Seq::<Seq<char>>::empty());
    } else {
        let d0 = if d.last() == '/' {
            d.drop_last()
        } else {
            d
        };
        assert(j =~= d0 + seq!['/'] + n);
        lemma_split_concat(d0, n, '/');
        lemma_split_on_nonempty(d0, '/');
        let p0 = split_on(d0, '/');
        assert(is_rooted(j) == is_rooted(d));
        lemma_comps_of_named_pieces(p0, seq![n], is_rooted(d));
        if d.last() == '/' {
            assert(d =~= d0 + seq!['/'] + Seq::<char>::empty());
            lemma_split_concat(d0, Seq::<char>::empty(), '/');
            assert(split_on(Seq::<char>::empty(), '/') =~= seq![Seq::<char>::empty()]);
            let pd = p0 + seq![Seq::<char>::empty()];
            assert(pd.drop_last() =~= p0);
            assert(comps_of_pieces(pd, is_rooted(d)) =~= comps_of_pieces(p0, is_rooted(d)));
        }
        assert(components(j) =~= components(d).push(n));
    }
}

/// Components as `components` gives them: non-empty; the root only first;
/// `.` only first and only in a relative path; no other holds a `/`.
pub open spec fn well_formed_components(cs: Seq<Seq<char>>) -> bool {
    forall|i: int|
        0 <= i < cs.len() ==> {
            &&& (#[trigger] cs[i]).len() > 0
            &&& (cs[i] == root_comp() ==> i == 0)
            &&& (cs[i] != root_comp() ==> lacks(cs[i], '/'))
            &&& (cs[i] == cur_comp() ==> i == 0)
        }
}

proof fn lemma_comps_of_pieces_well_formed(ps: Seq<Seq<char>>, rooted: bool)
    requires
        forall|k: int| 0 <= k < ps.len() ==> lacks(#[trigger] ps[k], '/'),
    ensures
        well_formed_components(comps_of_pieces(ps, rooted)),
        rooted ==> forall|i: int|
            0 <= i < comps_of_pieces(ps, rooted).len() ==> #[trigger] comps_of_pieces(ps, rooted)[i]
                != cur_comp(),
        forall|i: int|
            0 <= i < comps_of_pieces(ps, rooted).len() ==> #[trigger] comps_of_pieces(ps, rooted)[i]
                != root_comp(),
    decreases ps.len(),
{
    if ps.len() > 0 {
        lemma_comps_of_pieces_well_formed(ps.drop_last(), rooted);
        assert forall|k: int| 0 <= k < ps.drop_last().len() implies lacks(#[trigger] ps.drop_last()[k], '/') by {
            assert(ps.drop_last()[k] == ps[k]);
        }
        assert(lacks(ps.last(), '/'));
        let c0 = comps_of_pieces(ps.drop_last(), rooted);
        if ps.len() == 1 {
            assert(c0 =~= Seq::<Seq<char>>::empty());
        }
        assert(ps.last() != root_comp() || ps.last()[0] == '/');
    }
}

/// The components of any string are well formed.
pub proof fn lemma_components_well_formed(s: Seq<char>)
    ensures
        well_formed_components(components(s)),
{
    reveal(components);
    let ps = split_sep(s);
    lemma_split_pieces_lack(s, '/');
    lemma_comps_of_pieces_well_formed(ps, is_rooted(s));
    let c = comps_of_pieces(ps, is_rooted(s));
    if is_rooted(s) {
        assert forall|i: int| 0 <= i < components(s).len() implies {
            &&& (#[trigger] components(s)[i]).len() > 0
            &&& (components(s)[i] == root_comp() ==> i == 0)
            &&& (components(s)[i] != root_comp() ==> lacks(components(s)[i], '/'))
            &&& (components(s)[i] == cur_comp() ==> i == 0)
        } by {
            if i > 0 {
                assert(components(s)[i] == c[i - 1]);
            }
        }
    } else {
        assert(components(s) =~= c);
    }
}

/// Splitting names joined by `/` gives the names back.
proof fn lemma_split_join_names(ns: Seq<Seq<char>>)
    requires
        ns.len() >= 1,
        forall|i: int| 0 <= i < ns.len() ==> lacks(#[trigger] ns[i], '/'),
    ensures
        split_sep(join_names(ns)) == ns,
    decreases ns.len(),
{
    if ns.len() == 1 {
        lemma_split_single(ns[0], '/');
        assert(seq![ns[0]] =~= ns);
    } else {
        let init = ns.drop_last();
        assert forall|i: int| 0 <= i < init.len() implies lacks(#[trigger] init[i], '/') by {
            assert(init[i] == ns[i]);
        }
        lemma_split_join_names(init);
        lemma_split_concat(join_names(init), ns.last(), '/');
        lemma_split_single(ns.last(), '/');
        assert(init + seq![ns.last()] =~= ns);
    }
}

/// Writing well-formed components out and reading them back gives them.
pub proof fn lemma_render_components(cs: Seq<Seq<char>>)
    requires
        well_formed_components(cs),
    ensures
        components(render(cs)) == cs,
{
    reveal(components);
    if cs.len() == 0 {
        assert(render(cs) =~= Seq::<char>::empty());
        assert(split_sep(Seq::<char>::empty()) =~= seq![Seq::<char>::empty()]);
        lemma_comps_of_one(Seq::<char>::empty(), false);
        assert(components(render(cs)) =~= cs);
    } else if cs[0] == root_comp() {
        let rest = cs.drop_first();
        let j = join_names(rest);
        assert(render(cs) =~= Seq::<char>::empty() + seq!['/'] + j);
        lemma_split_concat(Seq::<char>::empty(), j, '/');
        assert(split_on(Seq::<char>::empty(), '/') =~= seq![Seq::<char>::empty()]);
        assert(is_rooted(render(cs)));
        assert forall|i: int| 0 <= i < rest.len() implies (#[trigger] rest[i]).len() > 0 && rest[i] != cur_comp() by {
            assert(rest[i] == cs[i + 1]);
        }
        if rest.len() == 0 {
            assert(j =~= Seq::<char>::empty());
            assert(split_sep(render(cs)) =~= seq![Seq::<char>::empty(), Seq::<char>::empty()]);
            lemma_comps_of_one(Seq::<char>::empty(), true);
            assert(comps_of_pieces(seq![Seq::<char>::empty()], true) =~= Seq::<Seq<char>>::empty());
            assert(seq![Seq::<char>::empty()] + seq![Seq::<char>::empty()] =~= seq![Seq::<char>::empty(), Seq::<char>::empty()]);
            lemma_comps_of_named_pieces(seq![Seq::<char>::empty()], Seq::<Seq<char>>::empty(), true);
            assert(seq![Seq::<char>::empty(), Seq::<char>::empty()].drop_last() =~= seq![Seq::<char>::empty()]);
            assert(components(render(cs)) =~= cs);
        } else {
            assert forall|i: int| 0 <= i < rest.len() implies lacks(#[trigger] rest[i], '/') by {
                assert(rest[i] == cs[i + 1]);
            }
            lemma_split_join_names(rest);
            lemma_comps_of_named_pieces(seq![Seq::<char>::empty()], rest, true);
            lemma_comps_of_one(Seq::<char>::empty(), true);
            assert(comps_of_pieces(seq![Seq::<char>::empty()], true) =~= Seq::<Seq<char>>::empty());
            assert(seq![root_comp()] + rest =~= cs);
            assert(components(render(cs)) =~= cs);
        }
    } else {
        let j = join_names(cs);
        assert(render(cs) == j);
        assert forall|i: int| 0 <= i < cs.len() implies lacks(#[trigger] cs[i], '/') by {}
        lemma_split_join_names(cs);
        assert(!is_rooted(j)) by {
            if is_rooted(j) {
                assert(j =~= Seq::<char>::empty() + seq!['/'] + j.skip(1));
                lemma_split_concat(Seq::<char>::empty(), j.skip(1), '/');
                assert(split_on(Seq::<char>::empty(), '/') =~= seq![Seq::<char>::empty()]);
                assert(split_sep(j)[0] == Seq::<char>::empty());
            }
        }
        let rest = cs.drop_first();
        assert forall|i: int| 0 <= i < rest.len() implies (#[trigger] rest[i]).len() > 0 && rest[i] != cur_comp() by {
            assert(rest[i] == cs[i + 1]);
        }
        lemma_comps_of_named_pieces(seq![cs[0]], rest, false);
        assert(seq![cs[0]] + rest =~= cs);
        lemma_comps_of_one(cs[0], false);
        assert(comps_of_pieces(seq![cs[0]], false) =~= seq![cs[0]]);
        assert(components(render(cs)) =~= cs);
    }
}

proof fn lemma_sorted_same_members(a: Seq<Seq<char>>, b: Seq<Seq<char>>)
    requires
        strictly_sorted(a),
        strictly_sorted(b),
        forall|i: int| 0 <= i < a.len() ==> b.contains(#[trigger] a[i]),
        forall|j: int| 0 <= j < b.len() ==> a.contains(#[trigger] b[j]),
    ensures
        a == b,
    decreases a.len(),
{
    if a.len() == 0 {
        if b.len() > 0 {
            assert(a.contains(b[0]));
        }
        assert(a =~= b);
    } else {
        assert(b.contains(a[0]));
        assert(b.len() > 0);
        assert(a.contains(b[0]));
        let j = choose|j: int| 0 <= j < b.len() && b[j] == a[0];
        let i = choose|i: int| 0 <= i < a.len() && a[i] == b[0];
        lemma_path_order(a[0], a[0], a[0]);
        lemma_path_order(a[0], a[i], a[0]);
        if j > 0 {
            assert(path_less(b[0], b[j]));
            if i > 0 {
                assert(path_less(a[0], a[i]));
            }
            assert(false);
        }
        assert(a[0] == b[0]);
        let a1 = a.drop_first();
        let b1 = b.drop_first();
        assert forall|x: int| 0 <= x < a1.len() implies b1.contains(#[trigger] a1[x]) by {
            assert(a1[x] == a[x + 1]);
            assert(b.contains(a[x + 1]));
            let y = choose|y: int| 0 <= y < b.len() && b[y] == a[x + 1];
            assert(path_less(a[0], a[x + 1]));
            lemma_path_order(a[0], a[0], a[0]);
            assert(y != 0);
            assert(b1[y - 1] == b[y]);
        }
        assert forall|y: int| 0 <= y < b1.len() implies a1.contains(#[trigger] b1[y]) by {
            assert(b1[y] == b[y + 1]);
            assert(a.contains(b[y + 1]));
            let x = choose|x: int| 0 <= x < a.len() && a[x] == b[y + 1];
            assert(path_less(b[0], b[y + 1]));
            lemma_path_order(b[0], b[0], b[0]);
            assert(x != 0);
            assert(a1[x - 1] == a[x]);
        }
        assert forall|p: int, q: int| 0 <= p < q < a1.len() implies path_less(#[trigger] a1[p], #[trigger] a1[q]) by {
            assert(a1[p] == a[p + 1] && a1[q] == a[q + 1]);
        }
        assert forall|p: int, q: int| 0 <= p < q < b1.len() implies path_less(#[trigger] b1[p], #[trigger] b1[q]) by {
            assert(b1[p] == b[p + 1] && b1[q] == b[q + 1]);
        }
        lemma_sorted_same_members(a1, b1);
        assert(a =~= seq![a[0]] + a1);
        assert(b =~= seq![b[0]] + b1);
    }
}

proof fn lemma_same_class_firsts(c: Seq<Seq<char>>, x: Seq<char>, y: Seq<char>)
    requires
        first_member(c, x),
        first_member(c, y),
        same_path(x, y),
    ensures
        x == y,
{
    reveal(first_member);
    let k = choose|k: int| 0 <= k < c.len() && c[k] == x && first_of_class(c, k);
    let k2 = choose|k2: int| 0 <= k2 < c.len() && c[k2] == y && first_of_class(c, k2);
    if k2 < k {
        assert(!same_path(c[k2], c[k]));
    } else if k < k2 {
        assert(!same_path(c[k], c[k2]));
    }
}

proof fn lemma_first_within(b: Seq<Seq<char>>, c: Seq<Seq<char>>, x: Seq<char>)
    requires
        first_member(c, x),
        forall|k: int| 0 <= k < c.len() ==> covered(b, #[trigger] c[k]),
        forall|j: int| 0 <= j < b.len() ==> first_member(c, #[trigger] b[j]),
    ensures
        b.contains(x),
{
    reveal(first_member);
    let k = choose|k: int| 0 <= k < c.len() && c[k] == x && first_of_class(c, k);
    assert(covered(b, c[k]));
    reveal(covered);
    let j = choose|j: int| 0 <= j < b.len() && same_path(b[j], c[k]);
    assert(first_member(c, b[j]));
    lemma_same_class_firsts(c, b[j], x);
}

proof fn lemma_firsts_within(a: Seq<Seq<char>>, b: Seq<Seq<char>>, c: Seq<Seq<char>>)
    requires
        sorted_firsts(a, c),
        sorted_firsts(b, c),
    ensures
        forall|i: int| 0 <= i < a.len() ==> b.contains(#[trigger] a[i]),
{
    assert forall|i: int| 0 <= i < a.len() implies b.contains(#[trigger] a[i]) by {
        lemma_first_within(b, c, a[i]);
    }
}

/// What sorting and de-duplicating gives is determined by what went in:
/// two lists that are both the sorted first members of `c` are the same.
pub proof fn lemma_sorted_firsts_unique(r1: Seq<Seq<char>>, r2: Seq<Seq<char>>, c: Seq<Seq<char>>)
    requires
        sorted_firsts(r1, c),
        sorted_firsts(r2, c),
    ensures
        r1 == r2,
{
    lemma_firsts_within(r1, r2, c);
    lemma_firsts_within(r2, r1, c);
    lemma_sorted_same_members(r1, r2);
}

proof fn lemma_comps_of_pieces_prefix(xs: Seq<Seq<char>>, ys: Seq<Seq<char>>, rooted: bool)
    ensures
        comps_of_pieces(xs, rooted).is_prefix_of(comps_of_pieces(xs + ys, rooted)),
    decreases ys.len(),
{
    if ys.len() == 0 {
        assert(xs + ys =~= xs);
        assert(comps_of_pieces(xs, rooted).subrange(0, comps_of_pieces(xs, rooted).len() as int) =~= comps_of_pieces(xs, rooted));
    } else {
        lemma_comps_of_pieces_prefix(xs, ys.drop_last(), rooted);
        assert((xs + ys).drop_last() =~= xs + ys.drop_last());
        let a = comps_of_pieces(xs, rooted);
        let b = comps_of_pieces(xs + ys.drop_last(), rooted);
        let c = comps_of_pieces(xs + ys, rooted);
        assert(c == b + piece_comps(ys.last(), (xs + ys).len() == 1, rooted));
        assert(a =~= b.subrange(0, a.len() as int));
        assert(c.subrange(0, a.len() as int) =~= b.subrange(0, a.len() as int));
    }
}

/// Where a path holds `/n/` for a plain name `n`, `n` is one of its
/// components: a whole component, not part of a longer name.
pub proof fn lemma_between_separators_is_component(s: Seq<char>, n: Seq<char>)
    requires
        plain_name(n),
        exists|i: int| holds_at(s, seq!['/'] + n + seq!['/'], i),
    ensures
        components(s).contains(n),
{
    reveal(components);
    let w = seq!['/'] + n + seq!['/'];
    let i = choose|i: int| holds_at(s, w, i);
    let a = s.subrange(0, i);
    let b = s.subrange(i + w.len(), s.len() as int);
    assert(s =~= a + w + b) by {
        assert(s.subrange(i, i + w.len()) == w);
        assert forall|j: int| 0 <= j < s.len() implies s[j] == (a + w + b)[j] by {
            if i <= j < i + w.len() {
                assert(s.subrange(i, i + w.len())[j - i] == s[j]);
            }
        }
    }
    assert(a + w + b =~= a + seq!['/'] + (n + seq!['/'] + b));
    lemma_split_concat(a, n + seq!['/'] + b, '/');
    lemma_split_concat(n, b, '/');
    lemma_split_single(n, '/');
    let pa = split_on(a, '/');
    let pb = split_on(b, '/');
    lemma_split_on_nonempty(a, '/');
    assert(split_sep(s) =~= (pa + seq![n]) + pb);
    lemma_comps_of_pieces_prefix(pa + seq![n], pb, is_rooted(s));
    assert((pa + seq![n]).drop_last() =~= pa);
    let c1 = comps_of_pieces(pa + seq![n], is_rooted(s));
    assert(c1 == comps_of_pieces(pa, is_rooted(s)) + seq![n]);
    let c = comps_of_pieces(split_sep(s), is_rooted(s));
    assert(c1.is_prefix_of(c));
    assert(c1[c1.len() - 1] == n);
    assert(c.subrange(0, c1.len() as int)[c1.len() - 1] == c[c1.len() - 1]);
    assert(c[c1.len() - 1] == n);
    let root = if is_rooted(s) {
        seq![root_comp()]
    } else {
        Seq::<Seq<char>>::empty()
    };
    assert(components(s) == root + c);
    assert(components(s)[root.len() + c1.len() - 1] == n);
}

} // verus!
