//! Path rules of the library: paths are handled as text, split into
//! components the way `std::path::Path` does on Unix, and every path a
//! request names must lie inside one of the library roots.

use vstd::prelude::*;
use crate::text;
use crate::text::{ascii_lower_vec, chars_eq, chars_of, ends_with_exec, string_of};

verus! {

// ---------------------------------------------------------------------------
// The component model
// ---------------------------------------------------------------------------

/// The first position at or after `i` holding a separator, or the length.
pub open spec fn next_sep(s: Seq<char>, i: int) -> int
    decreases s.len() - i,
{
    if i >= s.len() {
        s.len() as int
    } else if s[i] == '/' {
        i
    } else {
        next_sep(s, i + 1)
    }
}

pub proof fn lemma_next_sep(s: Seq<char>, i: int)
    requires
        0 <= i <= s.len(),
    ensures
        i <= next_sep(s, i) <= s.len(),
        next_sep(s, i) < s.len() ==> s[next_sep(s, i)] == '/',
        forall|j: int| i <= j < next_sep(s, i) ==> s[j] != '/',
    decreases s.len() - i,
{
    if i < s.len() && s[i] != '/' {
        lemma_next_sep(s, i + 1);
    }
}

/// The spans of the pieces between separators from position `i` on, without
/// empty pieces and without `.` pieces (a `.` at the very start of a relative
/// path is kept: it is the current-directory component).
pub open spec fn pieces_from(s: Seq<char>, i: int) -> Seq<(int, int)>
    decreases s.len() + 1 - i,
{
    if i < 0 || i > s.len() {
        seq![]
    } else {
        let e = next_sep(s, i);
        proof {
            lemma_next_sep(s, i);
        }
        let keep = e > i && (s.subrange(i, e) != seq!['.'] || i == 0);
        let rest = if e < s.len() {
            pieces_from(s, e + 1)
        } else {
            seq![]
        };
        if keep {
            seq![(i, e)] + rest
        } else {
            rest
        }
    }
}

/// The spans of the components of path `s` (`Path::components`): the root
/// directory first when `s` starts with `/`, then the named pieces.
pub open spec fn comps(s: Seq<char>) -> Seq<(int, int)> {
    if s.len() > 0 && s[0] == '/' {
        seq![(0int, 1int)] + pieces_from(s, 0)
    } else {
        pieces_from(s, 0)
    }
}

/// The text of each component (`Component::as_os_str`); the root is `/`.
pub open spec fn comp_texts(s: Seq<char>) -> Seq<Seq<char>> {
    comps(s).map_values(|c: (int, int)| s.subrange(c.0, c.1))
}

/// `Path::starts_with`: the components of `base` are a prefix of those of `p`.
pub open spec fn path_starts_with(p: Seq<char>, base: Seq<char>) -> bool {
    let tp = comp_texts(p);
    let tb = comp_texts(base);
    tb.len() <= tp.len() && tp.take(tb.len() as int) == tb
}

/// `Path` equality: the same components.
pub open spec fn same_path(a: Seq<char>, b: Seq<char>) -> bool {
    comp_texts(a) == comp_texts(b)
}

/// `Path::file_name`: the last component when it is a name.
pub open spec fn file_name(p: Seq<char>) -> Option<Seq<char>> {
    let t = comp_texts(p);
    if t.len() > 0 && t.last() != seq!['.', '.'] && t.last() != seq!['.'] && t.last() != seq!['/'] {
        Some(t.last())
    } else {
        None
    }
}

/// `file_name_of`: the file name, or the empty text.
pub open spec fn file_name_text(p: Seq<char>) -> Seq<char> {
    match file_name(p) {
        Some(n) => n,
        None => seq![],
    }
}

/// `PathBuf::join` of a relative or absolute component text.
pub open spec fn path_join(base: Seq<char>, seg: Seq<char>) -> Seq<char> {
    if seg.len() > 0 && seg[0] == '/' {
        seg
    } else if base.len() > 0 && base.last() != '/' {
        base + seq!['/'] + seg
    } else {
        base + seg
    }
}

/// The views of a list of strings.
pub open spec fn strs_view(v: Seq<String>) -> Seq<Seq<char>> {
    v.map_values(|x: String| x@)
}

/// The views of a list of character vectors.
pub open spec fn vecs_view(v: Seq<Vec<char>>) -> Seq<Seq<char>> {
    v.map_values(|x: Vec<char>| x@)
}

/// Index of the first root that `p` lies in (`p == root || p.starts_with(root)`).
pub open spec fn first_root_from(p: Seq<char>, roots: Seq<Seq<char>>, i: int) -> Option<int>
    decreases roots.len() - i,
{
    if i < 0 || i >= roots.len() {
        None
    } else if path_starts_with(p, roots[i]) {
        Some(i)
    } else {
        first_root_from(p, roots, i + 1)
    }
}

/// The root that `p` belongs to: the first of `roots` that contains it.
pub open spec fn root_of_spec(p: Seq<char>, roots: Seq<Seq<char>>) -> Option<Seq<char>> {
    match first_root_from(p, roots, 0) {
        Some(i) => Some(roots[i]),
        None => None,
    }
}

/// The components of `p` below its root.
pub open spec fn rel_segments_spec(p: Seq<char>, roots: Seq<Seq<char>>) -> Seq<Seq<char>> {
    match root_of_spec(p, roots) {
        Some(r) => comp_texts(p).skip(comp_texts(r).len() as int),
        None => seq![],
    }
}

/// Whether `p` lies inside at least one root.
pub open spec fn within_roots(p: Seq<char>, roots: Seq<Seq<char>>) -> bool {
    exists|i: int| 0 <= i < roots.len() && path_starts_with(p, #[trigger] roots[i])
}

pub proof fn lemma_first_root_from(p: Seq<char>, roots: Seq<Seq<char>>, i: int)
    requires
        0 <= i,
    ensures
        first_root_from(p, roots, i) matches Some(k) ==> i <= k < roots.len() && path_starts_with(
            p,
            roots[k],
        ) && forall|j: int| i <= j < k ==> !path_starts_with(p, #[trigger] roots[j]),
        first_root_from(p, roots, i) is None ==> forall|j: int|
            i <= j < roots.len() ==> !path_starts_with(p, #[trigger] roots[j]),
    decreases roots.len() - i,
{
    if i < roots.len() && !path_starts_with(p, roots[i]) {
        lemma_first_root_from(p, roots, i + 1);
    }
}

// ---------------------------------------------------------------------------
// Joining a name onto a path
// ---------------------------------------------------------------------------

/// A component name: not empty, without a separator, and not `.`.
pub open spec fn is_name(t: Seq<char>) -> bool {
    t.len() > 0 && (forall|j: int| 0 <= j < t.len() ==> t[j] != '/') && t != seq!['.']
}

/// The pieces found from `i` lie between `i` and the end, hold no separator
/// and are not empty; a `.` piece starts at 0; every piece after the first
/// starts after `i`.
proof fn lemma_pieces_shape(s: Seq<char>, i: int)
    requires
        0 <= i <= s.len(),
    ensures
        forall|k: int|
            0 <= k < pieces_from(s, i).len() ==> i <= (#[trigger] pieces_from(s, i)[k]).0
                < pieces_from(s, i)[k].1 <= s.len() && (forall|j: int|
                pieces_from(s, i)[k].0 <= j < pieces_from(s, i)[k].1 ==> s[j] != '/') && (s.subrange(
                pieces_from(s, i)[k].0,
                pieces_from(s, i)[k].1,
            ) != seq!['.'] || pieces_from(s, i)[k].0 == 0) && (k > 0 ==> pieces_from(s, i)[k].0 > i),
    decreases s.len() + 1 - i,
{
    lemma_next_sep(s, i);
    let e = next_sep(s, i);
    let pf = pieces_from(s, i);
    let keep = e > i && (s.subrange(i, e) != seq!['.'] || i == 0);
    let rest = if e < s.len() {
        pieces_from(s, e + 1)
    } else {
        seq![]
    };
    assert(pf == if keep {
        seq![(i, e)] + rest
    } else {
        rest
    });
    if e < s.len() {
        lemma_pieces_shape(s, e + 1);
    }
    assert forall|k: int| 0 <= k < pf.len() implies i <= (#[trigger] pf[k]).0 < pf[k].1 <= s.len()
        && (forall|j: int| pf[k].0 <= j < pf[k].1 ==> s[j] != '/') && (s.subrange(pf[k].0, pf[k].1)
        != seq!['.'] || pf[k].0 == 0) && (k > 0 ==> pf[k].0 > i) by {
        if keep && k == 0 {
            assert(pf[k] == (i, e));
        } else if keep {
            assert(pf[k] == rest[k - 1]);
        } else {
            assert(pf[k] == rest[k]);
        }
    }
}

/// Where the separator search from `i` stops in a prefix `c` of `s`, it stops
/// in `s` too; where it runs off the end of `c`, it stops at a separator
/// placed right after `c`.
proof fn lemma_next_sep_ext(c: Seq<char>, s: Seq<char>, i: int)
    requires
        0 <= i <= c.len() <= s.len(),
        s.subrange(0, c.len() as int) == c,
    ensures
        next_sep(c, i) < c.len() ==> next_sep(s, i) == next_sep(c, i),
        next_sep(c, i) == c.len() && c.len() < s.len() && s[c.len() as int] == '/' ==> next_sep(s, i)
            == c.len(),
    decreases c.len() - i,
{
    if i < c.len() {
        assert(s[i] == c[i]) by {
            assert(s.subrange(0, c.len() as int)[i] == s[i]);
        }
        if c[i] != '/' {
            lemma_next_sep_ext(c, s, i + 1);
        }
    }
}

/// A last piece without separators from `start` to the end.
proof fn lemma_pieces_last(s: Seq<char>, start: int)
    requires
        0 < start < s.len(),
        forall|j: int| start <= j < s.len() ==> s[j] != '/',
        s.subrange(start, s.len() as int) != seq!['.'],
    ensures
        pieces_from(s, start) == seq![(start, s.len() as int)],
{
    lemma_next_sep(s, start);
    let e = next_sep(s, start);
    if e < s.len() {
        assert(s[e] == '/');
    }
    assert(e == s.len());
}

/// The pieces of `c` followed by a separator (or ending in one) and a name
/// are the pieces of `c` and then the name.
proof fn lemma_pieces_ext(c: Seq<char>, s: Seq<char>, i: int, start: int)
    requires
        0 <= i <= c.len(),
        c.len() <= start <= c.len() + 1,
        0 < start < s.len(),
        s.subrange(0, c.len() as int) == c,
        start == c.len() + 1 ==> s[c.len() as int] == '/',
        start == c.len() ==> c.len() > 0 && c.last() == '/',
        forall|j: int| start <= j < s.len() ==> s[j] != '/',
        s.subrange(start, s.len() as int) != seq!['.'],
    ensures
        pieces_from(s, i) == pieces_from(c, i) + seq![(start, s.len() as int)],
    decreases c.len() - i,
{
    lemma_pieces_last(s, start);
    lemma_next_sep(c, i);
    let ec = next_sep(c, i);
    if i == c.len() {
        assert(pieces_from(c, i) =~= Seq::<(int, int)>::empty());
        if start == c.len() {
            assert(pieces_from(s, i) == pieces_from(s, start));
        } else {
            lemma_next_sep(s, i);
            assert(next_sep(s, i) == i);
            assert(pieces_from(s, i) == pieces_from(s, start));
        }
        assert(pieces_from(c, i) + seq![(start, s.len() as int)] =~= seq![(start, s.len() as int)]);
    } else {
        if ec == c.len() && start == c.len() {
            assert(c[c.len() - 1] == '/');
            assert(false);
        }
        lemma_next_sep_ext(c, s, i);
        assert(next_sep(s, i) == ec);
        assert(s.subrange(i, ec) =~= c.subrange(i, ec)) by {
            assert forall|j: int| 0 <= j < ec - i implies s.subrange(i, ec)[j] == c.subrange(i, ec)[j] by {
                assert(s.subrange(0, c.len() as int)[i + j] == s[i + j]);
            }
        }
        let last = seq![(start, s.len() as int)];
        if ec < c.len() {
            lemma_pieces_ext(c, s, ec + 1, start);
            let keep = ec > i && (c.subrange(i, ec) != seq!['.'] || i == 0);
            if keep {
                assert(pieces_from(c, i) == seq![(i, ec)] + pieces_from(c, ec + 1));
                assert(pieces_from(s, i) == seq![(i, ec)] + pieces_from(s, ec + 1));
                assert(seq![(i, ec)] + (pieces_from(c, ec + 1) + last) =~= (seq![(i, ec)] + pieces_from(
                    c,
                    ec + 1,
                )) + last);
            } else {
                assert(pieces_from(c, i) == pieces_from(c, ec + 1));
                assert(pieces_from(s, i) == pieces_from(s, ec + 1));
            }
        } else {
            let keep = ec > i && (c.subrange(i, ec) != seq!['.'] || i == 0);
            assert(pieces_from(s, c.len() as int + 1) == last);
            if keep {
                assert(pieces_from(c, i) =~= seq![(i, ec)]);
                assert(pieces_from(s, i) == seq![(i, ec)] + pieces_from(s, ec + 1));
            } else {
                assert(pieces_from(c, i) =~= Seq::<(int, int)>::empty());
                assert(pieces_from(s, i) == pieces_from(s, ec + 1));
                assert(pieces_from(c, i) + last =~= last);
            }
        }
    }
}

/// Joining a name onto a non-empty path adds exactly that name as a last
/// component.
pub proof fn lemma_join_name(c: Seq<char>, seg: Seq<char>)
    requires
        c.len() > 0,
        is_name(seg),
    ensures
        comp_texts(path_join(c, seg)) == comp_texts(c).push(seg),
        path_join(c, seg).len() > 0,
{
    let s = path_join(c, seg);
    let start: int = if c.last() != '/' {
        c.len() as int + 1
    } else {
        c.len() as int
    };
    if c.last() != '/' {
        assert(s == c + seq!['/'] + seg);
    } else {
        assert(s == c + seg);
    }
    assert(s.subrange(0, c.len() as int) =~= c);
    assert(s.subrange(start, s.len() as int) =~= seg);
    assert forall|j: int| start <= j < s.len() implies s[j] != '/' by {
        assert(s[j] == seg[j - start]);
    }
    lemma_pieces_ext(c, s, 0, start);
    let last = seq![(start, s.len() as int)];
    assert(s[0] == c[0]);
    if c[0] == '/' {
        assert(comps(s) =~= comps(c) + last);
    } else {
        assert(comps(s) =~= comps(c) + last);
    }
    lemma_pieces_shape(c, 0);
    assert forall|k: int| 0 <= k < comps(c).len() implies (#[trigger] comps(c)[k]).1 <= c.len()
        && 0 <= comps(c)[k].0 <= comps(c)[k].1 by {
        if c[0] == '/' && k > 0 {
            assert(comps(c)[k] == pieces_from(c, 0)[k - 1]);
        } else if c[0] != '/' {
            assert(comps(c)[k] == pieces_from(c, 0)[k]);
        }
    }
    assert(comp_texts(s) =~= comp_texts(c).push(seg)) by {
        let n = comps(c).len() as int;
        assert forall|k: int| 0 <= k < comp_texts(s).len() implies comp_texts(s)[k] == comp_texts(
            c,
        ).push(seg)[k] by {
            if k < n {
                let sp = comps(c)[k];
                assert(comps(s)[k] == sp);
                assert(s.subrange(sp.0, sp.1) =~= c.subrange(sp.0, sp.1)) by {
                    assert forall|j: int| 0 <= j < sp.1 - sp.0 implies s.subrange(sp.0, sp.1)[j]
                        == c.subrange(sp.0, sp.1)[j] by {
                        assert(s.subrange(0, c.len() as int)[sp.0 + j] == s[sp.0 + j]);
                    }
                }
            } else {
                assert(comps(s)[k] == (start, s.len() as int));
            }
        }
    }
}

/// A non-empty path has at least one component.
pub proof fn lemma_nonempty_has_comp(r: Seq<char>)
    requires
        r.len() > 0,
    ensures
        comp_texts(r).len() >= 1,
{
    if r[0] != '/' {
        lemma_next_sep(r, 0);
        assert(next_sep(r, 0) > 0);
        assert(pieces_from(r, 0).len() >= 1);
    }
}

/// Every component of a path after its first is a name.
pub proof fn lemma_later_comps_are_names(p: Seq<char>, k: int)
    requires
        1 <= k < comp_texts(p).len(),
    ensures
        is_name(comp_texts(p)[k]),
{
    lemma_pieces_shape(p, 0);
    let idx = if p.len() > 0 && p[0] == '/' {
        k - 1
    } else {
        k
    };
    let sp = pieces_from(p, 0)[idx];
    assert(comps(p)[k] == sp);
    let t = p.subrange(sp.0, sp.1);
    assert(comp_texts(p)[k] == t);
    if p.len() > 0 && p[0] == '/' {
        lemma_next_sep(p, 0);
        assert(next_sep(p, 0) == 0);
        if idx == 0 {
            assert(sp.0 > 0) by {
                assert(pieces_from(p, 0) == pieces_from(p, 1));
                lemma_pieces_shape(p, 1);
            }
        }
    }
    assert(sp.0 != 0);
    assert forall|j: int| 0 <= j < t.len() implies t[j] != '/' by {
        assert(t[j] == p[sp.0 + j]);
    }
}

// ---------------------------------------------------------------------------
// Executable component splitting
// ---------------------------------------------------------------------------

/// The spans as integers.
pub open spec fn spans_view(v: Seq<(usize, usize)>) -> Seq<(int, int)> {
    v.map_values(|x: (usize, usize)| (x.0 as int, x.1 as int))
}

/// The first separator at or after `i`, or the length.
pub fn next_sep_exec(s: &[char], i: usize) -> (e: usize)
    requires
        i <= s.len(),
    ensures
        e == next_sep(s@, i as int),
{
    let mut e = i;
    while e < s.len() && s[e] != '/'
        invariant
            i <= e <= s.len(),
            next_sep(s@, i as int) == next_sep(s@, e as int),
        decreases s.len() - e,
    {
        e += 1;
    }
    e
}

/// The spans of the components of `s`.
pub fn path_comps(s: &[char]) -> (r: Vec<(usize, usize)>)
    ensures
        spans_view(r@) == comps(s@),
        forall|k: int| 0 <= k < r.len() ==> #[trigger] r@[k].0 <= r@[k].1 <= s.len(),
{
    let mut out: Vec<(usize, usize)> = Vec::new();
    if s.len() > 0 && s[0] == '/' {
        out.push((0, 1));
    }
    let ghost head = spans_view(out@);
    assert(head + pieces_from(s@, 0) == comps(s@));
    let mut i: usize = 0;
    loop
        invariant_except_break
            spans_view(out@) + pieces_from(s@, i as int) == comps(s@),
        invariant
            i <= s.len(),
            forall|k: int| 0 <= k < out.len() ==> #[trigger] out@[k].0 <= out@[k].1 <= s.len(),
        ensures
            spans_view(out@) == comps(s@),
        decreases s.len() - i,
    {
        let e = next_sep_exec(s, i);
        proof {
            lemma_next_sep(s@, i as int);
        }
        let dot = e > i && e - i == 1 && s[i] == '.';
        assert(dot == (s@.subrange(i as int, e as int) == seq!['.'])) by {
            let sub = s@.subrange(i as int, e as int);
            if sub == seq!['.'] {
                assert(sub.len() == 1);
                assert(sub[0] == s@[i as int]);
            }
            if e > i && e - i == 1 && s@[i as int] == '.' {
                assert(sub =~= seq!['.']);
            }
        }
        let keep = e > i && (!dot || i == 0);
        let ghost before = spans_view(out@);
        if keep {
            out.push((i, e));
            assert(spans_view(out@) == before.push((i as int, e as int)));
        }
        if e < s.len() {
            proof {
                if keep {
                    assert(pieces_from(s@, i as int) == seq![(i as int, e as int)] + pieces_from(
                        s@,
                        e + 1,
                    ));
                    assert(before + pieces_from(s@, i as int) == spans_view(out@) + pieces_from(
                        s@,
                        e + 1,
                    ));
                } else {
                    assert(pieces_from(s@, i as int) == pieces_from(s@, e + 1));
                }
            }
            i = e + 1;
        } else {
            proof {
                if keep {
                    assert(pieces_from(s@, i as int) == seq![(i as int, e as int)]);
                    assert(before + pieces_from(s@, i as int) == spans_view(out@));
                } else {
                    assert(pieces_from(s@, i as int) =~= seq![]);
                    assert(before + pieces_from(s@, i as int) == before);
                }
            }
            break;
        }
    }
    assert(spans_view(out@) == comps(s@));
    out
}

/// The component texts of `s`.
pub fn path_texts(s: &[char]) -> (r: Vec<Vec<char>>)
    ensures
        vecs_view(r@) == comp_texts(s@),
{
    let spans = path_comps(s);
    let mut out: Vec<Vec<char>> = Vec::new();
    let mut k: usize = 0;
    while k < spans.len()
        invariant
            k <= spans.len(),
            spans_view(spans@) == comps(s@),
            forall|j: int| 0 <= j < spans.len() ==> #[trigger] spans@[j].0 <= spans@[j].1 <= s.len(),
            vecs_view(out@) == comp_texts(s@).take(k as int),
        decreases spans.len() - k,
    {
        let (a, b) = spans[k];
        let mut piece: Vec<char> = Vec::new();
        let mut j = a;
        while j < b
            invariant
                a <= j <= b <= s.len(),
                piece@ == s@.subrange(a as int, j as int),
            decreases b - j,
        {
            piece.push(s[j]);
            assert(s@.subrange(a as int, j + 1) == s@.subrange(a as int, j as int).push(s@[j as int]));
            j += 1;
        }
        let ghost prev = vecs_view(out@);
        out.push(piece);
        proof {
            assert(comps(s@)[k as int] == (a as int, b as int));
            assert(vecs_view(out@) == prev.push(s@.subrange(a as int, b as int)));
            assert(comp_texts(s@).take(k as int + 1) == comp_texts(s@).take(k as int).push(
                comp_texts(s@)[k as int],
            ));
        }
        k += 1;
    }
    proof {
        assert(comp_texts(s@).take(spans.len() as int) == comp_texts(s@));
    }
    out
}

/// Whether two lists of texts are equal.
pub fn texts_eq(a: &[Vec<char>], b: &[Vec<char>]) -> (r: bool)
    ensures
        r == (vecs_view(a@) == vecs_view(b@)),
{
    if a.len() != b.len() {
        return false;
    }
    let mut i: usize = 0;
    while i < a.len()
        invariant
            a.len() == b.len(),
            i <= a.len(),
            vecs_view(a@).take(i as int) == vecs_view(b@).take(i as int),
        decreases a.len() - i,
    {
        if !chars_eq(&a[i], &b[i]) {
            assert(vecs_view(a@)[i as int] != vecs_view(b@)[i as int]);
            return false;
        }
        assert(vecs_view(a@).take(i as int + 1) == vecs_view(a@).take(i as int).push(
            vecs_view(a@)[i as int],
        ));
        assert(vecs_view(b@).take(i as int + 1) == vecs_view(b@).take(i as int).push(
            vecs_view(b@)[i as int],
        ));
        i += 1;
    }
    assert(vecs_view(a@).take(a.len() as int) == vecs_view(a@));
    assert(vecs_view(b@).take(b.len() as int) == vecs_view(b@));
    true
}

/// `Path::starts_with` on already split paths.
pub fn texts_start_with(p: &Vec<Vec<char>>, base: &Vec<Vec<char>>) -> (r: bool)
    ensures
        r == (vecs_view(base@).len() <= vecs_view(p@).len() && vecs_view(p@).take(
            vecs_view(base@).len() as int,
        ) == vecs_view(base@)),
{
    if base.len() > p.len() {
        return false;
    }
    let mut i: usize = 0;
    while i < base.len()
        invariant
            base.len() <= p.len(),
            i <= base.len(),
            vecs_view(p@).take(i as int) == vecs_view(base@).take(i as int),
        decreases base.len() - i,
    {
        if !chars_eq(&p[i], &base[i]) {
            assert(vecs_view(p@).take(base.len() as int)[i as int] != vecs_view(base@)[i as int]);
            return false;
        }
        assert(vecs_view(p@).take(i as int + 1) == vecs_view(p@).take(i as int).push(
            vecs_view(p@)[i as int],
        ));
        assert(vecs_view(base@).take(i as int + 1) == vecs_view(base@).take(i as int).push(
            vecs_view(base@)[i as int],
        ));
        i += 1;
    }
    assert(vecs_view(base@).take(base.len() as int) == vecs_view(base@));
    true
}

/// `p.starts_with(base)` for two paths.
pub fn path_starts_with_exec(p: &str, base: &str) -> (r: bool)
    ensures
        r == path_starts_with(p@, base@),
{
    let pv = chars_of(p);
    let bv = chars_of(base);
    let pt = path_texts(&pv);
    let bt = path_texts(&bv);
    texts_start_with(&pt, &bt)
}

/// `p == q` for two paths (component-wise).
pub fn same_path_exec(p: &str, q: &str) -> (r: bool)
    ensures
        r == same_path(p@, q@),
{
    let pv = chars_of(p);
    let qv = chars_of(q);
    let pt = path_texts(&pv);
    let qt = path_texts(&qv);
    texts_eq(&pt, &qt)
}

// ---------------------------------------------------------------------------
// Public rules
// ---------------------------------------------------------------------------

/// Whether `name` is a PDF file name: it ends in `.pdf`, compared without
/// regard to ASCII case.
pub fn is_pdf(name: &str) -> (r: bool)
    ensures
        r == text::ends_with(text::ascii_lower_seq(name@), seq!['.', 'p', 'd', 'f']),
{
    let v = chars_of(name);
    let low = ascii_lower_vec(&v);
    let mut suffix: Vec<char> = Vec::new();
    suffix.push('.');
    suffix.push('p');
    suffix.push('d');
    suffix.push('f');
    assert(suffix@ =~= seq!['.', 'p', 'd', 'f']);
    ends_with_exec(&low, &suffix)
}

/// Whether `name` is hidden: it starts with `.`.
pub fn is_hidden(name: &str) -> (r: bool)
    ensures
        r == (name@.len() > 0 && name@[0] == '.'),
{
    let v = chars_of(name);
    v.len() > 0 && v[0] == '.'
}

/// The last component of `p` when it is a name, else the empty string.
pub fn file_name_of(p: &str) -> (r: String)
    ensures
        r@ == file_name_text(p@),
{
    let v = chars_of(p);
    let t = path_texts(&v);
    if t.len() == 0 {
        return String::new();
    }
    let last = &t[t.len() - 1];
    let dd = last.len() == 2 && last[0] == '.' && last[1] == '.';
    let d = last.len() == 1 && last[0] == '.';
    let sl = last.len() == 1 && last[0] == '/';
    proof {
        let l = vecs_view(t@).last();
        assert(l == last@);
        if last.len() == 2 {
            if l == seq!['.', '.'] {
                assert(l[0] == '.' && l[1] == '.');
            }
            if last[0] == '.' && last[1] == '.' {
                assert(l =~= seq!['.', '.']);
            }
        }
        if last.len() == 1 {
            if l == seq!['.'] || l == seq!['/'] {
                assert(l[0] == last[0]);
            }
            if last[0] == '.' {
                assert(l =~= seq!['.']);
            }
            if last[0] == '/' {
                assert(l =~= seq!['/']);
            }
        }
        if l == seq!['.', '.'] {
            assert(l.len() == 2);
        }
        if l == seq!['.'] || l == seq!['/'] {
            assert(l.len() == 1);
        }
    }
    if dd || d || sl {
        String::new()
    } else {
        string_of(last)
    }
}

/// The root that `p` lies in: the first of `roots` such that `p` equals it or
/// starts with it.
pub fn root_of(p: &str, roots: &Vec<String>) -> (r: Option<String>)
    ensures
        r matches Some(x) ==> root_of_spec(p@, strs_view(roots@)) == Some(x@),
        r is None ==> root_of_spec(p@, strs_view(roots@)) is None,
{
    let mut i: usize = 0;
    while i < roots.len()
        invariant
            i <= roots.len(),
            first_root_from(p@, strs_view(roots@), 0) == first_root_from(
                p@,
                strs_view(roots@),
                i as int,
            ),
        decreases roots.len() - i,
    {
        let r = &roots[i];
        assert(strs_view(roots@)[i as int] == r@);
        if path_starts_with_exec(p, r.as_str()) {
            return Some(r.clone());
        }
        i += 1;
    }
    None
}

/// The components of `p` below the root it lies in (empty when it lies in
/// none).
pub fn rel_segments(p: &str, roots: &Vec<String>) -> (r: Vec<String>)
    ensures
        strs_view(r@) == rel_segments_spec(p@, strs_view(roots@)),
{
    match root_of(p, roots) {
        Some(root) => {
            let pv = chars_of(p);
            let pt = path_texts(&pv);
            let rv = chars_of(root.as_str());
            let rt = path_texts(&rv);
            proof {
                lemma_first_root_from(p@, strs_view(roots@), 0);
            }
            let mut out: Vec<String> = Vec::new();
            let mut k: usize = rt.len();
            assert(rt.len() <= pt.len());
            while k < pt.len()
                invariant
                    rt.len() <= k <= pt.len(),
                    vecs_view(pt@) == comp_texts(p@),
                    vecs_view(rt@) == comp_texts(root@),
                    strs_view(out@) == vecs_view(pt@).subrange(rt.len() as int, k as int),
                decreases pt.len() - k,
            {
                let s = string_of(&pt[k]);
                let ghost prev = strs_view(out@);
                out.push(s);
                proof {
                    assert(strs_view(out@) == prev.push(s@));
                    assert(vecs_view(pt@).subrange(rt.len() as int, k + 1) == vecs_view(pt@).subrange(
                        rt.len() as int,
                        k as int,
                    ).push(vecs_view(pt@)[k as int]));
                }
                k += 1;
            }
            out
        },
        None => Vec::new(),
    }
}

/// `resolve_in_roots`: a request path is accepted only when it is not empty,
/// names an existing file or directory (`canonical` is the result of
/// resolving it on disk, `None` when that failed) and its resolved form lies
/// inside one of `roots`; the resolved form is returned.
pub fn resolve_in_roots(raw: &str, canonical: Option<String>, roots: &Vec<String>) -> (r: Option<
    String,
>)
    ensures
        raw@.len() == 0 ==> r is None,
        raw@.len() > 0 ==> match canonical {
            None => r is None,
            Some(c) => if within_roots(c@, strs_view(roots@)) {
                r matches Some(x) && x@ == c@
            } else {
                r is None
            },
        },
        r matches Some(x) ==> within_roots(x@, strs_view(roots@)),
{
    let v = chars_of(raw);
    if v.len() == 0 {
        return None;
    }
    match canonical {
        None => None,
        Some(c) => {
            let found = root_of(c.as_str(), roots);
            proof {
                lemma_first_root_from(c@, strs_view(roots@), 0);
            }
            match found {
                Some(_) => Some(c),
                None => None,
            }
        },
    }
}

/// Joins a component onto a path (`PathBuf::join`).
pub fn join_path(base: &Vec<char>, seg: &Vec<char>) -> (r: Vec<char>)
    ensures
        r@ == path_join(base@, seg@),
{
    if seg.len() > 0 && seg[0] == '/' {
        return seg.clone();
    }
    let mut out = base.clone();
    if base.len() > 0 && base[base.len() - 1] != '/' {
        out.push('/');
    }
    let mut i: usize = 0;
    let ghost start = out@;
    while i < seg.len()
        invariant
            i <= seg.len(),
            out@ == start + seg@.take(i as int),
        decreases seg.len() - i,
    {
        out.push(seg[i]);
        assert(seg@.take(i as int + 1) == seg@.take(i as int).push(seg@[i as int]));
        i += 1;
    }
    assert(seg@.take(seg.len() as int) == seg@);
    out
}

} // verus!
