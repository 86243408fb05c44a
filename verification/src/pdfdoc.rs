//! Where rendered pages and document facts are cached on disk, and the
//! in-memory cache of the open document with its idle expiry.

use vstd::prelude::*;
use crate::text;
use crate::text::{chars_of, push_char, push_str, string_of};
use crate::pathsafe;
use crate::web;

verus! {

/// The resolution pages are rendered at by default.
pub const RENDER_DPI: u32 = 300;

// ---------------------------------------------------------------------------
// Cache locations
// ---------------------------------------------------------------------------

/// The text of `p` below `root` (`Path::strip_prefix`): from the first
/// component after the root's components to the end of the last one.
pub open spec fn rel_text(p: Seq<char>, root: Seq<char>) -> Seq<char> {
    let c = pathsafe::comps(p);
    let k = pathsafe::comps(root).len();
    if k < c.len() {
        p.subrange(c[k as int].0, c.last().1)
    } else {
        seq![]
    }
}

/// Characters that cannot stand in a cache directory name.
pub open spec fn unsafe_in_name(c: char) -> bool {
    c == '/' || c == '\\' || c == ':' || c == '*' || c == '?' || c == '"' || c == '<' || c == '>'
        || c == '|'
}

/// `s` with each unsafe character replaced by `_`.
pub open spec fn sanitize(s: Seq<char>) -> Seq<char> {
    s.map_values(|c: char| if unsafe_in_name(c) {
        '_'
    } else {
        c
    })
}

/// The change signature of a file: modification time (seconds) and length,
/// `0-0` when unknown.
pub open spec fn sig_text(sig: Option<(u64, u64)>) -> Seq<char> {
    match sig {
        Some((mt, len)) => text::dec(mt as nat) + seq!['-'] + text::dec(len as nat),
        None => seq!['0', '-', '0'],
    }
}

/// The cache name of a book: its path below its root (its file name when it
/// is in no root), made safe, then its change signature.
pub open spec fn cache_key_spec(p: Seq<char>, roots: Seq<Seq<char>>, sig: Option<(u64, u64)>) -> Seq<char> {
    let rel = match pathsafe::root_of_spec(p, roots) {
        Some(r) => rel_text(p, r),
        None => pathsafe::file_name_text(p),
    };
    sanitize(rel) + seq!['.'] + sig_text(sig)
}

/// `cache_key`: the stable, readable cache directory name of a book; a
/// replaced book (other time or length) gets another name.
pub fn cache_key(pdf_path: &str, roots: &Vec<String>, sig: Option<(u64, u64)>) -> (r: String)
    ensures
        r@ == cache_key_spec(pdf_path@, pathsafe::strs_view(roots@), sig),
{
    let pv = chars_of(pdf_path);
    let rel: Vec<char> = match pathsafe::root_of(pdf_path, roots) {
        Some(root) => {
            let c = pathsafe::path_comps(&pv);
            let rv = chars_of(root.as_str());
            let rc = pathsafe::path_comps(&rv);
            let k = rc.len();
            if k < c.len() {
                let a = c[k].0;
                let b = c[c.len() - 1].1;
                proof {
                    assert(pathsafe::spans_view(c@)[k as int] == (a as int, c@[k as int].1 as int));
                    assert(pathsafe::spans_view(c@).last() == (c@[c.len() - 1].0 as int, b as int));
                }
                if a <= b {
                    text::copy_range(&pv, a, b)
                } else {
                    proof {
                        lemma_comp_order(pv@, k as int);
                    }
                    Vec::new()
                }
            } else {
                Vec::new()
            }
        },
        None => {
            let n = pathsafe::file_name_of(pdf_path);
            chars_of(n.as_str())
        },
    };
    let mut out = String::new();
    let mut i: usize = 0;
    while i < rel.len()
        invariant
            i <= rel.len(),
            out@ == sanitize(rel@.take(i as int)),
        decreases rel.len() - i,
    {
        let c = rel[i];
        let u = c == '/' || c == '\\' || c == ':' || c == '*' || c == '?' || c == '"' || c == '<'
            || c == '>' || c == '|';
        push_char(&mut out, if u { '_' } else { c });
        assert(rel@.take(i + 1) =~= rel@.take(i as int).push(c));
        assert(out@ =~= sanitize(rel@.take(i + 1)));
        i += 1;
    }
    assert(rel@.take(rel.len() as int) =~= rel@);
    push_char(&mut out, '.');
    match sig {
        Some((mt, len)) => {
            text::push_dec(&mut out, mt);
            push_char(&mut out, '-');
            text::push_dec(&mut out, len);
        },
        None => {
            push_str(&mut out, "0-0");
            proof {
                reveal_strlit("0-0");
            }
        },
    }
    assert(out@ =~= cache_key_spec(pdf_path@, pathsafe::strs_view(roots@), sig));
    out
}

/// Later components start after earlier ones end.
proof fn lemma_comp_order(p: Seq<char>, k: int)
    requires
        0 <= k < pathsafe::comps(p).len(),
    ensures
        pathsafe::comps(p)[k].0 <= pathsafe::comps(p).last().1,
{
    lemma_spans_ordered(p);
}

/// The component spans are ordered and within the text.
proof fn lemma_spans_ordered(p: Seq<char>)
    ensures
        forall|i: int, j: int|
            0 <= i <= j < pathsafe::comps(p).len() ==> (#[trigger] pathsafe::comps(p)[i]).0
                <= (#[trigger] pathsafe::comps(p)[j]).1,
{
    lemma_pieces_ordered(p, 0);
    let c = pathsafe::comps(p);
    if p.len() > 0 && p[0] == '/' {
        let q = pathsafe::pieces_from(p, 0);
        assert forall|i: int, j: int| 0 <= i <= j < c.len() implies (#[trigger] c[i]).0 <= (#[trigger] c[j]).1 by {
            if i == 0 {
                if j > 0 {
                    assert(c[j] == q[j - 1]);
                }
            } else {
                assert(c[i] == q[i - 1] && c[j] == q[j - 1]);
            }
        }
    }
}

proof fn lemma_pieces_ordered(p: Seq<char>, i: int)
    requires
        0 <= i,
    ensures
        forall|a: int| 0 <= a < pathsafe::pieces_from(p, i).len() ==> i <= (
        #[trigger] pathsafe::pieces_from(p, i)[a]).0 <= pathsafe::pieces_from(p, i)[a].1,
        forall|a: int, b: int|
            0 <= a <= b < pathsafe::pieces_from(p, i).len() ==> (
            #[trigger] pathsafe::pieces_from(p, i)[a]).0 <= (
            #[trigger] pathsafe::pieces_from(p, i)[b]).1,
    decreases p.len() + 1 - i,
{
    if i <= p.len() {
        let e = pathsafe::next_sep(p, i);
        pathsafe::lemma_next_sep(p, i);
        if e < p.len() {
            lemma_pieces_ordered(p, e + 1);
        }
        let rest = if e < p.len() {
            pathsafe::pieces_from(p, e + 1)
        } else {
            seq![]
        };
        let keep = e > i && (p.subrange(i, e) != seq!['.'] || i == 0);
        let all = pathsafe::pieces_from(p, i);
        if keep {
            assert(all == seq![(i, e)] + rest);
            assert forall|a: int| 0 <= a < all.len() implies i <= (#[trigger] all[a]).0 <= all[a].1 by {
                if a > 0 {
                    assert(all[a] == rest[a - 1]);
                }
            }
            assert forall|a: int, b: int| 0 <= a <= b < all.len() implies (#[trigger] all[a]).0 <= (#[trigger] all[b]).1 by {
                if a == 0 {
                    if b > 0 {
                        assert(all[b] == rest[b - 1]);
                    }
                } else {
                    assert(all[a] == rest[a - 1] && all[b] == rest[b - 1]);
                }
            }
        } else {
            assert(all == rest);
        }
    }
}

/// The cache directory of a book: a hidden directory in its root, or `cache`
/// under the data directory when it is in no root.
pub open spec fn cache_root_spec(p: Seq<char>, roots: Seq<Seq<char>>, data_dir: Seq<char>) -> Seq<char> {
    match pathsafe::root_of_spec(p, roots) {
        Some(r) => pathsafe::path_join(r, ".pdfreader-cache"@),
        None => pathsafe::path_join(data_dir, "cache"@),
    }
}

/// `cache_root`: the cache directory for a book.
pub fn cache_root(pdf_path: &str, roots: &Vec<String>, data_dir: &str) -> (r: String)
    ensures
        r@ == cache_root_spec(pdf_path@, pathsafe::strs_view(roots@), data_dir@),
{
    match pathsafe::root_of(pdf_path, roots) {
        Some(r) => join_str(r.as_str(), ".pdfreader-cache"),
        None => join_str(data_dir, "cache"),
    }
}

/// `PathBuf::join` on strings.
pub fn join_str(base: &str, seg: &str) -> (r: String)
    ensures
        r@ == pathsafe::path_join(base@, seg@),
{
    let b = chars_of(base);
    let s = chars_of(seg);
    let j = pathsafe::join_path(&b, &s);
    string_of(&j)
}

/// The cached image of page `page1` (counted from 1) at `dpi`.
pub open spec fn image_cache_path_spec(
    p: Seq<char>,
    page1: usize,
    dpi: u32,
    roots: Seq<Seq<char>>,
    data_dir: Seq<char>,
    sig: Option<(u64, u64)>,
) -> Seq<char> {
    pathsafe::path_join(
        pathsafe::path_join(
            pathsafe::path_join(cache_root_spec(p, roots, data_dir), cache_key_spec(p, roots, sig)),
            text::dec(dpi as nat),
        ),
        "page-"@ + text::dec(page1 as nat) + ".jpg"@,
    )
}

/// `image_cache_path`: `{cache root}/{key}/{dpi}/page-N.jpg`.
pub fn image_cache_path(
    pdf_path: &str,
    page1: usize,
    dpi: u32,
    roots: &Vec<String>,
    data_dir: &str,
    sig: Option<(u64, u64)>,
) -> (r: String)
    ensures
        r@ == image_cache_path_spec(pdf_path@, page1, dpi, pathsafe::strs_view(roots@), data_dir@, sig),
{
    let root = cache_root(pdf_path, roots, data_dir);
    let key = cache_key(pdf_path, roots, sig);
    let a = join_str(root.as_str(), key.as_str());
    let mut d = String::new();
    text::push_dec(&mut d, dpi as u64);
    assert(d@ =~= text::dec(dpi as nat));
    let b = join_str(a.as_str(), d.as_str());
    let mut f = "page-".to_owned();
    text::push_dec(&mut f, page1 as u64);
    push_str(&mut f, ".jpg");
    join_str(b.as_str(), f.as_str())
}

/// `meta_cache_path`: `{cache root}/{key}/meta.json`.
pub fn meta_cache_path(pdf_path: &str, roots: &Vec<String>, data_dir: &str, sig: Option<(u64, u64)>) -> (r: String)
    ensures
        r@ == pathsafe::path_join(
            pathsafe::path_join(
                cache_root_spec(pdf_path@, pathsafe::strs_view(roots@), data_dir@),
                cache_key_spec(pdf_path@, pathsafe::strs_view(roots@), sig),
            ),
            "meta.json"@,
        ),
{
    let root = cache_root(pdf_path, roots, data_dir);
    let key = cache_key(pdf_path, roots, sig);
    let a = join_str(root.as_str(), key.as_str());
    join_str(a.as_str(), "meta.json")
}

/// The cached facts of a document, with its page size already written as
/// text.
pub open spec fn doc_meta_json_spec(page_count: usize, width: Seq<char>, height: Seq<char>) -> Seq<char> {
    "{\"pageCount\":"@ + text::dec(page_count as nat) + ",\"width\":"@ + width + ",\"height\":"@
        + height + seq!['}']
}

/// `DocMeta::to_json` around the page size: page count, width, height.
pub fn doc_meta_json(page_count: usize, width: &str, height: &str) -> (r: String)
    ensures
        r@ == doc_meta_json_spec(page_count, width@, height@),
{
    let mut o = "{\"pageCount\":".to_owned();
    text::push_dec(&mut o, page_count as u64);
    push_str(&mut o, ",\"width\":");
    push_str(&mut o, width);
    push_str(&mut o, ",\"height\":");
    push_str(&mut o, height);
    push_char(&mut o, '}');
    assert(o@ =~= doc_meta_json_spec(page_count, width@, height@));
    o
}

// ---------------------------------------------------------------------------
// The open document
// ---------------------------------------------------------------------------

/// An open document and when it was last used (nanoseconds of a monotonic
/// clock).
pub struct CachedDoc<D> {
    pub path: String,
    pub doc: D,
    pub last_used: u64,
}

/// The cache of the one open document.
pub struct DocCache<D> {
    pub slot: Option<CachedDoc<D>>,
}

impl<D> DocCache<D> {
    /// An empty cache.
    pub fn new() -> (c: Self)
        ensures
            c.slot is None,
    {
        DocCache { slot: None }
    }

    /// Whether the cached document is `path`; if so it is marked as used at
    /// `now`.
    pub fn touch(&mut self, path: &str, now: u64) -> (hit: bool)
        ensures
            hit == (old(self).slot matches Some(c) && pathsafe::same_path(c.path@, path@)),
            hit ==> (final(self).slot matches Some(c) && old(self).slot matches Some(o) && c.path
                == o.path && c.doc == o.doc && c.last_used == now),
            !hit ==> *final(self) == *old(self),
    {
        match &mut self.slot {
            Some(c) => {
                if pathsafe::same_path_exec(c.path.as_str(), path) {
                    c.last_used = now;
                    true
                } else {
                    false
                }
            },
            None => false,
        }
    }

    /// The cached document, if any.
    pub fn doc(&self) -> (r: Option<&D>)
        ensures
            match self.slot {
                Some(c) => r == Some(&c.doc),
                None => r is None,
            },
    {
        match &self.slot {
            Some(c) => Some(&c.doc),
            None => None,
        }
    }

    /// Caches a newly opened document, replacing the previous one.
    pub fn store(&mut self, path: String, doc: D, now: u64)
        ensures
            final(self).slot matches Some(c) && c.path == path && c.doc == doc && c.last_used
                == now,
    {
        self.slot = Some(CachedDoc { path, doc, last_used: now });
    }

    /// The idle check of the reaper: when the cached document has not been
    /// used for more than `idle` whole seconds at `now`, it is dropped and
    /// its path returned.
    pub fn expire(&mut self, now: u64, idle: u64) -> (r: Option<String>)
        ensures
            match old(self).slot {
                Some(c) => if idle_secs(c.last_used, now) > idle {
                    final(self).slot is None && r == Some(c.path)
                } else {
                    r is None && *final(self) == *old(self)
                },
                None => r is None && *final(self) == *old(self),
            },
    {
        let expired = match &self.slot {
            Some(c) => now.saturating_sub(c.last_used) / 1_000_000_000 > idle,
            None => false,
        };
        if expired {
            match self.slot.take() {
                Some(c) => Some(c.path),
                None => None,
            }
        } else {
            None
        }
    }
}

/// `clear_doc_cache`: drops the cached document.
pub fn clear_doc_cache<D>(cache: &mut DocCache<D>)
    ensures
        final(cache).slot is None,
{
    cache.slot = None;
}

/// Whole seconds between `last` and `now` (zero when `now` is earlier).
pub open spec fn idle_secs(last: u64, now: u64) -> int {
    if now >= last {
        (now - last) / 1_000_000_000
    } else {
        0
    }
}

/// `doc_idle_secs`: the idle timeout from `PDFR_DOC_IDLE_SECS` (trimmed)
/// when it is a number, else 120 seconds.
pub fn doc_idle_secs(setting: Option<String>) -> (r: u64)
    ensures
        r == match setting {
            Some(s) => match web::parse_uint(text::trim(s@), u64::MAX as nat) {
                Some(n) => n as u64,
                None => 120,
            },
            None => 120,
        },
{
    match setting {
        Some(s) => {
            let t = text::trim_string(s.as_str());
            match web::parse_uint_exec(t.as_str(), u64::MAX) {
                Some(n) => n,
                None => 120,
            }
        },
        None => 120,
    }
}

/// How often the reaper looks: half the idle timeout, at least 2 seconds.
pub fn reaper_interval(idle: u64) -> (r: u64)
    ensures
        r == (if idle / 2 > 2 {
            idle / 2
        } else {
            2
        }),
{
    if idle / 2 > 2 {
        idle / 2
    } else {
        2
    }
}

/// Books whose change signature differs get different cache names.
pub proof fn lemma_cache_key_changes(p: Seq<char>, roots: Seq<Seq<char>>, a: (u64, u64), b: (u64, u64))
    requires
        a != b,
    ensures
        cache_key_spec(p, roots, Some(a)) != cache_key_spec(p, roots, Some(b)),
{
    let rel = match pathsafe::root_of_spec(p, roots) {
        Some(r) => rel_text(p, r),
        None => pathsafe::file_name_text(p),
    };
    let pre = sanitize(rel) + seq!['.'];
    let x = sig_text(Some(a));
    let y = sig_text(Some(b));
    assert(cache_key_spec(p, roots, Some(a)) == pre + x);
    assert(cache_key_spec(p, roots, Some(b)) == pre + y);
    lemma_sig_injective(a, b);
    if pre + x == pre + y {
        assert(x =~= (pre + x).skip(pre.len() as int));
        assert(y =~= (pre + y).skip(pre.len() as int));
    }
}

/// Different signatures have different texts.
proof fn lemma_sig_injective(a: (u64, u64), b: (u64, u64))
    requires
        a != b,
    ensures
        sig_text(Some(a)) != sig_text(Some(b)),
{
    let da = text::dec(a.0 as nat);
    let db = text::dec(b.0 as nat);
    text::lemma_dec_digits(a.0 as nat);
    text::lemma_dec_digits(b.0 as nat);
    text::lemma_dec_digits(a.1 as nat);
    text::lemma_dec_digits(b.1 as nat);
    let x = sig_text(Some(a));
    let y = sig_text(Some(b));
    if x == y {
        // The first `-` ends the time in both texts.
        if da.len() < db.len() {
            assert(x[da.len() as int] == '-');
            assert(y[da.len() as int] == db[da.len() as int]);
        } else if db.len() < da.len() {
            assert(y[db.len() as int] == '-');
            assert(x[db.len() as int] == da[db.len() as int]);
        } else {
            assert(da =~= x.take(da.len() as int));
            assert(db =~= y.take(db.len() as int));
            text::lemma_dec_injective(a.0 as nat, b.0 as nat);
            assert(text::dec(a.1 as nat) =~= x.skip(da.len() as int + 1));
            assert(text::dec(b.1 as nat) =~= y.skip(db.len() as int + 1));
            text::lemma_dec_injective(a.1 as nat, b.1 as nat);
        }
    }
}

} // verus!
