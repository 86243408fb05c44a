//! The HTTP side of the service as far as it computes: who the user is,
//! query strings, request parameters, static file names and types, and the
//! JSON bodies of the answers.

use vstd::prelude::*;
use crate::text;
use crate::text::{chars_of, push_char, push_str, string_of};
use crate::jsontext;
use crate::jsontext::esc;
use crate::pathsafe;
use crate::library::Entry;
use crate::digits;

verus! {

// ---------------------------------------------------------------------------
// The user
// ---------------------------------------------------------------------------

/// The user a request is made for, as the gateway reports it.
pub struct User {
    pub uid: String,
    pub username: String,
    pub is_admin: bool,
}

/// `get_user`: the user from the gateway's headers (`None` for a header
/// that is missing or not visible ASCII). Without a user id the request is
/// refused when authentication is required, else served as `debug`; the
/// user name defaults to the id; only `true` makes an administrator.
pub fn get_user(
    uid: Option<String>,
    is_admin: Option<String>,
    username: Option<String>,
    require_auth: bool,
) -> (r: Option<User>)
    ensures
        require_auth && uid is None ==> r is None,
        !(require_auth && uid is None) ==> (r matches Some(u) && u.uid@ == (match uid {
            Some(x) => x@,
            None => "debug"@,
        }) && u.username@ == (match username {
            Some(x) => x@,
            None => u.uid@,
        }) && u.is_admin == (match is_admin {
            Some(x) => x@ == "true"@,
            None => false,
        })),
{
    let admin = match &is_admin {
        Some(x) => text::str_eq(x.as_str(), "true"),
        None => false,
    };
    if require_auth && uid.is_none() {
        return None;
    }
    let uid = match uid {
        Some(x) => x,
        None => "debug".to_owned(),
    };
    let username = match username {
        Some(x) => x,
        None => uid.clone(),
    };
    Some(User { uid, username, is_admin: admin })
}

// ---------------------------------------------------------------------------
// JSON pieces
// ---------------------------------------------------------------------------

/// `json_esc`: escapes text for a JSON string.
pub fn json_esc(s: &str) -> (r: String)
    ensures
        r@ == jsontext::esc_spec(s@),
{
    esc(s)
}

/// A JSON string literal holding `s`.
pub open spec fn quoted(s: Seq<char>) -> Seq<char> {
    seq!['"'] + jsontext::esc_spec(s) + seq!['"']
}

/// The items of a JSON array: each text, separated by commas.
pub open spec fn joined(items: Seq<Seq<char>>) -> Seq<char>
    decreases items.len(),
{
    if items.len() == 0 {
        seq![]
    } else if items.len() == 1 {
        items[0]
    } else {
        joined(items.drop_last()) + seq![','] + items.last()
    }
}

/// Appends a JSON string literal holding `s`.
fn push_quoted(out: &mut String, s: &str)
    ensures
        final(out)@ == old(out)@ + quoted(s@),
{
    let ghost o0 = out@;
    push_char(out, '"');
    let e = esc(s);
    push_str(out, e.as_str());
    push_char(out, '"');
    assert(out@ =~= o0 + quoted(s@));
}

/// The views of a vector of strings.
pub open spec fn strs(v: Seq<String>) -> Seq<Seq<char>> {
    v.map_values(|x: String| x@)
}

/// Appends the texts of `items` separated by commas.
fn push_joined(out: &mut String, items: &Vec<String>)
    ensures
        final(out)@ == old(out)@ + joined(strs(items@)),
{
    let ghost o0 = out@;
    let ghost iv = strs(items@);
    let mut i: usize = 0;
    assert(joined(iv.take(0)) =~= Seq::<char>::empty());
    while i < items.len()
        invariant
            i <= items.len(),
            iv == strs(items@),
            out@ == o0 + joined(iv.take(i as int)),
        decreases items.len() - i,
    {
        if i > 0 {
            push_char(out, ',');
        }
        push_str(out, items[i].as_str());
        proof {
            let t = iv.take(i + 1);
            assert(t.drop_last() =~= iv.take(i as int));
            assert(t.last() == items@[i as int]@);
            if i == 0 {
                assert(t.len() == 1);
                assert(out@ =~= o0 + joined(t));
            } else {
                assert(out@ =~= o0 + joined(t));
            }
        }
        i += 1;
    }
    assert(iv.take(items.len() as int) =~= iv);
}

/// JSON string literals of each text.
pub open spec fn quoted_all(v: Seq<Seq<char>>) -> Seq<Seq<char>> {
    v.map_values(|x: Seq<char>| quoted(x))
}

/// The JSON string literals of `v`.
fn quote_all(v: &Vec<String>) -> (r: Vec<String>)
    ensures
        strs(r@) == quoted_all(strs(v@)),
{
    let mut out: Vec<String> = Vec::new();
    let mut i: usize = 0;
    while i < v.len()
        invariant
            i <= v.len(),
            strs(out@) == quoted_all(strs(v@).take(i as int)),
        decreases v.len() - i,
    {
        let mut q = String::new();
        push_quoted(&mut q, v[i].as_str());
        let ghost before = strs(out@);
        out.push(q);
        proof {
            assert(strs(out@) =~= before.push(quoted(v@[i as int]@)));
            assert(strs(v@).take(i + 1) =~= strs(v@).take(i as int).push(v@[i as int]@));
            assert(quoted_all(strs(v@).take(i + 1)) =~= quoted_all(strs(v@).take(i as int)).push(
                quoted(v@[i as int]@),
            ));
        }
        i += 1;
    }
    assert(strs(v@).take(v.len() as int) =~= strs(v@));
    out
}

/// Appends `true` or `false`.
fn push_bool(out: &mut String, b: bool)
    ensures
        final(out)@ == old(out)@ + (if b {
            "true"@
        } else {
            "false"@
        }),
{
    if b {
        push_str(out, "true");
    } else {
        push_str(out, "false");
    }
}

/// The answer to `/api/me`.
pub open spec fn me_json_spec(u: User) -> Seq<char> {
    "{\"uid\":"@ + quoted(u.uid@) + ",\"username\":"@ + quoted(u.username@) + ",\"isAdmin\":"@ + (
    if u.is_admin {
        "true"@
    } else {
        "false"@
    }) + seq!['}']
}

/// `handle_me`'s body: the user's id, name and whether they administer.
pub fn me_json(u: &User) -> (r: String)
    ensures
        r@ == me_json_spec(*u),
{
    let mut o = "{\"uid\":".to_owned();
    push_quoted(&mut o, u.uid.as_str());
    push_str(&mut o, ",\"username\":");
    push_quoted(&mut o, u.username.as_str());
    push_str(&mut o, ",\"isAdmin\":");
    push_bool(&mut o, u.is_admin);
    push_char(&mut o, '}');
    assert(o@ =~= me_json_spec(*u));
    o
}

/// One listed item in JSON, with the path components below its root and,
/// when known, its reading progress (`progress` already in JSON).
pub open spec fn entry_json_spec(
    e: crate::library::EntryView,
    segs: Seq<Seq<char>>,
    progress: Option<Seq<char>>,
) -> Seq<char> {
    "{\"name\":"@ + quoted(e.name) + ",\"path\":"@ + quoted(e.path) + ",\"type\":\""@ + e.kind
        + "\",\"size\":"@ + text::dec(e.size as nat) + ",\"mtime\":"@
        + text::dec(e.mtime as nat) + ",\"count\":"@ + text::dec(e.count as nat) + ",\"segments\":["@
        + joined(quoted_all(segs)) + seq![']'] + match progress {
        Some(p) => ",\"progress\":"@ + p,
        None => seq![],
    } + seq!['}']
}

/// `entry_json`: one listed item in JSON; its path components are those
/// below the root it lies in.
pub fn entry_json(e: &Entry, roots: &Vec<String>, progress: Option<String>) -> (r: String)
    ensures
        r@ == entry_json_spec(
            e@,
            pathsafe::rel_segments_spec(e.path@, pathsafe::strs_view(roots@)),
            match progress {
                Some(p) => Some(p@),
                None => None,
            },
        ),
{
    let segs = pathsafe::rel_segments(e.path.as_str(), roots);
    let q = quote_all(&segs);
    let mut o = "{\"name\":".to_owned();
    push_quoted(&mut o, e.name.as_str());
    push_str(&mut o, ",\"path\":");
    push_quoted(&mut o, e.path.as_str());
    push_str(&mut o, ",\"type\":\"");
    push_str(&mut o, e.kind);
    push_str(&mut o, "\",\"size\":");
    text::push_dec(&mut o, e.size);
    push_str(&mut o, ",\"mtime\":");
    text::push_dec(&mut o, e.mtime);
    push_str(&mut o, ",\"count\":");
    text::push_dec(&mut o, e.count as u64);
    push_str(&mut o, ",\"segments\":[");
    push_joined(&mut o, &q);
    push_char(&mut o, ']');
    let ghost before = o@;
    match &progress {
        Some(p) => {
            push_str(&mut o, ",\"progress\":");
            push_str(&mut o, p.as_str());
        },
        None => {},
    }
    push_char(&mut o, '}');
    proof {
        assert(o@ =~= entry_json_spec(
            e@,
            pathsafe::rel_segments_spec(e.path@, pathsafe::strs_view(roots@)),
            match progress {
                Some(p) => Some(p@),
                None => None,
            },
        ));
    }
    o
}

/// One breadcrumb level in JSON.
pub open spec fn crumb_json(c: (Seq<char>, Seq<char>)) -> Seq<char> {
    "{\"name\":"@ + quoted(c.0) + ",\"path\":"@ + quoted(c.1) + seq!['}']
}

/// The answer to `/api/list`.
pub open spec fn list_json_spec(
    path: Seq<char>,
    crumbs: Seq<(Seq<char>, Seq<char>)>,
    items: Seq<Seq<char>>,
    username: Seq<char>,
) -> Seq<char> {
    "{\"path\":"@ + quoted(path) + ",\"breadcrumb\":["@ + joined(
        crumbs.map_values(|c: (Seq<char>, Seq<char>)| crumb_json(c)),
    ) + "],\"items\":["@ + joined(items) + "],\"count\":"@ + text::dec(items.len()) + ",\"username\":"@
        + quoted(username) + seq!['}']
}

/// `list_body`'s answer: the directory shown, its breadcrumb, its items (each
/// already in JSON), how many there are, and the user's name.
pub fn list_json(
    path: &str,
    crumbs: &Vec<(String, String)>,
    items: &Vec<String>,
    username: &str,
) -> (r: String)
    ensures
        r@ == list_json_spec(path@, jsontext::pairs_view(crumbs@), strs(items@), username@),
{
    let mut cj: Vec<String> = Vec::new();
    let mut i: usize = 0;
    let ghost cv = jsontext::pairs_view(crumbs@);
    while i < crumbs.len()
        invariant
            i <= crumbs.len(),
            cv == jsontext::pairs_view(crumbs@),
            strs(cj@) == cv.take(i as int).map_values(|c: (Seq<char>, Seq<char>)| crumb_json(c)),
        decreases crumbs.len() - i,
    {
        let mut c = "{\"name\":".to_owned();
        push_quoted(&mut c, crumbs[i].0.as_str());
        push_str(&mut c, ",\"path\":");
        push_quoted(&mut c, crumbs[i].1.as_str());
        push_char(&mut c, '}');
        let ghost before = strs(cj@);
        proof {
            assert(c@ =~= crumb_json(cv[i as int]));
        }
        cj.push(c);
        proof {
            assert(strs(cj@) =~= before.push(crumb_json(cv[i as int])));
            assert(cv.take(i + 1) =~= cv.take(i as int).push(cv[i as int]));
            assert(cv.take(i + 1).map_values(|c: (Seq<char>, Seq<char>)| crumb_json(c)) =~= cv.take(
                i as int,
            ).map_values(|c: (Seq<char>, Seq<char>)| crumb_json(c)).push(crumb_json(cv[i as int])));
        }
        i += 1;
    }
    assert(cv.take(crumbs.len() as int) =~= cv);
    let mut o = "{\"path\":".to_owned();
    push_quoted(&mut o, path);
    push_str(&mut o, ",\"breadcrumb\":[");
    push_joined(&mut o, &cj);
    push_str(&mut o, "],\"items\":[");
    push_joined(&mut o, items);
    push_str(&mut o, "],\"count\":");
    text::push_dec(&mut o, items.len() as u64);
    push_str(&mut o, ",\"username\":");
    push_quoted(&mut o, username);
    push_char(&mut o, '}');
    assert(o@ =~= list_json_spec(path@, cv, strs(items@), username@));
    o
}

/// One recently read book in JSON (`progress` already in JSON).
pub open spec fn recent_item_spec(path: Seq<char>, segs: Seq<Seq<char>>, progress: Seq<char>) -> Seq<char> {
    "{\"name\":"@ + quoted(pathsafe::file_name_text(path)) + ",\"path\":"@ + quoted(path)
        + ",\"segments\":["@ + joined(quoted_all(segs)) + "],\"progress\":"@ + progress + seq!['}']
}

/// One item of `recent_body`: the book's file name, path, components below
/// its root and progress.
pub fn recent_item_json(path: &str, roots: &Vec<String>, progress: &str) -> (r: String)
    ensures
        r@ == recent_item_spec(
            path@,
            pathsafe::rel_segments_spec(path@, pathsafe::strs_view(roots@)),
            progress@,
        ),
{
    let segs = pathsafe::rel_segments(path, roots);
    let q = quote_all(&segs);
    let name = pathsafe::file_name_of(path);
    let mut o = "{\"name\":".to_owned();
    push_quoted(&mut o, name.as_str());
    push_str(&mut o, ",\"path\":");
    push_quoted(&mut o, path);
    push_str(&mut o, ",\"segments\":[");
    push_joined(&mut o, &q);
    push_str(&mut o, "],\"progress\":");
    push_str(&mut o, progress);
    push_char(&mut o, '}');
    assert(o@ =~= recent_item_spec(
        path@,
        pathsafe::rel_segments_spec(path@, pathsafe::strs_view(roots@)),
        progress@,
    ));
    o
}

/// `recent_body`'s answer around its items (each already in JSON).
pub fn recent_json(items: &Vec<String>) -> (r: String)
    ensures
        r@ == "{\"items\":["@ + joined(strs(items@)) + "]}"@,
{
    let mut o = "{\"items\":[".to_owned();
    push_joined(&mut o, items);
    push_str(&mut o, "]}");
    o
}

/// `progress_get`: the stored progress of a book (`progress` already in
/// JSON), or `null` when there is none.
pub fn progress_get(key: &str, progress: Option<String>) -> (r: String)
    ensures
        r@ == "{\"path\":"@ + quoted(key@) + ",\"progress\":"@ + match progress {
            Some(p) => p@,
            None => "null"@,
        } + seq!['}'],
{
    let mut o = "{\"path\":".to_owned();
    push_quoted(&mut o, key);
    push_str(&mut o, ",\"progress\":");
    match &progress {
        Some(p) => push_str(&mut o, p.as_str()),
        None => push_str(&mut o, "null"),
    }
    let ghost before = o@;
    push_char(&mut o, '}');
    assert(o@ =~= before + seq!['}']);
    o
}

/// `progress_post`: the answer to a saved progress (`progress` already in
/// JSON).
pub fn progress_post(progress: &str) -> (r: String)
    ensures
        r@ == "{\"ok\":true,\"progress\":"@ + progress@ + seq!['}'],
{
    let mut o = "{\"ok\":true,\"progress\":".to_owned();
    push_str(&mut o, progress);
    let ghost before = o@;
    push_char(&mut o, '}');
    assert(o@ =~= before + seq!['}']);
    o
}

/// The answer to `/api/meta` (page size already written as text).
pub open spec fn meta_json_spec(path: Seq<char>, page_count: usize, width: Seq<char>, height: Seq<char>) -> Seq<
    char,
> {
    "{\"path\":"@ + quoted(path) + ",\"name\":"@ + quoted(pathsafe::file_name_text(path))
        + ",\"pageCount\":"@ + text::dec(page_count as nat) + ",\"width\":"@ + width
        + ",\"height\":"@ + height + seq!['}']
}

/// `meta_body`'s answer: the book's path and file name, its page count and
/// the size of its first page.
pub fn meta_json(path: &str, page_count: usize, width: &str, height: &str) -> (r: String)
    ensures
        r@ == meta_json_spec(path@, page_count, width@, height@),
{
    let name = pathsafe::file_name_of(path);
    let mut o = "{\"path\":".to_owned();
    push_quoted(&mut o, path);
    push_str(&mut o, ",\"name\":");
    push_quoted(&mut o, name.as_str());
    push_str(&mut o, ",\"pageCount\":");
    text::push_dec(&mut o, page_count as u64);
    push_str(&mut o, ",\"width\":");
    push_str(&mut o, width);
    push_str(&mut o, ",\"height\":");
    push_str(&mut o, height);
    push_char(&mut o, '}');
    assert(o@ =~= meta_json_spec(path@, page_count, width@, height@));
    o
}

/// What a request to `/api/progress` asks for.
pub enum ProgressRequest {
    /// No `path` parameter: refused as a bad request.
    MissingPath,
    /// `GET`: read the stored progress.
    Read,
    /// `POST`: save the posted progress.
    Save,
    /// Any other method: refused as not allowed.
    NotAllowed,
}

/// `handle_progress`'s decision: a request without a path is a bad request
/// whatever its method; with a path, `GET` reads, `POST` saves, and any other
/// method is not allowed.
pub fn progress_request(method: &str, path: &str) -> (r: ProgressRequest)
    ensures
        path@.len() == 0 ==> r is MissingPath,
        path@.len() > 0 && method@ == "GET"@ ==> r is Read,
        path@.len() > 0 && method@ == "POST"@ ==> r is Save,
        path@.len() > 0 && method@ != "GET"@ && method@ != "POST"@ ==> r is NotAllowed,
{
    proof {
        reveal_strlit("GET");
        reveal_strlit("POST");
        assert("GET"@.len() == 3 && "POST"@.len() == 4);
    }
    if chars_of(path).len() == 0 {
        ProgressRequest::MissingPath
    } else if text::str_eq(method, "GET") {
        ProgressRequest::Read
    } else if text::str_eq(method, "POST") {
        ProgressRequest::Save
    } else {
        ProgressRequest::NotAllowed
    }
}

// ---------------------------------------------------------------------------
// Query strings
// ---------------------------------------------------------------------------

/// What `urlencoding::decode` gives for `s`: the percent-decoded text when
/// it is valid UTF-8.
pub uninterp spec fn url_decode_spec(s: Seq<char>) -> Option<Seq<char>>;

/// `urlencoding::decode`: percent-decoding as UTF-8; the result is named
/// `url_decode_spec`. Its source returns the input unchanged when it holds no
/// `%`.
#[verifier::external_body]
fn url_decode(s: &str) -> (r: Option<String>)
    ensures
        crate::config::opt_view(r) == url_decode_spec(s@),
        !s@.contains('%') ==> crate::config::opt_view(r) == Some(s@),
{
    match urlencoding::decode(s) {
        Ok(c) => Some(c.into_owned()),
        Err(_) => None,
    }
}

/// A decoded query text, or the empty text when decoding failed.
pub open spec fn decoded_or_empty(s: Seq<char>) -> Seq<char> {
    match url_decode_spec(s) {
        Some(x) => x,
        None => seq![],
    }
}

/// A query piece split at its first `=` (no `=`: the whole piece and an
/// empty value).
pub open spec fn split_pair(p: Seq<char>) -> (Seq<char>, Seq<char>) {
    match text::find_char_from(p, '=', 0) {
        Some(i) => (p.take(i), p.skip(i + 1)),
        None => (p, seq![]),
    }
}

/// The raw pairs of a query: its `&`-separated non-empty pieces, each split
/// at its first `=`.
pub open spec fn raw_pairs(pieces: Seq<Seq<char>>) -> Seq<(Seq<char>, Seq<char>)>
    decreases pieces.len(),
{
    if pieces.len() == 0 {
        seq![]
    } else if pieces.last().len() == 0 {
        raw_pairs(pieces.drop_last())
    } else {
        raw_pairs(pieces.drop_last()).push(split_pair(pieces.last()))
    }
}

/// Query parameters by name (the last of repeated names wins).
pub struct QueryMap {
    pairs: Vec<(String, String)>,
}

/// The map after inserting each of `ps` in order.
pub open spec fn insert_all(m: Map<Seq<char>, Seq<char>>, ps: Seq<(Seq<char>, Seq<char>)>) -> Map<
    Seq<char>,
    Seq<char>,
>
    decreases ps.len(),
{
    if ps.len() == 0 {
        m
    } else {
        insert_all(m, ps.drop_last()).insert(ps.last().0, ps.last().1)
    }
}

/// The map a list of distinct-key pairs stands for.
pub open spec fn pairs_map(ps: Seq<(Seq<char>, Seq<char>)>) -> Map<Seq<char>, Seq<char>> {
    insert_all(Map::empty(), ps)
}

/// Keys are distinct.
pub open spec fn distinct_keys(ps: Seq<(Seq<char>, Seq<char>)>) -> bool {
    forall|i: int, j: int| 0 <= i < j < ps.len() ==> #[trigger] ps[i].0 != #[trigger] ps[j].0
}

proof fn lemma_pairs_map_at(ps: Seq<(Seq<char>, Seq<char>)>, i: int)
    requires
        distinct_keys(ps),
        0 <= i < ps.len(),
    ensures
        pairs_map(ps).contains_key(ps[i].0),
        pairs_map(ps)[ps[i].0] == ps[i].1,
    decreases ps.len(),
{
    if i < ps.len() - 1 {
        let t = ps.drop_last();
        assert(distinct_keys(t)) by {
            assert forall|a: int, b: int| 0 <= a < b < t.len() implies #[trigger] t[a].0 != #[trigger] t[b].0 by {
                assert(t[a] == ps[a] && t[b] == ps[b]);
            }
        }
        assert(t[i] == ps[i]);
        lemma_pairs_map_at(t, i);
        assert(ps[i].0 != ps.last().0);
    }
}

proof fn lemma_pairs_map_keys(ps: Seq<(Seq<char>, Seq<char>)>, k: Seq<char>)
    ensures
        pairs_map(ps).contains_key(k) <==> exists|i: int| 0 <= i < ps.len() && #[trigger] ps[i].0 == k,
    decreases ps.len(),
{
    if ps.len() > 0 {
        lemma_pairs_map_keys(ps.drop_last(), k);
        if pairs_map(ps).contains_key(k) && ps.last().0 != k {
            let i = choose|i: int| 0 <= i < ps.drop_last().len() && #[trigger] ps.drop_last()[i].0 == k;
            assert(ps[i] == ps.drop_last()[i]);
        }
        if exists|i: int| 0 <= i < ps.len() && #[trigger] ps[i].0 == k {
            let i = choose|i: int| 0 <= i < ps.len() && #[trigger] ps[i].0 == k;
            if i < ps.len() - 1 {
                assert(ps.drop_last()[i] == ps[i]);
            }
        }
    }
}

impl QueryMap {
    /// No name occurs twice.
    #[verifier::type_invariant]
    spec fn keys_distinct(self) -> bool {
        distinct_keys(jsontext::pairs_view(self.pairs@))
    }

    /// The parameters.
    pub closed spec fn map(&self) -> Map<Seq<char>, Seq<char>> {
        pairs_map(jsontext::pairs_view(self.pairs@))
    }

    /// No parameters.
    pub fn new() -> (m: QueryMap)
        ensures
            m.map() == Map::<Seq<char>, Seq<char>>::empty(),
    {
        let pairs: Vec<(String, String)> = Vec::new();
        assert(jsontext::pairs_view(pairs@) =~= Seq::<(Seq<char>, Seq<char>)>::empty());
        QueryMap { pairs }
    }

    /// Where `k` is among `pairs`, if it is.
    fn position(pairs: &Vec<(String, String)>, k: &str) -> (r: Option<usize>)
        ensures
            r matches Some(i) ==> i < pairs.len() && pairs@[i as int].0@ == k@,
            r is None ==> forall|j: int| 0 <= j < pairs.len() ==> #[trigger] pairs@[j].0@ != k@,
    {
        let mut i: usize = 0;
        while i < pairs.len()
            invariant
                i <= pairs.len(),
                forall|j: int| 0 <= j < i ==> #[trigger] pairs@[j].0@ != k@,
            decreases pairs.len() - i,
        {
            if text::str_eq(pairs[i].0.as_str(), k) {
                return Some(i);
            }
            i += 1;
        }
        None
    }

    /// Sets parameter `k` to `v`.
    pub fn insert(&mut self, k: String, v: String)
        ensures
            final(self).map() == old(self).map().insert(k@, v@),
    {
        proof {
            use_type_invariant(&*self);
        }
        let mut pairs: Vec<(String, String)> = Vec::new();
        std::mem::swap(&mut pairs, &mut self.pairs);
        let ghost ps = jsontext::pairs_view(pairs@);
        assert(ps == jsontext::pairs_view(old(self).pairs@));
        match Self::position(&pairs, k.as_str()) {
            Some(i) => {
                let old_key = pairs[i].0.clone();
                pairs.set(i, (old_key, v));
                proof {
                    let r = jsontext::pairs_view(pairs@);
                    assert(ps[i as int].0 == k@);
                    assert(r =~= ps.update(i as int, (k@, v@)));
                    assert(distinct_keys(r)) by {
                        assert forall|a: int, b: int| 0 <= a < b < r.len() implies #[trigger] r[a].0 != #[trigger] r[b].0 by {
                            assert(r[a].0 == ps[a].0 && r[b].0 == ps[b].0);
                        }
                    }
                    lemma_update_map(ps, i as int, k@, v@);
                }
            },
            None => {
                pairs.push((k, v));
                proof {
                    let r = jsontext::pairs_view(pairs@);
                    assert(r =~= ps.push((k@, v@)));
                    assert forall|j: int| 0 <= j < ps.len() implies #[trigger] ps[j].0 != k@ by {
                        assert(ps[j].0 == pairs@[j].0@);
                    }
                    assert(distinct_keys(r)) by {
                        assert forall|a: int, b: int| 0 <= a < b < r.len() implies #[trigger] r[a].0 != #[trigger] r[b].0 by {
                            if b < ps.len() {
                                assert(r[a] == ps[a] && r[b] == ps[b]);
                            } else {
                                assert(r[a] == ps[a]);
                            }
                        }
                    }
                    assert(r.drop_last() =~= ps);
                }
            },
        }
        self.pairs = pairs;
    }

    /// The value of parameter `k`.
    pub fn get(&self, k: &str) -> (r: Option<String>)
        ensures
            r matches Some(v) ==> self.map().contains_key(k@) && self.map()[k@] == v@,
            r is None ==> !self.map().contains_key(k@),
    {
        proof {
            use_type_invariant(self);
        }
        let ghost ps = jsontext::pairs_view(self.pairs@);
        match Self::position(&self.pairs, k) {
            Some(i) => {
                proof {
                    assert(ps[i as int].0 == k@);
                    lemma_pairs_map_at(ps, i as int);
                }
                Some(self.pairs[i].1.clone())
            },
            None => {
                proof {
                    lemma_pairs_map_keys(ps, k@);
                    assert forall|j: int| 0 <= j < ps.len() implies #[trigger] ps[j].0 != k@ by {
                        assert(ps[j].0 == self.pairs@[j].0@);
                    }
                }
                None
            },
        }
    }
}

proof fn lemma_update_map(ps: Seq<(Seq<char>, Seq<char>)>, i: int, k: Seq<char>, v: Seq<char>)
    requires
        distinct_keys(ps),
        0 <= i < ps.len(),
        ps[i].0 == k,
    ensures
        pairs_map(ps.update(i, (k, v))) == pairs_map(ps).insert(k, v),
{
    let r = ps.update(i, (k, v));
    assert(distinct_keys(r)) by {
        assert forall|a: int, b: int| 0 <= a < b < r.len() implies #[trigger] r[a].0 != #[trigger] r[b].0 by {
            assert(r[a].0 == ps[a].0 && r[b].0 == ps[b].0);
        }
    }
    assert forall|key: Seq<char>| #![auto] pairs_map(r).contains_key(key) == pairs_map(ps).insert(k, v).contains_key(key) by {
        lemma_pairs_map_keys(r, key);
        lemma_pairs_map_keys(ps, key);
        if exists|j: int| 0 <= j < ps.len() && #[trigger] ps[j].0 == key {
            let j = choose|j: int| 0 <= j < ps.len() && #[trigger] ps[j].0 == key;
            assert(r[j].0 == key);
        }
        if exists|j: int| 0 <= j < r.len() && #[trigger] r[j].0 == key {
            let j = choose|j: int| 0 <= j < r.len() && #[trigger] r[j].0 == key;
            assert(ps[j].0 == key);
        }
        if key == k {
            assert(r[i].0 == k);
        }
    }
    assert forall|key: Seq<char>| #[trigger] pairs_map(r).contains_key(key) implies pairs_map(r)[key] == pairs_map(ps).insert(k, v)[key] by {
        lemma_pairs_map_keys(r, key);
        let j = choose|j: int| 0 <= j < r.len() && #[trigger] r[j].0 == key;
        lemma_pairs_map_at(r, j);
        if key != k {
            assert(j != i);
            assert(ps[j] == r[j]);
            lemma_pairs_map_at(ps, j);
        }
    }
    assert(pairs_map(r) =~= pairs_map(ps).insert(k, v));
}

/// `query_map`: the parameters of a query string (`None` when the address
/// has none); names and values are percent-decoded, an undecodable one counts
/// as empty; of repeated names the last one wins.
pub fn query_map(query: Option<&str>) -> (r: QueryMap)
    ensures
        r.map() == match query {
            None => Map::<Seq<char>, Seq<char>>::empty(),
            Some(q) => insert_all(
                Map::empty(),
                raw_pairs(text::split(q@, '&')).map_values(
                    |p: (Seq<char>, Seq<char>)| (decoded_or_empty(p.0), decoded_or_empty(p.1)),
                ),
            ),
        },
{
    let mut m = QueryMap::new();
    let q = match query {
        None => {
            return m;
        },
        Some(q) => q,
    };
    let v = chars_of(q);
    let pieces = text::split_chars(&v, '&');
    let ghost pv = pieces@.map_values(|x: Vec<char>| x@);
    let ghost f = |p: (Seq<char>, Seq<char>)| (decoded_or_empty(p.0), decoded_or_empty(p.1));
    let mut i: usize = 0;
    assert(raw_pairs(pv.take(0)) =~= Seq::<(Seq<char>, Seq<char>)>::empty());
    assert(m.map() =~= insert_all(Map::empty(), raw_pairs(pv.take(0)).map_values(f)));
    while i < pieces.len()
        invariant
            i <= pieces.len(),
            pv == pieces@.map_values(|x: Vec<char>| x@),
            pv == text::split(v@, '&'),
            f == (|p: (Seq<char>, Seq<char>)| (decoded_or_empty(p.0), decoded_or_empty(p.1))),
            m.map() == insert_all(Map::empty(), raw_pairs(pv.take(i as int)).map_values(f)),
        decreases pieces.len() - i,
    {
        let piece = &pieces[i];
        assert(pv.take(i + 1).drop_last() =~= pv.take(i as int));
        assert(pv.take(i + 1).last() == piece@);
        if piece.len() > 0 {
            let (k, val) = match text::find_char_from_exec(piece, '=', 0) {
                Some(e) => {
                    proof {
                        text::lemma_find_char_from_bounds(piece@, '=', 0);
                    }
                    let k = text::string_of_range(piece, 0, e);
                    let val = text::string_of_range(piece, e + 1, piece.len());
                    assert(k@ =~= piece@.take(e as int));
                    assert(val@ =~= piece@.skip(e + 1));
                    (k, val)
                },
                None => (string_of(piece), String::new()),
            };
            assert((k@, val@) == split_pair(piece@));
            let dk = match url_decode(k.as_str()) {
                Some(x) => x,
                None => String::new(),
            };
            let dv = match url_decode(val.as_str()) {
                Some(x) => x,
                None => String::new(),
            };
            m.insert(dk, dv);
            proof {
                let rp = raw_pairs(pv.take(i as int));
                let rp2 = raw_pairs(pv.take(i + 1));
                assert(rp2 == rp.push(split_pair(piece@)));
                assert(rp2.map_values(f) =~= rp.map_values(f).push(f(split_pair(piece@))));
                assert(rp2.map_values(f).drop_last() =~= rp.map_values(f));
            }
        } else {
            assert(raw_pairs(pv.take(i + 1)) == raw_pairs(pv.take(i as int)));
        }
        i += 1;
    }
    assert(pv.take(pieces.len() as int) =~= pv);
    m
}

// ---------------------------------------------------------------------------
// Parameters
// ---------------------------------------------------------------------------

/// `str::parse` for an unsigned type with maximum `max`: an optional `+`,
/// then at least one digit, within range.
pub open spec fn parse_uint(s: Seq<char>, max: nat) -> Option<nat> {
    let d = if s.len() > 0 && s[0] == '+' {
        s.drop_first()
    } else {
        s
    };
    if d.len() == 0 || !crate::trimapi::all_digits(d) {
        None
    } else if digits::digits_value(d) <= max {
        Some(digits::digits_value(d))
    } else {
        None
    }
}

/// Parses an unsigned decimal number no larger than `max`.
#[verifier::rlimit(40)]
pub fn parse_uint_exec(s: &str, max: u64) -> (r: Option<u64>)
    ensures
        r matches Some(n) ==> parse_uint(s@, max as nat) == Some(n as nat),
        r is None ==> parse_uint(s@, max as nat) is None,
{
    let v = chars_of(s);
    let start: usize = if v.len() > 0 && v[0] == '+' {
        1
    } else {
        0
    };
    let ghost d = if v@.len() > 0 && v@[0] == '+' {
        v@.drop_first()
    } else {
        v@
    };
    assert(d =~= v@.subrange(start as int, v.len() as int));
    if start >= v.len() {
        assert(d.len() == 0);
        return None;
    }
    let mut i = start;
    let mut acc: u64 = 0;
    let mut over = false;
    while i < v.len()
        invariant
            start <= i <= v.len(),
            d == v@.subrange(start as int, v.len() as int),
            d == (if v@.len() > 0 && v@[0] == '+' {
                v@.drop_first()
            } else {
                v@
            }),
            v@ == s@,
            forall|j: int| start <= j < i ==> text::is_digit(#[trigger] v@[j]),
            !over ==> digits::digits_value(v@.subrange(start as int, i as int)) == acc,
            over ==> digits::digits_value(v@.subrange(start as int, i as int)) > max,
            !over ==> acc <= max,
        decreases v.len() - i,
    {
        let c = v[i];
        if !('0' <= c && c <= '9') {
            assert(d[i - start] == v@[i as int]);
            assert(!text::is_digit(d[i - start]));
            assert(!crate::trimapi::all_digits(d));
            return None;
        }
        let ghost pre = v@.subrange(start as int, i as int);
        let ghost nxt = v@.subrange(start as int, i + 1);
        assert(nxt.drop_last() =~= pre);
        assert(nxt.last() == c);
        let dv: u64 = (c as u32 - '0' as u32) as u64;
        assert(dv == digits::digit_of(c));
        if over {
            assert(digits::digits_value(nxt) >= digits::digits_value(pre)) by (nonlinear_arith)
                requires
                    digits::digits_value(nxt) == digits::digits_value(pre) * 10 + dv,
            ;
        } else {
            match acc.checked_mul(10) {
                Some(m) => match m.checked_add(dv) {
                    Some(x) => {
                        if x <= max {
                            acc = x;
                        } else {
                            over = true;
                        }
                    },
                    None => {
                        over = true;
                    },
                },
                None => {
                    over = true;
                    assert(digits::digits_value(nxt) > max) by (nonlinear_arith)
                        requires
                            digits::digits_value(nxt) == acc * 10 + dv,
                            acc * 10 > u64::MAX,
                            max <= u64::MAX,
                    ;
                },
            }
        }
        i += 1;
    }
    assert(v@.subrange(start as int, v.len() as int) =~= d);
    assert(crate::trimapi::all_digits(d)) by {
        assert forall|j: int| 0 <= j < d.len() implies text::is_digit(#[trigger] d[j]) by {
            assert(d[j] == v@[j + start]);
        }
    }
    if over {
        None
    } else {
        Some(acc)
    }
}

/// The page to render: the `page` parameter as a number, `None` when it is
/// missing or not one (a bad request).
pub fn page_param(p: Option<String>) -> (r: Option<usize>)
    ensures
        p is None ==> r is None,
        p matches Some(s) ==> (match parse_uint(s@, usize::MAX as nat) {
            Some(n) => r == Some(n as usize),
            None => r is None,
        }),
{
    match p {
        None => None,
        Some(s) => match parse_uint_exec(s.as_str(), usize::MAX as u64) {
            Some(n) => Some(n as usize),
            None => None,
        },
    }
}

/// The resolution to render at: the `dpi` parameter kept between 36 and 400,
/// 300 when it is missing or not a `u32`.
pub fn dpi_param(p: Option<String>) -> (r: u32)
    ensures
        match p {
            Some(s) => match parse_uint(s@, u32::MAX as nat) {
                Some(n) => r == (if n < 36 {
                    36
                } else if n > 400 {
                    400
                } else {
                    n
                }),
                None => r == 300,
            },
            None => r == 300,
        },
        36 <= r <= 400,
{
    match p {
        None => 300,
        Some(s) => match parse_uint_exec(s.as_str(), u32::MAX as u64) {
            Some(n) => if n < 36 {
                36
            } else if n > 400 {
                400
            } else {
                n as u32
            },
            None => 300,
        },
    }
}

/// `render_sem`'s size: `PDFR_RENDER_CONCURRENCY` (trimmed) when it is a
/// number, else the machine's parallelism (4 when unknown) kept between 2
/// and 4; at least 1.
pub fn render_concurrency(setting: Option<String>, parallelism: Option<usize>) -> (r: usize)
    ensures
        r >= 1,
        r == ({
            let n: nat = match setting {
                Some(s) => match parse_uint(text::trim(s@), usize::MAX as nat) {
                    Some(n) => n,
                    None => {
                        let p = match parallelism {
                            Some(p) => p as nat,
                            None => 4,
                        };
                        if p < 2 {
                            2
                        } else if p > 4 {
                            4
                        } else {
                            p
                        }
                    },
                },
                None => {
                    let p = match parallelism {
                        Some(p) => p as nat,
                        None => 4,
                    };
                    if p < 2 {
                        2
                    } else if p > 4 {
                        4
                    } else {
                        p
                    }
                },
            };
            if n < 1 {
                1
            } else {
                n
            }
        }),
{
    let fallback: usize = match parallelism {
        Some(p) => if p < 2 {
            2
        } else if p > 4 {
            4
        } else {
            p
        },
        None => 4,
    };
    let n: usize = match setting {
        Some(s) => {
            let t = text::trim_string(s.as_str());
            match parse_uint_exec(t.as_str(), usize::MAX as u64) {
                Some(n) => n as usize,
                None => fallback,
            }
        },
        None => fallback,
    };
    if n < 1 {
        1
    } else {
        n
    }
}

// ---------------------------------------------------------------------------
// Static files and routing
// ---------------------------------------------------------------------------

/// A request path with the gateway prefix removed when it starts with it.
pub open spec fn strip_prefix_spec(path: Seq<char>, prefix: Seq<char>) -> Seq<char> {
    if text::starts_with(path, prefix) {
        path.skip(prefix.len() as int)
    } else {
        path
    }
}

/// `strip_prefix`: removes the gateway prefix from a request path.
pub fn strip_prefix(path: &str, prefix: &str) -> (r: String)
    ensures
        r@ == strip_prefix_spec(path@, prefix@),
{
    let v = chars_of(path);
    let p = chars_of(prefix);
    if text::starts_with_exec(&v, &p) {
        text::string_of_range(&v, p.len(), v.len())
    } else {
        string_of(&v)
    }
}

/// Whether a (prefix-stripped) path is an API path, which is never served
/// from the front end's files.
pub fn is_api_path(path: &str) -> (r: bool)
    ensures
        r == text::starts_with(path@, "/api/"@),
{
    let v = chars_of(path);
    let p = chars_of("/api/");
    text::starts_with_exec(&v, &p)
}

/// `path` without its leading `/` characters.
pub open spec fn trim_leading_slashes(s: Seq<char>) -> Seq<char>
    decreases s.len(),
{
    if s.len() > 0 && s[0] == '/' {
        trim_leading_slashes(s.drop_first())
    } else {
        s
    }
}

/// The front-end file a path asks for: leading slashes removed,
/// `index.html` for the root.
pub fn static_rel(rel: &str) -> (r: String)
    ensures
        trim_leading_slashes(rel@).len() > 0 ==> r@ == trim_leading_slashes(rel@),
        trim_leading_slashes(rel@).len() == 0 ==> r@ == "index.html"@,
{
    let v = chars_of(rel);
    let mut i: usize = 0;
    assert(v@.skip(0) =~= v@);
    while i < v.len() && v[i] == '/'
        invariant
            i <= v.len(),
            trim_leading_slashes(v@) == trim_leading_slashes(v@.skip(i as int)),
        decreases v.len() - i,
    {
        assert(v@.skip(i as int).drop_first() =~= v@.skip(i + 1));
        i += 1;
    }
    assert(trim_leading_slashes(v@.skip(i as int)) == v@.skip(i as int));
    if i == v.len() {
        "index.html".to_owned()
    } else {
        let r = text::string_of_range(&v, i, v.len());
        assert(r@ =~= v@.skip(i as int));
        r
    }
}

/// The file a front-end path asks for.
pub open spec fn static_rel_spec(rel: Seq<char>) -> Seq<char> {
    if trim_leading_slashes(rel).len() > 0 {
        trim_leading_slashes(rel)
    } else {
        "index.html"@
    }
}

/// Whether a resolved path is known and lies inside `root`.
pub open spec fn resolved_inside(canonical: Option<String>, root: Seq<char>) -> bool {
    match canonical {
        Some(c) => pathsafe::path_starts_with(c@, root),
        None => false,
    }
}

/// `serve_static_sync`'s choice of file: the requested file under the web
/// root when its resolved form (`canonical`, `None` when it cannot be
/// resolved) stays inside the root and it is a regular file (`is_file`);
/// otherwise the root's `index.html`. Nothing outside the root is served.
pub fn static_target(web_root: &str, rel: &str, canonical: Option<String>, is_file: bool) -> (r: String)
    ensures
        r@ == (if resolved_inside(canonical, web_root@) && is_file {
            pathsafe::path_join(web_root@, static_rel_spec(rel@))
        } else {
            pathsafe::path_join(web_root@, "index.html"@)
        }),
{
    let inside = match &canonical {
        Some(c) => pathsafe::path_starts_with_exec(c.as_str(), web_root),
        None => false,
    };
    if inside && is_file {
        let r = static_rel(rel);
        crate::pdfdoc::join_str(web_root, r.as_str())
    } else {
        crate::pdfdoc::join_str(web_root, "index.html")
    }
}

/// `Path::extension`: after the last dot of the file name, unless the name
/// has no dot or its only dot is the first character.
pub open spec fn extension(p: Seq<char>) -> Option<Seq<char>> {
    match pathsafe::file_name(p) {
        None => None,
        Some(n) => match last_dot(n) {
            Some(k) => if k > 0 {
                Some(n.skip(k + 1))
            } else {
                None
            },
            None => None,
        },
    }
}

/// The position of the last `.` in `n`.
pub open spec fn last_dot(n: Seq<char>) -> Option<int>
    decreases n.len(),
{
    if n.len() == 0 {
        None
    } else if n.last() == '.' {
        Some(n.len() - 1)
    } else {
        last_dot(n.drop_last())
    }
}

/// The content type for a lower-case extension.
pub open spec fn mime_for(ext: Seq<char>) -> Seq<char> {
    if ext == "html"@ {
        "text/html; charset=utf-8"@
    } else if ext == "js"@ || ext == "mjs"@ {
        "application/javascript; charset=utf-8"@
    } else if ext == "css"@ {
        "text/css; charset=utf-8"@
    } else if ext == "png"@ {
        "image/png"@
    } else if ext == "jpg"@ || ext == "jpeg"@ {
        "image/jpeg"@
    } else if ext == "svg"@ {
        "image/svg+xml"@
    } else if ext == "ico"@ {
        "image/x-icon"@
    } else if ext == "json"@ || ext == "map"@ {
        "application/json; charset=utf-8"@
    } else if ext == "woff"@ {
        "font/woff"@
    } else if ext == "woff2"@ {
        "font/woff2"@
    } else if ext == "ttf"@ {
        "font/ttf"@
    } else {
        "application/octet-stream"@
    }
}

/// The content types by extension (already lower-cased): pages, scripts,
/// style sheets, images, JSON and source maps, and fonts each get their own
/// type; any other extension, or none, is served as plain bytes.
pub proof fn lemma_mime_types(e: Seq<char>)
    ensures
        e == "html"@ ==> mime_for(e) == "text/html; charset=utf-8"@,
        e == "js"@ || e == "mjs"@ ==> mime_for(e) == "application/javascript; charset=utf-8"@,
        e == "css"@ ==> mime_for(e) == "text/css; charset=utf-8"@,
        e == "png"@ ==> mime_for(e) == "image/png"@,
        e == "jpg"@ || e == "jpeg"@ ==> mime_for(e) == "image/jpeg"@,
        e == "svg"@ ==> mime_for(e) == "image/svg+xml"@,
        e == "ico"@ ==> mime_for(e) == "image/x-icon"@,
        e == "json"@ || e == "map"@ ==> mime_for(e) == "application/json; charset=utf-8"@,
        e == "woff"@ ==> mime_for(e) == "font/woff"@,
        e == "woff2"@ ==> mime_for(e) == "font/woff2"@,
        e == "ttf"@ ==> mime_for(e) == "font/ttf"@,
        e != "html"@ && e != "js"@ && e != "mjs"@ && e != "css"@ && e != "png"@ && e != "jpg"@ && e
            != "jpeg"@ && e != "svg"@ && e != "ico"@ && e != "json"@ && e != "map"@ && e != "woff"@
            && e != "woff2"@ && e != "ttf"@ ==> mime_for(e) == "application/octet-stream"@,
{
    reveal_strlit("html");
    reveal_strlit("js");
    reveal_strlit("mjs");
    reveal_strlit("css");
    reveal_strlit("png");
    reveal_strlit("jpg");
    reveal_strlit("jpeg");
    reveal_strlit("svg");
    reveal_strlit("ico");
    reveal_strlit("json");
    reveal_strlit("map");
    reveal_strlit("woff");
    reveal_strlit("woff2");
    reveal_strlit("ttf");
    assert("html"@ =~= seq!['h', 't', 'm', 'l']);
    assert("js"@ =~= seq!['j', 's']);
    assert("mjs"@ =~= seq!['m', 'j', 's']);
    assert("css"@ =~= seq!['c', 's', 's']);
    assert("png"@ =~= seq!['p', 'n', 'g']);
    assert("jpg"@ =~= seq!['j', 'p', 'g']);
    assert("jpeg"@ =~= seq!['j', 'p', 'e', 'g']);
    assert("svg"@ =~= seq!['s', 'v', 'g']);
    assert("ico"@ =~= seq!['i', 'c', 'o']);
    assert("json"@ =~= seq!['j', 's', 'o', 'n']);
    assert("map"@ =~= seq!['m', 'a', 'p']);
    assert("woff"@ =~= seq!['w', 'o', 'f', 'f']);
    assert("woff2"@ =~= seq!['w', 'o', 'f', 'f', '2']);
    assert("ttf"@ =~= seq!['t', 't', 'f']);
    if e == "js"@ {
        assert(e != "html"@);
    }
    if e == "mjs"@ {
        assert(e != "html"@);
        assert(e != "js"@);
    }
    if e == "css"@ {
        assert(e != "html"@);
        assert(e != "js"@);
        assert(e != "mjs"@);
    }
    if e == "png"@ {
        assert(e != "html"@);
        assert(e != "js"@);
        assert(e != "mjs"@);
        assert(e != "css"@);
    }
    if e == "jpg"@ {
        assert(e != "html"@);
        assert(e != "js"@);
        assert(e != "mjs"@);
        assert(e != "css"@);
        assert(e != "png"@);
    }
    if e == "jpeg"@ {
        assert(e != "html"@);
        assert(e != "js"@);
        assert(e != "mjs"@);
        assert(e != "css"@);
        assert(e != "png"@);
        assert(e != "jpg"@);
    }
    if e == "svg"@ {
        assert(e != "html"@);
        assert(e != "js"@);
        assert(e != "mjs"@);
        assert(e != "css"@);
        assert(e != "png"@);
        assert(e != "jpg"@);
        assert(e != "jpeg"@);
    }
    if e == "ico"@ {
        assert(e != "html"@);
        assert(e != "js"@);
        assert(e != "mjs"@);
        assert(e != "css"@);
        assert(e != "png"@);
        assert(e != "jpg"@);
        assert(e != "jpeg"@);
        assert(e != "svg"@);
    }
    if e == "json"@ {
        assert(e != "html"@);
        assert(e != "js"@);
        assert(e != "mjs"@);
        assert(e != "css"@);
        assert(e != "png"@);
        assert(e != "jpg"@);
        assert(e != "jpeg"@);
        assert(e != "svg"@);
        assert(e != "ico"@);
    }
    if e == "map"@ {
        assert(e != "html"@);
        assert(e != "js"@);
        assert(e != "mjs"@);
        assert(e != "css"@);
        assert(e != "png"@);
        assert(e != "jpg"@);
        assert(e != "jpeg"@);
        assert(e != "svg"@);
        assert(e != "ico"@);
        assert(e != "json"@);
    }
    if e == "woff"@ {
        assert(e != "html"@);
        assert(e != "js"@);
        assert(e != "mjs"@);
        assert(e != "css"@);
        assert(e != "png"@);
        assert(e != "jpg"@);
        assert(e != "jpeg"@);
        assert(e != "svg"@);
        assert(e != "ico"@);
        assert(e != "json"@);
        assert(e != "map"@);
    }
    if e == "woff2"@ {
        assert(e != "html"@);
        assert(e != "js"@);
        assert(e != "mjs"@);
        assert(e != "css"@);
        assert(e != "png"@);
        assert(e != "jpg"@);
        assert(e != "jpeg"@);
        assert(e != "svg"@);
        assert(e != "ico"@);
        assert(e != "json"@);
        assert(e != "map"@);
        assert(e != "woff"@);
    }
    if e == "ttf"@ {
        assert(e != "html"@);
        assert(e != "js"@);
        assert(e != "mjs"@);
        assert(e != "css"@);
        assert(e != "png"@);
        assert(e != "jpg"@);
        assert(e != "jpeg"@);
        assert(e != "svg"@);
        assert(e != "ico"@);
        assert(e != "json"@);
        assert(e != "map"@);
        assert(e != "woff"@);
        assert(e != "woff2"@);
    }
}

/// `mime_of`: the content type of a file by its extension, compared without
/// regard to ASCII case.
pub fn mime_of(p: &str) -> (r: &'static str)
    ensures
        r@ == mime_for(match extension(p@) {
            Some(e) => text::ascii_lower_seq(e),
            None => seq![],
        }),
{
    let name = pathsafe::file_name_of(p);
    let n = chars_of(name.as_str());
    let mut k = n.len();
    assert(n@.take(n.len() as int) =~= n@);
    while k > 0 && n[k - 1] != '.'
        invariant
            k <= n.len(),
            last_dot(n@) == last_dot(n@.take(k as int)),
        decreases k,
    {
        assert(n@.take(k as int).drop_last() =~= n@.take(k - 1));
        k -= 1;
    }
    proof {
        assert(n@.take(n.len() as int) =~= n@);
        if k > 0 {
            assert(n@.take(k as int).last() == n@[k - 1]);
        } else {
            assert(n@.take(0) =~= Seq::<char>::empty());
        }
    }
    let ext: Vec<char> = if k > 1 {
        text::ascii_lower_vec(&text::copy_range(&n, k, n.len()))
    } else {
        Vec::new()
    };
    proof {
        match pathsafe::file_name(p@) {
            None => {
                assert(n@.len() == 0);
            },
            Some(fname) => {
                assert(fname == n@);
            },
        }
        if k > 1 {
            assert(last_dot(n@) == Some(k - 1));
            assert(text::ascii_lower_seq(n@.skip(k as int)) == ext@);
        } else {
            assert(ext@ =~= Seq::<char>::empty());
            assert(text::ascii_lower_seq(Seq::<char>::empty()) =~= Seq::<char>::empty());
        }
    }
    mime_table(&ext)
}

/// The content type for a lower-case extension.
fn mime_table(e: &Vec<char>) -> (r: &'static str)
    ensures
        r@ == mime_for(e@),
{
    let s = string_of(e);
    let x = s.as_str();
    if text::str_eq(x, "html") {
        "text/html; charset=utf-8"
    } else if text::str_eq(x, "js") || text::str_eq(x, "mjs") {
        "application/javascript; charset=utf-8"
    } else if text::str_eq(x, "css") {
        "text/css; charset=utf-8"
    } else if text::str_eq(x, "png") {
        "image/png"
    } else if text::str_eq(x, "jpg") || text::str_eq(x, "jpeg") {
        "image/jpeg"
    } else if text::str_eq(x, "svg") {
        "image/svg+xml"
    } else if text::str_eq(x, "ico") {
        "image/x-icon"
    } else if text::str_eq(x, "json") || text::str_eq(x, "map") {
        "application/json; charset=utf-8"
    } else if text::str_eq(x, "woff") {
        "font/woff"
    } else if text::str_eq(x, "woff2") {
        "font/woff2"
    } else if text::str_eq(x, "ttf") {
        "font/ttf"
    } else {
        "application/octet-stream"
    }
}

// ---------------------------------------------------------------------------
// Command line
// ---------------------------------------------------------------------------

/// The port and host from the arguments after the program name.
pub open spec fn args_from(args: Seq<Seq<char>>, i: int, port: u16, host: Seq<char>) -> (u16, Seq<char>)
    decreases args.len() - i,
{
    if i < 1 || i >= args.len() {
        (port, host)
    } else if args[i] == "--port"@ && i + 1 < args.len() {
        args_from(
            args,
            i + 2,
            match parse_uint(args[i + 1], u16::MAX as nat) {
                Some(n) => n as u16,
                None => 0,
            },
            host,
        )
    } else if args[i] == "--host"@ && i + 1 < args.len() {
        args_from(args, i + 2, port, args[i + 1])
    } else {
        args_from(args, i + 1, port, host)
    }
}

/// `parse_args`: `--port N` and `--host H` (the last of each wins; a port
/// that is not a number counts as 0); defaults 0 and `0.0.0.0`.
pub fn parse_args(args: &Vec<String>) -> (r: (u16, String))
    ensures
        (r.0, r.1@) == args_from(strs(args@), 1, 0, "0.0.0.0"@),
{
    let ghost av = strs(args@);
    let mut port: u16 = 0;
    let mut host = "0.0.0.0".to_owned();
    let mut i: usize = 1;
    while i < args.len()
        invariant
            1 <= i,
            av == strs(args@),
            args_from(av, 1, 0, "0.0.0.0"@) == args_from(av, i as int, port, host@),
        decreases args.len() - i,
    {
        let a = args[i].as_str();
        assert(av[i as int] == a@);
        if text::str_eq(a, "--port") && i + 1 < args.len() {
            assert(av[i + 1] == args@[i + 1]@);
            port = match parse_uint_exec(args[i + 1].as_str(), 65535) {
                Some(n) => n as u16,
                None => 0,
            };
            i += 2;
        } else if text::str_eq(a, "--host") && i + 1 < args.len() {
            assert(av[i + 1] == args@[i + 1]@);
            host = args[i + 1].clone();
            i += 2;
        } else {
            i += 1;
        }
    }
    (port, host)
}

} // verus!
