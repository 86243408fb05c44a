//! Service configuration and the per-request context: configuration values
//! from the environment, safe file names for user ids, the user id bound to a
//! request, the cache of folders the platform granted a user, and the set of
//! library roots.

use vstd::prelude::*;
use crate::text;
use crate::text::{chars_of, push_char, string_of, trim_bounds};
use crate::pathsafe;
use crate::pathsafe::same_path_exec;

verus! {

/// The service configuration.
pub struct Config {
    /// Application name (kept for diagnostics).
    pub appname: String,
    /// URL prefix under which the gateway forwards requests, without a
    /// trailing `/`.
    pub gateway_prefix: String,
    pub sock_path: String,
    pub web_root: String,
    pub data_dir: String,
    pub log_file: Option<String>,
    pub require_auth: bool,
    pub roots_file: Option<String>,
    pub port: u16,
    pub host: String,
}

/// The environment values the configuration is built from (`None` when a
/// variable is unset or not valid Unicode) and the defaults that depend on
/// the working directory.
pub struct ConfigEnv {
    pub appname: Option<String>,
    pub gateway_prefix: Option<String>,
    pub data_dir: Option<String>,
    pub sock: Option<String>,
    pub log_file: Option<String>,
    pub require_auth: Option<String>,
    pub roots_file: Option<String>,
    /// `data` under the working directory.
    pub default_data_dir: String,
    /// `app.sock` under the working directory.
    pub default_sock: String,
    /// The directory of the built web front end.
    pub web_root: String,
}

/// A variable's value when it is set and not empty, else the default.
pub open spec fn env_or_spec(v: Option<String>, def: Seq<char>) -> Seq<char> {
    match v {
        Some(x) => if x@.len() > 0 {
            x@
        } else {
            def
        },
        None => def,
    }
}

/// A variable's value when it is set and not empty.
pub open spec fn non_empty(v: Option<String>) -> Option<Seq<char>> {
    match v {
        Some(x) => if x@.len() > 0 {
            Some(x@)
        } else {
            None
        },
        None => None,
    }
}

/// The views of an optional string.
pub open spec fn opt_view(v: Option<String>) -> Option<Seq<char>> {
    match v {
        Some(x) => Some(x@),
        None => None,
    }
}

/// `s` without its trailing `/` characters (`trim_end_matches('/')`).
pub open spec fn trim_trailing_slashes(s: Seq<char>) -> Seq<char>
    decreases s.len(),
{
    if s.len() > 0 && s.last() == '/' {
        trim_trailing_slashes(s.drop_last())
    } else {
        s
    }
}

/// `env_or`: the value of a variable when it is set and not empty, else the
/// default.
pub fn env_or(v: Option<String>, def: &str) -> (r: String)
    ensures
        r@ == env_or_spec(v, def@),
{
    match v {
        Some(x) => {
            if text::chars_of(x.as_str()).len() > 0 {
                x
            } else {
                def.to_owned()
            }
        },
        None => def.to_owned(),
    }
}

/// A variable's value, dropped when empty.
fn filter_non_empty(v: Option<String>) -> (r: Option<String>)
    ensures
        opt_view(r) == non_empty(v),
{
    match v {
        Some(x) => if text::chars_of(x.as_str()).len() > 0 {
            Some(x)
        } else {
            None
        },
        None => None,
    }
}

/// Drops trailing `/` characters.
pub fn trim_end_slashes(s: &str) -> (r: String)
    ensures
        r@ == trim_trailing_slashes(s@),
{
    let v = chars_of(s);
    let mut n = v.len();
    assert(v@.take(v.len() as int) =~= v@);
    while n > 0 && v[n - 1] == '/'
        invariant
            n <= v.len(),
            trim_trailing_slashes(v@) == trim_trailing_slashes(v@.take(n as int)),
        decreases n,
    {
        assert(v@.take(n as int).drop_last() =~= v@.take(n - 1));
        n -= 1;
    }
    assert(trim_trailing_slashes(v@.take(n as int)) == v@.take(n as int));
    assert(v@.take(v.len() as int) =~= v@);
    text::string_of_range(&v, 0, n)
}

/// `init_config`: the configuration from the environment. The gateway prefix
/// defaults to `/app/fnnas-pdfreader` and loses trailing slashes;
/// authentication is required exactly when `PDFR_REQUIRE_AUTH` is `1`; empty
/// log and roots file names count as unset.
pub fn init_config(port: u16, host: String, env: ConfigEnv) -> (c: Config)
    ensures
        c.appname@ == env_or_spec(env.appname, "pdfreader"@),
        c.gateway_prefix@ == trim_trailing_slashes(
            env_or_spec(env.gateway_prefix, "/app/fnnas-pdfreader"@),
        ),
        c.sock_path@ == env_or_spec(env.sock, env.default_sock@),
        c.web_root == env.web_root,
        c.data_dir@ == env_or_spec(env.data_dir, env.default_data_dir@),
        opt_view(c.log_file) == non_empty(env.log_file),
        c.require_auth == (opt_view(env.require_auth) == Some("1"@)),
        opt_view(c.roots_file) == non_empty(env.roots_file),
        c.port == port,
        c.host == host,
{
    let prefix_raw = env_or(env.gateway_prefix, "/app/fnnas-pdfreader");
    let gateway_prefix = trim_end_slashes(prefix_raw.as_str());
    let data_dir = env_or(env.data_dir, env.default_data_dir.as_str());
    let require_auth = match &env.require_auth {
        Some(v) => text::str_eq(v.as_str(), "1"),
        None => false,
    };
    Config {
        appname: env_or(env.appname, "pdfreader"),
        gateway_prefix,
        sock_path: env_or(env.sock, env.default_sock.as_str()),
        web_root: env.web_root,
        data_dir,
        log_file: filter_non_empty(env.log_file),
        require_auth,
        roots_file: filter_non_empty(env.roots_file),
        port,
        host,
    }
}

/// The directories searched, in order, for the built front end: the
/// `PDFR_WEBROOT` value when set and not empty, then `ui` beside the
/// executable, `ui` one level above it, and `ui` under the working
/// directory.
pub open spec fn webroot_candidates_spec(env: Option<String>, here: Seq<char>, cwd: Seq<char>) -> Seq<
    Seq<char>,
> {
    let tail = seq![
        pathsafe::path_join(here, "ui"@),
        pathsafe::path_join(pathsafe::path_join(here, ".."@), "ui"@),
        pathsafe::path_join(cwd, "ui"@),
    ];
    match non_empty(env) {
        Some(v) => seq![v] + tail,
        None => tail,
    }
}

/// `resolve_webroot`'s candidates (the first holding `index.html` is the web
/// root; with none, `ui` beside the executable).
pub fn webroot_candidates(env: Option<String>, here: &str, cwd: &str) -> (r: Vec<String>)
    ensures
        pathsafe::strs_view(r@) == webroot_candidates_spec(env, here@, cwd@),
{
    let mut out: Vec<String> = Vec::new();
    let e = filter_non_empty(env);
    match e {
        Some(v) => out.push(v),
        None => {},
    }
    out.push(crate::pdfdoc::join_str(here, "ui"));
    let up = crate::pdfdoc::join_str(here, "..");
    out.push(crate::pdfdoc::join_str(up.as_str(), "ui"));
    out.push(crate::pdfdoc::join_str(cwd, "ui"));
    assert(pathsafe::strs_view(out@) =~= webroot_candidates_spec(env, here@, cwd@));
    out
}

/// `progress_path`: the file of a user's reading progress,
/// `{data dir}/progress/{safe name}.json`.
pub fn progress_file(data_dir: &str, uid: &str) -> (r: String)
    ensures
        r@ == pathsafe::path_join(
            pathsafe::path_join(data_dir@, "progress"@),
            (if keep_safe(uid@).len() > 0 {
                keep_safe(uid@)
            } else {
                "anon"@
            }) + ".json"@,
        ),
{
    let d = crate::pdfdoc::join_str(data_dir, "progress");
    let mut f = safe_name(uid);
    text::push_str(&mut f, ".json");
    crate::pdfdoc::join_str(d.as_str(), f.as_str())
}

// ---------------------------------------------------------------------------
// Safe file names
// ---------------------------------------------------------------------------

/// Characters kept in a safe name: ASCII letters and digits, `-` and `_`.
pub open spec fn safe_char(c: char) -> bool {
    text::is_ascii_alnum(c) || c == '-' || c == '_'
}

/// The safe characters of `s`, in order.
pub open spec fn keep_safe(s: Seq<char>) -> Seq<char>
    decreases s.len(),
{
    if s.len() == 0 {
        seq![]
    } else if safe_char(s.last()) {
        keep_safe(s.drop_last()).push(s.last())
    } else {
        keep_safe(s.drop_last())
    }
}

/// `safe_name`: the user id reduced to ASCII letters, digits, `-` and `_`,
/// or `anon` when nothing is left.
pub fn safe_name(uid: &str) -> (r: String)
    ensures
        keep_safe(uid@).len() > 0 ==> r@ == keep_safe(uid@),
        keep_safe(uid@).len() == 0 ==> r@ == "anon"@,
{
    let v = chars_of(uid);
    let mut out = String::new();
    let mut i: usize = 0;
    while i < v.len()
        invariant
            i <= v.len(),
            out@ == keep_safe(v@.take(i as int)),
        decreases v.len() - i,
    {
        let c = v[i];
        assert(v@.take(i + 1).drop_last() =~= v@.take(i as int));
        assert(v@.take(i + 1).last() == c);
        if ('0' <= c && c <= '9') || ('a' <= c && c <= 'z') || ('A' <= c && c <= 'Z') || c == '-'
            || c == '_' {
            push_char(&mut out, c);
        }
        i += 1;
    }
    assert(v@.take(v.len() as int) =~= v@);
    if chars_of(out.as_str()).len() == 0 {
        "anon".to_owned()
    } else {
        out
    }
}

/// Every character of a safe name is a safe character.
pub proof fn lemma_keep_safe_chars(s: Seq<char>)
    ensures
        forall|i: int| 0 <= i < keep_safe(s).len() ==> safe_char(#[trigger] keep_safe(s)[i]),
    decreases s.len(),
{
    if s.len() > 0 {
        lemma_keep_safe_chars(s.drop_last());
        let r = keep_safe(s.drop_last());
        if safe_char(s.last()) {
            let q = r.push(s.last());
            assert forall|i: int| 0 <= i < q.len() implies safe_char(#[trigger] q[i]) by {
                if i < r.len() {
                    assert(q[i] == r[i]);
                }
            }
        }
    }
}

// ---------------------------------------------------------------------------
// The request context
// ---------------------------------------------------------------------------

/// What a request carries through the library: the platform user id of the
/// user it is served for (empty outside requests).
pub struct RequestContext {
    pub uid: String,
}

impl RequestContext {
    /// A context outside any request.
    pub fn new() -> (c: Self)
        ensures
            c.uid@ == Seq::<char>::empty(),
    {
        RequestContext { uid: String::new() }
    }

    /// `request_uid`: the user id of the current request.
    pub fn request_uid(&self) -> (r: String)
        ensures
            r@ == self.uid@,
    {
        self.uid.clone()
    }
}

/// `with_request_uid`: runs `f` with the context bound to `uid`, then
/// restores the previous user id; returns what `f` returned.
pub fn with_request_uid<T, F: FnOnce(&RequestContext) -> T>(
    ctx: &mut RequestContext,
    uid: &str,
    f: F,
) -> (out: T)
    requires
        forall|c: RequestContext| c.uid@ == uid@ ==> f.requires((&c,)),
    ensures
        final(ctx).uid@ == old(ctx).uid@,
        exists|c: RequestContext| c.uid@ == uid@ && f.ensures((&c,), out),
{
    let prev = ctx.uid.clone();
    ctx.uid = uid.to_owned();
    let out = f(&*ctx);
    ctx.uid = prev;
    out
}

// ---------------------------------------------------------------------------
// Folders granted by the platform
// ---------------------------------------------------------------------------

/// The folders the platform last reported for one user.
pub struct LiveRoots {
    pub key: String,
    /// When they were stored, in nanoseconds of a monotonic clock.
    pub at_ns: u64,
    pub paths: Vec<String>,
}

/// The cache of granted folders (one user at a time).
pub struct LiveCache {
    pub current: Option<LiveRoots>,
}

/// Refreshing is for real users only, and not within two seconds of the
/// last refresh for the same user.
pub open spec fn needs_refresh_spec(cache: LiveCache, uid: Seq<char>, now_ns: u64) -> bool {
    &&& uid.len() > 0
    &&& uid != "debug"@
    &&& !(cache.current matches Some(c) && c.key@ == uid && (if now_ns >= c.at_ns {
        now_ns - c.at_ns
    } else {
        0
    }) < 2_000_000_000)
}

impl LiveCache {
    /// An empty cache.
    pub fn new() -> (c: Self)
        ensures
            c.current is None,
    {
        LiveCache { current: None }
    }
}

/// Whether the granted folders of `uid` should be asked for again.
pub fn needs_refresh(cache: &LiveCache, uid: &str, now_ns: u64) -> (r: bool)
    ensures
        r == needs_refresh_spec(*cache, uid@, now_ns),
{
    if text::chars_of(uid).len() == 0 || text::str_eq(uid, "debug") {
        return false;
    }
    match &cache.current {
        Some(c) => {
            let age = now_ns.saturating_sub(c.at_ns);
            !(text::str_eq(c.key.as_str(), uid) && age < 2_000_000_000)
        },
        None => true,
    }
}

/// The views of a vector of strings.
pub open spec fn vec_view(v: Vec<String>) -> Seq<Seq<char>> {
    v@.map_values(|x: String| x@)
}

/// `refresh_live_roots`: after asking the platform (`answer`, `None` when the
/// request failed, received at `answered_ns`), the cache holds the new folders
/// for `uid` when a refresh was due and the answer came; otherwise the cache
/// is left as it was: a failure never replaces what is known.
pub fn refresh_live_roots(
    cache: &mut LiveCache,
    uid: &str,
    now_ns: u64,
    answer: Option<Vec<String>>,
    answered_ns: u64,
)
    ensures
        needs_refresh_spec(*old(cache), uid@, now_ns) && answer is Some ==> (final(cache).current
            matches Some(c) && c.key@ == uid@ && c.at_ns == answered_ns && c.paths == answer->0),
        !(needs_refresh_spec(*old(cache), uid@, now_ns) && answer is Some) ==> *final(cache)
            == *old(cache),
{
    if !needs_refresh(cache, uid, now_ns) {
        return;
    }
    match answer {
        Some(paths) => {
            cache.current = Some(LiveRoots { key: uid.to_owned(), at_ns: answered_ns, paths });
        },
        None => {},
    }
}

// ---------------------------------------------------------------------------
// Library roots
// ---------------------------------------------------------------------------

/// The trimmed, non-empty pieces among `parts`.
pub open spec fn trimmed_pieces(parts: Seq<Seq<char>>) -> Seq<Seq<char>>
    decreases parts.len(),
{
    if parts.len() == 0 {
        seq![]
    } else {
        let t = text::trim(parts.last());
        let rest = trimmed_pieces(parts.drop_last());
        if t.len() > 0 {
            rest.push(t)
        } else {
            rest
        }
    }
}

/// The root candidates named by one environment value (`:`-separated).
pub open spec fn env_candidates(values: Seq<Option<String>>) -> Seq<Seq<char>>
    decreases values.len(),
{
    if values.len() == 0 {
        seq![]
    } else {
        env_candidates(values.drop_last()) + match values.last() {
            Some(v) => trimmed_pieces(text::split(v@, ':')),
            None => seq![],
        }
    }
}

/// The root candidates: the `:`-separated paths of each environment value in
/// order, then the lines of the roots file; trimmed, empty ones dropped.
pub open spec fn candidates_spec(values: Seq<Option<String>>, file_text: Option<String>) -> Seq<
    Seq<char>,
> {
    env_candidates(values) + match file_text {
        Some(t) => trimmed_pieces(text::split(t@, '\n')),
        None => seq![],
    }
}

/// Appends the trimmed, non-empty pieces of `s` split at `sep`.
fn push_pieces(out: &mut Vec<String>, s: &str, sep: char)
    ensures
        vec_view(*final(out)) == vec_view(*old(out)) + trimmed_pieces(text::split(s@, sep)),
{
    let v = chars_of(s);
    let parts = text::split_chars(&v, sep);
    let ghost pv = parts@.map_values(|x: Vec<char>| x@);
    let ghost o0 = vec_view(*out);
    let mut k: usize = 0;
    while k < parts.len()
        invariant
            k <= parts.len(),
            pv == parts@.map_values(|x: Vec<char>| x@),
            vec_view(*out) == o0 + trimmed_pieces(pv.take(k as int)),
        decreases parts.len() - k,
    {
        let (a, b) = trim_bounds(&parts[k]);
        assert(pv.take(k + 1).drop_last() =~= pv.take(k as int));
        assert(pv.take(k + 1).last() == parts@[k as int]@);
        if b > a {
            let piece = text::string_of_range(&parts[k], a, b);
            let ghost before = vec_view(*out);
            out.push(piece);
            assert(vec_view(*out) =~= before.push(piece@));
        }
        k += 1;
    }
    assert(pv.take(parts.len() as int) =~= pv);
}

/// `collect_roots`, first step: the root candidates named by the environment
/// values (in the order of the variables) and the roots file text.
pub fn root_candidates(values: &Vec<Option<String>>, file_text: Option<String>) -> (r: Vec<String>)
    ensures
        vec_view(r) == candidates_spec(values@, file_text),
{
    let mut out: Vec<String> = Vec::new();
    let mut i: usize = 0;
    assert(vec_view(out) =~= Seq::<Seq<char>>::empty());
    while i < values.len()
        invariant
            i <= values.len(),
            vec_view(out) == env_candidates(values@.take(i as int)),
        decreases values.len() - i,
    {
        assert(values@.take(i + 1).drop_last() =~= values@.take(i as int));
        assert(values@.take(i + 1).last() == values@[i as int]);
        match &values[i] {
            Some(v) => {
                push_pieces(&mut out, v.as_str(), ':');
            },
            None => {
                assert(vec_view(out) + Seq::<Seq<char>>::empty() =~= vec_view(out));
            },
        }
        i += 1;
    }
    assert(values@.take(values.len() as int) =~= values@);
    match file_text {
        Some(t) => {
            push_pieces(&mut out, t.as_str(), '\n');
        },
        None => {
            assert(vec_view(out) + Seq::<Seq<char>>::empty() =~= vec_view(out));
        },
    }
    out
}

/// Whether `seen` holds the same path as `p`.
pub open spec fn holds_path(seen: Seq<Seq<char>>, p: Seq<char>) -> bool {
    exists|i: int| 0 <= i < seen.len() && pathsafe::same_path(#[trigger] seen[i], p)
}

/// `seen` with each of `xs` appended unless the same path is already there.
pub open spec fn add_all(seen: Seq<Seq<char>>, xs: Seq<Seq<char>>) -> Seq<Seq<char>>
    decreases xs.len(),
{
    if xs.len() == 0 {
        seen
    } else {
        let s = add_all(seen, xs.drop_last());
        if holds_path(s, xs.last()) {
            s
        } else {
            s.push(xs.last())
        }
    }
}

/// `add_root`: appends `p` unless the same path is already in `seen`.
pub fn add_root(seen: &mut Vec<String>, p: String)
    ensures
        vec_view(*final(seen)) == (if holds_path(vec_view(*old(seen)), p@) {
            vec_view(*old(seen))
        } else {
            vec_view(*old(seen)).push(p@)
        }),
{
    let ghost sv = vec_view(*seen);
    let mut i: usize = 0;
    while i < seen.len()
        invariant
            i <= seen.len(),
            sv == vec_view(*seen),
            forall|j: int| 0 <= j < i ==> !pathsafe::same_path(#[trigger] sv[j], p@),
        decreases seen.len() - i,
    {
        if same_path_exec(seen[i].as_str(), p.as_str()) {
            assert(pathsafe::same_path(sv[i as int], p@));
            return;
        }
        i += 1;
    }
    seen.push(p);
    assert(vec_view(*seen) =~= sv.push(p@));
}

/// Appends each of `xs` that is not already there.
fn add_roots(seen: &mut Vec<String>, xs: &Vec<String>)
    ensures
        vec_view(*final(seen)) == add_all(vec_view(*old(seen)), vec_view(*xs)),
{
    let ghost s0 = vec_view(*seen);
    let ghost xv = vec_view(*xs);
    let mut i: usize = 0;
    while i < xs.len()
        invariant
            i <= xs.len(),
            xv == vec_view(*xs),
            vec_view(*seen) == add_all(s0, xv.take(i as int)),
        decreases xs.len() - i,
    {
        assert(xv.take(i + 1).drop_last() =~= xv.take(i as int));
        assert(xv.take(i + 1).last() == xs@[i as int]@);
        add_root(seen, xs[i].clone());
        i += 1;
    }
    assert(xv.take(xs.len() as int) =~= xv);
}

/// The library roots: the resolved candidates without repeats, then, inside a
/// request, the folders the platform granted to that user.
pub open spec fn collect_roots_spec(resolved: Seq<Seq<char>>, cache: LiveCache, uid: Seq<char>) -> Seq<
    Seq<char>,
> {
    let base = add_all(seq![], resolved);
    match cache.current {
        Some(c) => if uid.len() > 0 && c.key@ == uid {
            add_all(base, vec_view(c.paths))
        } else {
            base
        },
        None => base,
    }
}

/// `collect_roots`, last step: from the candidates that exist as directories
/// (each in its resolved form), and the granted folders of the request's
/// user, the library roots without repeated paths.
pub fn collect_roots(resolved: &Vec<String>, cache: &LiveCache, uid: &str) -> (r: Vec<String>)
    ensures
        vec_view(r) == collect_roots_spec(vec_view(*resolved), *cache, uid@),
{
    let mut seen: Vec<String> = Vec::new();
    assert(vec_view(seen) =~= Seq::<Seq<char>>::empty());
    add_roots(&mut seen, resolved);
    if text::chars_of(uid).len() > 0 {
        match &cache.current {
            Some(c) => {
                if text::str_eq(c.key.as_str(), uid) {
                    add_roots(&mut seen, &c.paths);
                }
            },
            None => {},
        }
    }
    seen
}

/// No path occurs twice.
pub open spec fn no_repeats(s: Seq<Seq<char>>) -> bool {
    forall|i: int, j: int|
        0 <= i < j < s.len() ==> !pathsafe::same_path(#[trigger] s[i], #[trigger] s[j])
}

/// Adding paths keeps them free of repeats, and every added path is then
/// held.
pub proof fn lemma_add_all(seen: Seq<Seq<char>>, xs: Seq<Seq<char>>)
    requires
        no_repeats(seen),
    ensures
        no_repeats(add_all(seen, xs)),
        forall|k: int| 0 <= k < xs.len() ==> holds_path(add_all(seen, xs), #[trigger] xs[k]),
        forall|k: int| 0 <= k < seen.len() ==> holds_path(add_all(seen, xs), #[trigger] seen[k]),
    decreases xs.len(),
{
    if xs.len() > 0 {
        let t = xs.drop_last();
        lemma_add_all(seen, t);
        let s = add_all(seen, t);
        let x = xs.last();
        if !holds_path(s, x) {
            let r = s.push(x);
            assert forall|i: int, j: int| 0 <= i < j < r.len() implies !pathsafe::same_path(
                #[trigger] r[i],
                #[trigger] r[j],
            ) by {
                if j == s.len() {
                    assert(r[i] == s[i]);
                    assert(r[j] == x);
                } else {
                    assert(r[i] == s[i] && r[j] == s[j]);
                }
            }
            assert forall|p: Seq<char>| holds_path(s, p) implies holds_path(r, p) by {
                let i = choose|i: int| 0 <= i < s.len() && pathsafe::same_path(#[trigger] s[i], p);
                assert(r[i] == s[i]);
            }
            assert(pathsafe::same_path(r[s.len() as int], x));
        }
        assert forall|k: int| 0 <= k < xs.len() implies holds_path(add_all(seen, xs), #[trigger] xs[k]) by {
            if k < t.len() {
                assert(xs[k] == t[k]);
            }
        }
    } else {
        assert forall|k: int| 0 <= k < seen.len() implies holds_path(seen, #[trigger] seen[k]) by {
            assert(pathsafe::same_path(seen[k], seen[k]));
        }
    }
}

/// The library roots never hold the same path twice, and they hold every
/// resolved candidate.
pub proof fn lemma_collect_roots_distinct(resolved: Seq<Seq<char>>, cache: LiveCache, uid: Seq<char>)
    ensures
        no_repeats(collect_roots_spec(resolved, cache, uid)),
        forall|k: int|
            0 <= k < resolved.len() ==> holds_path(
                collect_roots_spec(resolved, cache, uid),
                #[trigger] resolved[k],
            ),
{
    assert(no_repeats(Seq::<Seq<char>>::empty()));
    lemma_add_all(seq![], resolved);
    let base = add_all(seq![], resolved);
    if let Some(c) = cache.current {
        if uid.len() > 0 && c.key@ == uid {
        lemma_add_all(base, vec_view(c.paths));
        assert forall|k: int| 0 <= k < resolved.len() implies holds_path(
            collect_roots_spec(resolved, cache, uid),
            #[trigger] resolved[k],
        ) by {
            assert(holds_path(base, resolved[k]));
            let i = choose|i: int| 0 <= i < base.len() && pathsafe::same_path(#[trigger] base[i], resolved[k]);
            assert(holds_path(add_all(base, vec_view(c.paths)), base[i]));
            let j = choose|j: int| 0 <= j < add_all(base, vec_view(c.paths)).len() && pathsafe::same_path(#[trigger] add_all(base, vec_view(c.paths))[j], base[i]);
            assert(pathsafe::same_path(add_all(base, vec_view(c.paths))[j], resolved[k]));
        }
        }
    }
}

} // verus!
