//! The platform's open API: the request text sent for a call, how a reply
//! is judged, how the folder lists are read from replies and merged.

use vstd::prelude::*;
use crate::text;
use crate::text::{chars_of, push_char, push_str, string_of};
use crate::digits;

verus! {

// ---------------------------------------------------------------------------
// String arrays in replies
// ---------------------------------------------------------------------------

/// The strings of an array body: each quoted item, with a backslash taking
/// the next character literally; text outside quotes is ignored and an
/// unterminated item is dropped.
pub open spec fn array_items(s: Seq<char>, i: int, in_str: bool, cur: Seq<char>) -> Seq<Seq<char>>
    decreases s.len() - i,
{
    if i < 0 || i >= s.len() {
        seq![]
    } else {
        let c = s[i];
        if c == '"' {
            if in_str {
                seq![cur] + array_items(s, i + 1, false, seq![])
            } else {
                array_items(s, i + 1, true, cur)
            }
        } else if in_str {
            if c == '\\' {
                if i + 1 < s.len() {
                    array_items(s, i + 2, true, cur.push(s[i + 1]))
                } else {
                    seq![]
                }
            } else {
                array_items(s, i + 1, true, cur.push(c))
            }
        } else {
            array_items(s, i + 1, false, cur)
        }
    }
}

/// The string array that follows `"key"` in `hay`: from the first `[` after
/// the first occurrence of the quoted key to the first `]` after it.
pub open spec fn json_string_array_spec(hay: Seq<char>, key: Seq<char>) -> Seq<Seq<char>> {
    let pat = seq!['"'] + key + seq!['"'];
    match text::find(hay, pat) {
        None => seq![],
        Some(i) => {
            let rest = hay.skip(i + pat.len());
            match text::find_char_from(rest, '[', 0) {
                None => seq![],
                Some(lb) => match text::find_char_from(rest, ']', lb) {
                    None => seq![],
                    Some(rb) => array_items(rest.subrange(lb + 1, rb), 0, false, seq![]),
                },
            }
        },
    }
}

/// The views of a vector of strings.
pub open spec fn strings_view(v: Seq<String>) -> Seq<Seq<char>> {
    v.map_values(|x: String| x@)
}

/// Reads the string array stored under `key` in a reply.
pub fn json_string_array(hay: &str, key: &str) -> (r: Vec<String>)
    ensures
        strings_view(r@) == json_string_array_spec(hay@, key@),
{
    let v = chars_of(hay);
    let kv = chars_of(key);
    let mut pat: Vec<char> = Vec::new();
    pat.push('"');
    let mut t: usize = 0;
    while t < kv.len()
        invariant
            t <= kv.len(),
            pat@ == seq!['"'] + kv@.take(t as int),
        decreases kv.len() - t,
    {
        pat.push(kv[t]);
        assert(kv@.take(t as int + 1) == kv@.take(t as int).push(kv@[t as int]));
        t += 1;
    }
    pat.push('"');
    assert(kv@.take(kv.len() as int) == kv@);
    assert(pat@ =~= seq!['"'] + key@ + seq!['"']);
    let mut out: Vec<String> = Vec::new();
    let i = match text::find_from_exec(&v, &pat, 0) {
        None => {
            return out;
        },
        Some(i) => i,
    };
    proof {
        text::lemma_find_from_bounds(v@, pat@, 0);
    }
    assert(i + pat.len() <= v.len());
    let rest = text::copy_range(&v, i + pat.len(), v.len());
    assert(rest@ =~= v@.skip(i + pat.len()));
    let lb = match text::find_char_from_exec(&rest, '[', 0) {
        None => {
            return out;
        },
        Some(lb) => lb,
    };
    proof {
        text::lemma_find_char_from_bounds(rest@, '[', 0);
    }
    let rb = match text::find_char_from_exec(&rest, ']', lb) {
        None => {
            return out;
        },
        Some(rb) => rb,
    };
    proof {
        text::lemma_find_char_from_bounds(rest@, ']', lb as int);
    }
    let inner = text::copy_range(&rest, lb + 1, rb);
    let mut cur: Vec<char> = Vec::new();
    let mut in_str = false;
    let mut k: usize = 0;
    assert(strings_view(out@) =~= Seq::<Seq<char>>::empty());
    while k < inner.len()
        invariant
            k <= inner.len(),
            strings_view(out@) + array_items(inner@, k as int, in_str, cur@) == array_items(
                inner@,
                0,
                false,
                seq![],
            ),
        decreases inner.len() - k,
    {
        let c = inner[k];
        let ghost before = strings_view(out@);
        if c == '"' {
            if in_str {
                let s = string_of(&cur);
                out.push(s);
                assert(strings_view(out@) =~= before.push(cur@));
                cur = Vec::new();
                in_str = false;
                assert(strings_view(out@) + array_items(inner@, k + 1, false, seq![]) =~= before
                    + (seq![s@] + array_items(inner@, k + 1, false, seq![])));
            } else {
                in_str = true;
            }
            k += 1;
        } else if in_str {
            if c == '\\' {
                if k + 1 < inner.len() {
                    cur.push(inner[k + 1]);
                    k += 2;
                } else {
                    assert(array_items(inner@, k as int, in_str, cur@) =~= Seq::<Seq<char>>::empty());
                    assert(array_items(inner@, inner.len() as int, in_str, cur@) =~= Seq::<Seq<char>>::empty());
                    k = inner.len();
                }
            } else {
                cur.push(c);
                k += 1;
            }
        } else {
            k += 1;
        }
    }
    assert(strings_view(out@) + Seq::<Seq<char>>::empty() =~= strings_view(out@));
    out
}

// ---------------------------------------------------------------------------
// The user id in a request
// ---------------------------------------------------------------------------

/// All characters are ASCII digits.
pub open spec fn all_digits(d: Seq<char>) -> bool {
    forall|i: int| 0 <= i < d.len() ==> text::is_digit(#[trigger] d[i])
}

/// `str::parse::<i64>`: an optional sign, then at least one digit, within
/// range.
pub open spec fn parse_i64(s: Seq<char>) -> Option<int> {
    if s.len() == 0 {
        None
    } else {
        let neg = s[0] == '-';
        let d = if s[0] == '-' || s[0] == '+' {
            s.drop_first()
        } else {
            s
        };
        if d.len() == 0 || !all_digits(d) {
            None
        } else {
            let v: int = if neg {
                -digits::digits_value(d)
            } else {
                digits::digits_value(d) as int
            };
            if i64::MIN <= v <= i64::MAX {
                Some(v)
            } else {
                None
            }
        }
    }
}

/// `s` without `"` characters.
pub open spec fn drop_quotes(s: Seq<char>) -> Seq<char>
    decreases s.len(),
{
    if s.len() == 0 {
        seq![]
    } else if s.last() == '"' {
        drop_quotes(s.drop_last())
    } else {
        drop_quotes(s.drop_last()).push(s.last())
    }
}

/// The data of the per-user folder query: the id as a number when it reads
/// as one, else as a string with its quotes removed.
pub open spec fn uid_data_spec(uid: Seq<char>) -> Seq<char> {
    match parse_i64(uid) {
        Some(n) => "{\"uid\":"@ + text::dec_int(n) + seq!['}'],
        None => "{\"uid\":\""@ + drop_quotes(uid) + "\"}"@,
    }
}

/// `str::parse::<i64>`.
pub fn parse_i64_exec(s: &[char]) -> (r: Option<i64>)
    ensures
        r matches Some(n) ==> parse_i64(s@) == Some(n as int),
        r is None ==> parse_i64(s@) is None,
{
    if s.len() == 0 {
        return None;
    }
    let neg = s[0] == '-';
    let start: usize = if s[0] == '-' || s[0] == '+' {
        1
    } else {
        0
    };
    let ghost d = if s@[0] == '-' || s@[0] == '+' {
        s@.drop_first()
    } else {
        s@
    };
    assert(d =~= s@.subrange(start as int, s.len() as int));
    if start == s.len() {
        assert(d.len() == 0);
        return None;
    }
    let mut i = start;
    let mut acc: u64 = 0;
    let mut over = false;
    while i < s.len()
        invariant
            start <= i <= s.len(),
            s.len() > 0,
            d == s@.subrange(start as int, s.len() as int),
            d == (if s@[0] == '-' || s@[0] == '+' {
                s@.drop_first()
            } else {
                s@
            }),
            all_digits(s@.subrange(start as int, i as int)),
            !over ==> digits::digits_value(s@.subrange(start as int, i as int)) == acc,
            over ==> digits::digits_value(s@.subrange(start as int, i as int)) > u64::MAX,
        decreases s.len() - i,
    {
        let c = s[i];
        if !('0' <= c && c <= '9') {
            assert(!all_digits(d)) by {
                assert(d[i - start] == c);
            }
            return None;
        }
        let ghost pre = s@.subrange(start as int, i as int);
        let ghost nxt = s@.subrange(start as int, i + 1);
        assert(nxt.drop_last() =~= pre);
        assert(nxt.last() == c);
        assert(all_digits(nxt)) by {
            assert forall|j: int| 0 <= j < nxt.len() implies text::is_digit(#[trigger] nxt[j]) by {
                if j < pre.len() {
                    assert(nxt[j] == pre[j]);
                }
            }
        }
        let dv: u64 = digit_value(c);
        if over {
            assert(digits::digits_value(nxt) >= digits::digits_value(pre)) by (nonlinear_arith)
                requires
                    digits::digits_value(nxt) == digits::digits_value(pre) * 10 + dv,
            ;
        } else {
            match acc.checked_mul(10) {
                Some(m) => match m.checked_add(dv) {
                    Some(x) => {
                        acc = x;
                    },
                    None => {
                        over = true;
                    },
                },
                None => {
                    over = true;
                    assert(digits::digits_value(nxt) > u64::MAX) by (nonlinear_arith)
                        requires
                            digits::digits_value(nxt) == acc * 10 + dv,
                            acc * 10 > u64::MAX,
                    ;
                },
            }
        }
        i += 1;
    }
    assert(s@.subrange(start as int, s.len() as int) =~= d);
    if over {
        return None;
    }
    if neg {
        if acc <= 9223372036854775807 {
            Some(-(acc as i64))
        } else if acc == 9223372036854775808 {
            Some(i64::MIN)
        } else {
            None
        }
    } else {
        if acc <= 9223372036854775807 {
            Some(acc as i64)
        } else {
            None
        }
    }
}

/// The value of an ASCII digit.
fn digit_value(c: char) -> (r: u64)
    requires
        '0' <= c <= '9',
    ensures
        r == digits::digit_of(c),
        r <= 9,
{
    (c as u32 - '0' as u32) as u64
}

/// Appends the decimal numeral of a signed value.
fn push_dec_i64(s: &mut String, n: i64)
    ensures
        final(s)@ == old(s)@ + text::dec_int(n as int),
{
    if n < 0 {
        push_char(s, '-');
        let mag: u64 = if n == i64::MIN {
            9223372036854775808
        } else {
            (-n) as u64
        };
        text::push_dec(s, mag);
        assert(s@ =~= old(s)@ + text::dec_int(n as int));
    } else {
        text::push_dec(s, n as u64);
    }
}

/// The data of the per-user folder query for `uid`.
pub fn uid_request_data(uid: &str) -> (r: String)
    ensures
        r@ == uid_data_spec(uid@),
{
    let v = chars_of(uid);
    match parse_i64_exec(&v) {
        Some(n) => {
            let mut out = "{\"uid\":".to_owned();
            push_dec_i64(&mut out, n);
            push_char(&mut out, '}');
            out
        },
        None => {
            let mut out = "{\"uid\":\"".to_owned();
            let mut i: usize = 0;
            let ghost o0 = out@;
            while i < v.len()
                invariant
                    i <= v.len(),
                    out@ == o0 + drop_quotes(v@.take(i as int)),
                decreases v.len() - i,
            {
                assert(v@.take(i + 1).drop_last() =~= v@.take(i as int));
                assert(v@.take(i + 1).last() == v@[i as int]);
                if v[i] != '"' {
                    push_char(&mut out, v[i]);
                }
                i += 1;
            }
            assert(v@.take(v.len() as int) =~= v@);
            push_str(&mut out, "\"}");
            out
        },
    }
}

// ---------------------------------------------------------------------------
// Requests and replies
// ---------------------------------------------------------------------------

/// The JSON body of a call.
pub open spec fn rpc_body_spec(req: Seq<char>, app: Seq<char>, data: Seq<char>) -> Seq<char> {
    "{\"reqId\":\"1\",\"req\":\""@ + req + "\",\"appName\":\""@ + app + "\",\"data\":"@ + data + seq!['}']
}

/// The HTTP request text of a call with `body`.
pub open spec fn rpc_http_spec(token: Seq<char>, body: Seq<char>) -> Seq<char> {
    "POST /api/v1/trimapp HTTP/1.1\r\nHost: localhost\r\nContent-Type: application/json\r\nAuthorization: Bearer "@
        + token + "\r\nContent-Length: "@ + text::dec(vstd::utf8::encode_utf8(body).len() as usize as nat) + "\r\nConnection: close\r\n\r\n"@ + body
}

/// The request text of the call `req` of application `app` with `data`,
/// authorised by `token`; the length header counts the body in UTF-8 bytes.
pub fn rpc_request(req: &str, app: &str, data: &str, token: &str) -> (r: String)
    ensures
        r@ == rpc_http_spec(token@, rpc_body_spec(req@, app@, data@)),
{
    let mut body = "{\"reqId\":\"1\",\"req\":\"".to_owned();
    push_str(&mut body, req);
    push_str(&mut body, "\",\"appName\":\"");
    push_str(&mut body, app);
    push_str(&mut body, "\",\"data\":");
    push_str(&mut body, data);
    push_char(&mut body, '}');
    assert(body@ =~= rpc_body_spec(req@, app@, data@));
    let n = body.as_str().len();
    let mut out = "POST /api/v1/trimapp HTTP/1.1\r\nHost: localhost\r\nContent-Type: application/json\r\nAuthorization: Bearer ".to_owned();
    push_str(&mut out, token);
    push_str(&mut out, "\r\nContent-Length: ");
    text::push_dec(&mut out, n as u64);
    push_str(&mut out, "\r\nConnection: close\r\n\r\n");
    push_str(&mut out, body.as_str());
    assert(out@ =~= rpc_http_spec(token@, body@));
    out
}

/// The body of a reply text: what follows the first blank line, or the
/// whole text when there is none.
pub open spec fn reply_body(text: Seq<char>) -> Seq<char> {
    match text::find(text, seq!['\r', '\n', '\r', '\n']) {
        Some(i) => text.skip(i + 4),
        None => text,
    }
}

/// A reply counts only when its body says `"code":0` or `"code": 0`.
pub open spec fn reply_ok(body: Seq<char>) -> bool {
    text::find(body, "\"code\":0"@) is Some || text::find(body, "\"code\": 0"@) is Some
}

/// Whether a socket path fits a Unix socket address with room for
/// `capacity` bytes: its UTF-8 bytes and the closing NUL byte must fit.
pub fn socket_path_fits(path: &str, capacity: usize) -> (r: bool)
    ensures
        r == ((vstd::utf8::encode_utf8(path@).len() as usize) < capacity),
{
    path.len() < capacity
}

/// Judges a reply text: its body when it reports success, else `None`.
pub fn rpc_reply_json(reply: &str) -> (r: Option<String>)
    ensures
        reply_ok(reply_body(reply@)) ==> (r matches Some(b) && b@ == reply_body(reply@)),
        !reply_ok(reply_body(reply@)) ==> r is None,
{
    let v = chars_of(reply);
    let mut sep: Vec<char> = Vec::new();
    sep.push('\r');
    sep.push('\n');
    sep.push('\r');
    sep.push('\n');
    assert(sep@ =~= seq!['\r', '\n', '\r', '\n']);
    let body: Vec<char> = match text::find_from_exec(&v, &sep, 0) {
        Some(i) => {
            proof {
                text::lemma_find_from_bounds(v@, sep@, 0);
            }
            assert(i + 4 <= v.len());
            let b = text::copy_range(&v, i + 4, v.len());
            assert(b@ =~= v@.skip(i + 4));
            b
        },
        None => v,
    };
    let p1 = chars_of("\"code\":0");
    let p2 = chars_of("\"code\": 0");
    let ok = text::find_from_exec(&body, &p1, 0).is_some() || text::find_from_exec(&body, &p2, 0).is_some();
    if ok {
        Some(string_of(&body))
    } else {
        None
    }
}

// ---------------------------------------------------------------------------
// Granted folders
// ---------------------------------------------------------------------------

/// `out` with each of `v` appended unless it is empty or already there.
pub open spec fn push_new(out: Seq<Seq<char>>, v: Seq<Seq<char>>) -> Seq<Seq<char>>
    decreases v.len(),
{
    if v.len() == 0 {
        out
    } else {
        let o = push_new(out, v.drop_last());
        let p = v.last();
        if p.len() > 0 && !o.contains(p) {
            o.push(p)
        } else {
            o
        }
    }
}

/// Appends the non-empty new paths of `v`.
fn push_paths(out: &mut Vec<String>, v: Vec<String>)
    ensures
        strings_view(final(out)@) == push_new(strings_view(old(out)@), strings_view(v@)),
{
    let ghost o0 = strings_view(out@);
    let ghost vv = strings_view(v@);
    let mut i: usize = 0;
    while i < v.len()
        invariant
            i <= v.len(),
            vv == strings_view(v@),
            strings_view(out@) == push_new(o0, vv.take(i as int)),
        decreases v.len() - i,
    {
        let p = &v[i];
        assert(vv.take(i + 1).drop_last() =~= vv.take(i as int));
        assert(vv.take(i + 1).last() == p@);
        let ghost ov = strings_view(out@);
        let mut present = false;
        let mut j: usize = 0;
        while j < out.len()
            invariant
                j <= out.len(),
                ov == strings_view(out@),
                present == (exists|k: int| 0 <= k < j && #[trigger] ov[k] == p@),
            decreases out.len() - j,
        {
            if text::str_eq(out[j].as_str(), p.as_str()) {
                assert(ov[j as int] == p@);
                present = true;
            }
            proof {
                if !present {
                    assert forall|k: int| 0 <= k < j + 1 implies #[trigger] ov[k] != p@ by {
                        if k == j {
                        }
                    }
                }
            }
            j += 1;
        }
        assert(present == ov.contains(p@)) by {
            if ov.contains(p@) {
                let k = choose|k: int| 0 <= k < ov.len() && ov[k] == p@;
                assert(ov[k] == p@);
            }
        }
        if chars_of(p.as_str()).len() > 0 && !present {
            out.push(p.clone());
            assert(strings_view(out@) =~= ov.push(p@));
        }
        i += 1;
    }
    assert(vv.take(v.len() as int) =~= vv);
}

/// Whether a folder query is made for `uid` at all: not for an empty id (after
/// trimming) or the debug id.
pub open spec fn query_wanted(uid: Seq<char>) -> bool {
    text::trim(uid).len() > 0 && text::trim(uid) != "debug"@
}

/// `query_accessible_folders`: the folders granted to `uid`, from the replies
/// of the shared-folder query and of the per-user query (bodies of successful
/// replies, `None` for failed ones); `gateway_ready` tells whether the API
/// could be reached at all. `None` when no query is made, the API is not
/// reachable, or the per-user query failed; otherwise the `paths` of both
/// replies, shared first, without empty entries or repeats.
pub fn query_accessible_folders(
    uid: &str,
    gateway_ready: bool,
    shared: Option<String>,
    user: Option<String>,
) -> (r: Option<Vec<String>>)
    ensures
        !query_wanted(uid@) || !gateway_ready || user is None ==> r is None,
        query_wanted(uid@) && gateway_ready && user is Some ==> (r matches Some(v) && strings_view(v@)
            == push_new(
            push_new(
                seq![],
                match shared {
                    Some(j) => json_string_array_spec(j@, "paths"@),
                    None => seq![],
                },
            ),
            json_string_array_spec(user->0@, "paths"@),
        )),
{
    let t = text::trim_string(uid);
    if chars_of(t.as_str()).len() == 0 || text::str_eq(t.as_str(), "debug") {
        return None;
    }
    if !gateway_ready {
        return None;
    }
    let mut out: Vec<String> = Vec::new();
    assert(strings_view(out@) =~= Seq::<Seq<char>>::empty());
    match shared {
        Some(j) => {
            let a = json_string_array(j.as_str(), "paths");
            push_paths(&mut out, a);
        },
        None => {
            assert(push_new(Seq::<Seq<char>>::empty(), Seq::<Seq<char>>::empty()) =~= Seq::<Seq<char>>::empty());
        },
    }
    match user {
        Some(j) => {
            let a = json_string_array(j.as_str(), "paths");
            push_paths(&mut out, a);
            Some(out)
        },
        None => None,
    }
}

/// Whether the folder queries should be made for `uid`.
pub fn wants_query(uid: &str) -> (r: bool)
    ensures
        r == query_wanted(uid@),
{
    let t = text::trim_string(uid);
    chars_of(t.as_str()).len() > 0 && !text::str_eq(t.as_str(), "debug")
}

/// The folder list never holds an empty path or the same path twice.
pub proof fn lemma_push_new_distinct(out: Seq<Seq<char>>, v: Seq<Seq<char>>)
    requires
        out.no_duplicates(),
        forall|i: int| 0 <= i < out.len() ==> (#[trigger] out[i]).len() > 0,
    ensures
        push_new(out, v).no_duplicates(),
        forall|i: int| 0 <= i < push_new(out, v).len() ==> (#[trigger] push_new(out, v)[i]).len() > 0,
    decreases v.len(),
{
    if v.len() > 0 {
        lemma_push_new_distinct(out, v.drop_last());
        let o = push_new(out, v.drop_last());
        let p = v.last();
        if p.len() > 0 && !o.contains(p) {
            let r = o.push(p);
            assert forall|i: int, j: int| 0 <= i < r.len() && 0 <= j < r.len() && i != j implies r[i] != r[j] by {
                if i < o.len() && j < o.len() {
                    assert(r[i] == o[i] && r[j] == o[j]);
                } else if i < o.len() {
                    assert(r[i] == o[i]);
                    assert(o.contains(o[i]));
                } else if j < o.len() {
                    assert(r[j] == o[j]);
                    assert(o.contains(o[j]));
                }
            }
            assert forall|i: int| 0 <= i < r.len() implies (#[trigger] r[i]).len() > 0 by {
                if i < o.len() {
                    assert(r[i] == o[i]);
                }
            }
        }
    }
}

} // verus!
