//! The small JSON text format the service writes and reads itself: string
//! escaping and unescaping, string-field lookup, and the top-level
//! `{"key":{...},...}` map that holds reading progress on disk.

use vstd::prelude::*;
use crate::text;
use crate::text::{char_from_u32, chars_of, push_char, string_of, string_of_range};

verus! {

// ---------------------------------------------------------------------------
// Escaping
// ---------------------------------------------------------------------------

/// The lower-case hexadecimal digit for `d < 16`.
pub open spec fn hex_char(d: nat) -> char {
    if d < 10 {
        (('0' as u32) + d) as char
    } else {
        (('a' as u32) + (d - 10)) as char
    }
}

/// `{:04x}` of a value below 0x10000.
pub open spec fn hex4(v: nat) -> Seq<char> {
    seq![hex_char(v / 4096), hex_char((v / 256) % 16), hex_char((v / 16) % 16), hex_char(v % 16)]
}

/// How one character is written inside a JSON string.
pub open spec fn esc_char(c: char) -> Seq<char> {
    if c == '"' {
        seq!['\\', '"']
    } else if c == '\\' {
        seq!['\\', '\\']
    } else if c == '\n' {
        seq!['\\', 'n']
    } else if c == '\r' {
        seq!['\\', 'r']
    } else if c == '\t' {
        seq!['\\', 't']
    } else if (c as u32) < 0x20 {
        seq!['\\', 'u'] + hex4(c as u32 as nat)
    } else {
        seq![c]
    }
}

/// The escaped form of `s`.
pub open spec fn esc_spec(s: Seq<char>) -> Seq<char>
    decreases s.len(),
{
    if s.len() == 0 {
        seq![]
    } else {
        esc_char(s[0]) + esc_spec(s.drop_first())
    }
}

pub proof fn lemma_esc_concat(a: Seq<char>, b: Seq<char>)
    ensures
        esc_spec(a + b) == esc_spec(a) + esc_spec(b),
    decreases a.len(),
{
    if a.len() == 0 {
        assert(a + b =~= b);
    } else {
        assert((a + b).drop_first() =~= a.drop_first() + b);
        lemma_esc_concat(a.drop_first(), b);
        assert((a + b)[0] == a[0]);
    }
}

pub proof fn lemma_esc_push(a: Seq<char>, c: char)
    ensures
        esc_spec(a.push(c)) == esc_spec(a) + esc_char(c),
{
    lemma_esc_concat(a, seq![c]);
    assert(a.push(c) =~= a + seq![c]);
    assert(seq![c].drop_first() =~= Seq::<char>::empty());
    assert(esc_spec(seq![c]) =~= esc_char(c) + esc_spec(Seq::<char>::empty()));
    assert(esc_char(c) + Seq::<char>::empty() =~= esc_char(c));
}

/// The hexadecimal digit character of `d < 16`.
fn hex_digit(d: u32) -> (c: char)
    requires
        d < 16,
    ensures
        c == hex_char(d as nat),
{
    let v: u32 = if d < 10 {
        48 + d
    } else {
        97 + (d - 10)
    };
    match char_from_u32(v) {
        Some(c) => c,
        None => '0',
    }
}

/// Escapes `s` for use inside a JSON string: quote, backslash, newline,
/// carriage return and tab get their short escapes, the other control
/// characters `\u00XX`, everything else is kept.
pub fn esc(s: &str) -> (r: String)
    ensures
        r@ == esc_spec(s@),
{
    let v = chars_of(s);
    let mut o = String::new();
    let mut i: usize = 0;
    while i < v.len()
        invariant
            i <= v.len(),
            o@ == esc_spec(v@.take(i as int)),
        decreases v.len() - i,
    {
        let c = v[i];
        let ghost o0 = o@;
        if c == '"' {
            push_char(&mut o, '\\');
            push_char(&mut o, '"');
            assert(o@ =~= o0 + esc_char(c));
        } else if c == '\\' {
            push_char(&mut o, '\\');
            push_char(&mut o, '\\');
            assert(o@ =~= o0 + esc_char(c));
        } else if c == '\n' {
            push_char(&mut o, '\\');
            push_char(&mut o, 'n');
            assert(o@ =~= o0 + esc_char(c));
        } else if c == '\r' {
            push_char(&mut o, '\\');
            push_char(&mut o, 'r');
            assert(o@ =~= o0 + esc_char(c));
        } else if c == '\t' {
            push_char(&mut o, '\\');
            push_char(&mut o, 't');
            assert(o@ =~= o0 + esc_char(c));
        } else if (c as u32) < 0x20 {
            let u = c as u32;
            push_char(&mut o, '\\');
            push_char(&mut o, 'u');
            push_char(&mut o, '0');
            push_char(&mut o, '0');
            push_char(&mut o, hex_digit(u / 16));
            push_char(&mut o, hex_digit(u % 16));
            proof {
                let n = u as nat;
                assert(n / 4096 == 0);
                assert((n / 256) % 16 == 0);
                assert((n / 16) % 16 == n / 16);
                assert(hex_char(0) == '0');
                assert(o@ =~= o0 + esc_char(c));
            }
        } else {
            push_char(&mut o, c);
            assert(o@ =~= o0 + esc_char(c));
        }
        proof {
            assert(v@.take(i as int + 1) == v@.take(i as int).push(c));
            lemma_esc_push(v@.take(i as int), c);
        }
        i += 1;
    }
    proof {
        assert(v@.take(v.len() as int) == v@);
    }
    o
}

// ---------------------------------------------------------------------------
// Unescaping
// ---------------------------------------------------------------------------

/// The value of a hexadecimal digit, if `c` is one.
pub open spec fn hex_val(c: char) -> Option<nat> {
    if '0' <= c <= '9' {
        Some((c as u32 - '0' as u32) as nat)
    } else if 'a' <= c <= 'f' {
        Some((c as u32 - 'a' as u32 + 10) as nat)
    } else if 'A' <= c <= 'F' {
        Some((c as u32 - 'A' as u32 + 10) as nat)
    } else {
        None
    }
}

/// The value of a non-empty run of hexadecimal digits.
pub open spec fn hex_digits_value(d: Seq<char>) -> Option<nat>
    decreases d.len(),
{
    if d.len() == 0 {
        Some(0)
    } else {
        match (hex_digits_value(d.drop_last()), hex_val(d.last())) {
            (Some(a), Some(b)) => Some(a * 16 + b),
            _ => None,
        }
    }
}

/// `u32::from_str_radix(h, 16)` for texts of at most four characters: an
/// optional `+`, then at least one hexadecimal digit.
pub open spec fn parse_hex(h: Seq<char>) -> Option<nat> {
    let d = if h.len() > 0 && h[0] == '+' {
        h.drop_first()
    } else {
        h
    };
    if d.len() == 0 {
        None
    } else {
        hex_digits_value(d)
    }
}

/// The characters that the escape sequence `\u` + `h` stands for.
pub open spec fn unicode_escape(h: Seq<char>) -> Seq<char> {
    match parse_hex(h) {
        Some(v) => if text::is_scalar_value(v as int) {
            seq![v as char]
        } else {
            seq![]
        },
        None => seq![],
    }
}

/// The character that `\` + `c` stands for, other than `\u`.
pub open spec fn short_escape(c: char) -> char {
    if c == 'n' {
        '\n'
    } else if c == 'r' {
        '\r'
    } else if c == 't' {
        '\t'
    } else {
        c
    }
}

/// The unescaped form of `s`: a backslash escape stands for its character; an
/// unknown escape stands for the escaped character itself; `\u` takes up to
/// four following characters and stands for the character they give in hex
/// (nothing when they give none); a trailing lone backslash is dropped.
pub open spec fn unesc_spec(s: Seq<char>) -> Seq<char>
    decreases s.len(),
{
    if s.len() == 0 {
        seq![]
    } else if s[0] != '\\' {
        seq![s[0]] + unesc_spec(s.drop_first())
    } else if s.len() == 1 {
        seq![]
    } else if s[1] == 'u' {
        let n: int = if s.len() - 2 < 4 {
            s.len() - 2
        } else {
            4
        };
        unicode_escape(s.subrange(2, 2 + n)) + unesc_spec(s.skip(2 + n))
    } else {
        seq![short_escape(s[1])] + unesc_spec(s.skip(2))
    }
}

/// The value of a hexadecimal digit.
fn hex_value(c: char) -> (r: Option<u32>)
    ensures
        r matches Some(v) ==> hex_val(c) == Some(v as nat),
        r is None ==> hex_val(c) is None,
{
    if '0' <= c && c <= '9' {
        Some(c as u32 - '0' as u32)
    } else if 'a' <= c && c <= 'f' {
        Some(c as u32 - 'a' as u32 + 10)
    } else if 'A' <= c && c <= 'F' {
        Some(c as u32 - 'A' as u32 + 10)
    } else {
        None
    }
}

/// Sixteen to the power `n`.
pub open spec fn pow16(n: nat) -> nat
    decreases n,
{
    if n == 0 {
        1
    } else {
        pow16((n - 1) as nat) * 16
    }
}

/// `u32::from_str_radix(h, 16)` for at most four characters.
fn parse_hex_exec(h: &[char]) -> (r: Option<u32>)
    requires
        h.len() <= 4,
    ensures
        r matches Some(v) ==> parse_hex(h@) == Some(v as nat),
        r is None ==> parse_hex(h@) is None,
{
    let start: usize = if h.len() > 0 && h[0] == '+' {
        1
    } else {
        0
    };
    let ghost d = if h@.len() > 0 && h@[0] == '+' {
        h@.drop_first()
    } else {
        h@
    };
    assert(d =~= h@.skip(start as int));
    if start >= h.len() {
        return None;
    }
    let mut acc: u32 = 0;
    let mut i: usize = start;
    while i < h.len()
        invariant
            start <= i <= h.len() <= 4,
            d == h@.skip(start as int),
            d == (if h@.len() > 0 && h@[0] == '+' {
                h@.drop_first()
            } else {
                h@
            }),
            hex_digits_value(h@.subrange(start as int, i as int)) == Some(acc as nat),
            acc < pow16((i - start) as nat),
        decreases h.len() - i,
    {
        let ghost pre = h@.subrange(start as int, i as int);
        assert(h@.subrange(start as int, i + 1).drop_last() =~= pre);
        match hex_value(h[i]) {
            Some(x) => {
                proof {
                    assert(pow16(0) == 1);
                    assert(pow16(1) == 16);
                    assert(pow16(2) == 256);
                    assert(pow16(3) == 4096);
                    assert(pow16(4) == 65536);
                    assert(x < 16);
                    assert(acc * 16 + x < pow16((i + 1 - start) as nat)) by (nonlinear_arith)
                        requires
                            acc < pow16((i - start) as nat),
                            x < 16,
                            pow16((i + 1 - start) as nat) == pow16((i - start) as nat) * 16,
                    ;
                }
                acc = acc * 16 + x;
            },
            None => {
                proof {
                    let full = h@.subrange(start as int, h.len() as int);
                    let p = h@.subrange(start as int, i + 1);
                    assert(full =~= d);
                    assert(full.take(p.len() as int) =~= p);
                    assert(p.last() == h@[i as int]);
                    assert(p.drop_last() =~= pre);
                    lemma_hex_none_extends(p, full);
                    assert(d.len() > 0);
                    assert(parse_hex(h@) == hex_digits_value(d));
                }
                return None;
            },
        }
        i += 1;
    }
    assert(h@.subrange(start as int, h.len() as int) =~= d);
    Some(acc)
}

/// A prefix whose value is undefined leaves every extension undefined.
pub proof fn lemma_hex_none_extends(p: Seq<char>, s: Seq<char>)
    requires
        p.len() <= s.len(),
        s.take(p.len() as int) == p,
        hex_digits_value(p) is None,
    ensures
        hex_digits_value(s) is None,
    decreases s.len(),
{
    if s.len() > p.len() {
        assert(s.drop_last().take(p.len() as int) =~= p);
        lemma_hex_none_extends(p, s.drop_last());
    } else {
        assert(s =~= p);
    }
}

/// Undoes JSON string escaping (the inverse of `esc`, lenient on other input).
pub fn unesc(s: &str) -> (r: String)
    ensures
        r@ == unesc_spec(s@),
{
    let v = chars_of(s);
    let o = unesc_chars(&v, 0, v.len());
    assert(v@.subrange(0, v.len() as int) =~= v@);
    o
}

/// Unescapes `v[from..to]`.
pub fn unesc_chars(v: &[char], from: usize, to: usize) -> (r: String)
    requires
        from <= to <= v.len(),
    ensures
        r@ == unesc_spec(v@.subrange(from as int, to as int)),
{
    let ghost s = v@.subrange(from as int, to as int);
    let mut o = String::new();
    let mut i: usize = from;
    while i < to
        invariant
            from <= i <= to <= v.len(),
            s == v@.subrange(from as int, to as int),
            o@ + unesc_spec(v@.subrange(i as int, to as int)) == unesc_spec(s),
        decreases to - i,
    {
        let ghost t = v@.subrange(i as int, to as int);
        let ghost o0 = o@;
        let c = v[i];
        assert(t[0] == c);
        if c != '\\' {
            push_char(&mut o, c);
            assert(t.drop_first() =~= v@.subrange(i + 1, to as int));
            assert(o@ + unesc_spec(v@.subrange(i + 1, to as int)) =~= o0 + unesc_spec(t));
            i += 1;
        } else if i + 1 >= to {
            assert(t.len() == 1);
            assert(unesc_spec(t) =~= Seq::<char>::empty());
            assert(v@.subrange(to as int, to as int) =~= Seq::<char>::empty());
            assert(o@ + unesc_spec(v@.subrange(to as int, to as int)) =~= o0 + unesc_spec(t));
            i = to;
        } else {
            let n = v[i + 1];
            assert(t[1] == n);
            if n == 'u' {
                let avail = to - (i + 2);
                let k: usize = if avail < 4 {
                    avail
                } else {
                    4
                };
                let h = slice_range(v, i + 2, i + 2 + k);
                assert(t.subrange(2, 2 + k as int) =~= h@);
                assert(t.skip(2 + k as int) =~= v@.subrange(i + 2 + k, to as int));
                match parse_hex_exec(&h) {
                    Some(code) => {
                        match char_from_u32(code) {
                            Some(ch) => {
                                push_char(&mut o, ch);
                            },
                            None => {},
                        }
                    },
                    None => {},
                }
                assert(o@ =~= o0 + unicode_escape(h@));
                assert(o@ + unesc_spec(v@.subrange(i + 2 + k, to as int)) =~= o0 + unesc_spec(t));
                i = i + 2 + k;
            } else {
                let m = if n == 'n' {
                    '\n'
                } else if n == 'r' {
                    '\r'
                } else if n == 't' {
                    '\t'
                } else {
                    n
                };
                push_char(&mut o, m);
                assert(t.skip(2) =~= v@.subrange(i + 2, to as int));
                assert(o@ + unesc_spec(v@.subrange(i + 2, to as int)) =~= o0 + unesc_spec(t));
                i = i + 2;
            }
        }
    }
    assert(v@.subrange(to as int, to as int) =~= Seq::<char>::empty());
    assert(unesc_spec(Seq::<char>::empty()) =~= Seq::<char>::empty());
    assert(o@ + Seq::<char>::empty() =~= o@);
    o
}

/// A copy of `v[from..to]`.
pub fn slice_range(v: &[char], from: usize, to: usize) -> (r: Vec<char>)
    requires
        from <= to <= v.len(),
    ensures
        r@ == v@.subrange(from as int, to as int),
{
    let mut r: Vec<char> = Vec::new();
    let mut i = from;
    while i < to
        invariant
            from <= i <= to <= v.len(),
            r@ == v@.subrange(from as int, i as int),
        decreases to - i,
    {
        r.push(v[i]);
        assert(v@.subrange(from as int, i + 1) == v@.subrange(from as int, i as int).push(v@[i as int]));
        i += 1;
    }
    r
}

// ---------------------------------------------------------------------------
// Unescaping undoes escaping
// ---------------------------------------------------------------------------

pub proof fn lemma_unesc_esc_char(c: char, t: Seq<char>)
    ensures
        unesc_spec(esc_char(c) + t) == seq![c] + unesc_spec(t),
{
    let s = esc_char(c) + t;
    if c == '"' || c == '\\' || c == '\n' || c == '\r' || c == '\t' {
        assert(s[0] == '\\');
        assert(s.skip(2) =~= t);
        assert(s[1] != 'u');
        assert(short_escape(s[1]) == c);
    } else if (c as u32) < 0x20 {
        let v = c as u32 as nat;
        let h = hex4(v);
        assert(s[0] == '\\');
        assert(s[1] == 'u');
        assert(s.subrange(2, 6) =~= h);
        assert(s.skip(6) =~= t);
        assert(v / 4096 == 0);
        assert((v / 256) % 16 == 0);
        assert((v / 16) % 16 == v / 16);
        assert(v / 16 < 2);
        assert(hex_char(0) == '0');
        assert(hex_val(h[0]) == Some(0nat));
        assert(hex_val(h[1]) == Some(0nat));
        assert(hex_val(h[2]) == Some(v / 16));
        assert(hex_val(h[3]) == Some(v % 16)) by {
            if v % 16 < 10 {
            } else {
            }
        }
        assert(h.take(0) =~= Seq::<char>::empty());
        assert(h.take(1).drop_last() =~= h.take(0));
        assert(h.take(1).last() == h[0]);
        assert(hex_digits_value(h.take(0)) == Some(0nat));
        assert(hex_digits_value(h.take(1).drop_last()) == Some(0nat));
        assert(hex_val(h.take(1).last()) == Some(0nat));
        assert(hex_digits_value(h.take(1)) == Some(0nat));
        assert(h.take(2).drop_last() =~= h.take(1));
        assert(h.take(2).last() == h[1]);
        assert(hex_digits_value(h.take(2)) == Some(0nat));
        assert(h.take(3).drop_last() =~= h.take(2));
        assert(h.take(3).last() == h[2]);
        assert(hex_digits_value(h.take(3)) == Some(v / 16));
        assert(h.drop_last() =~= h.take(3));
        assert(hex_digits_value(h) == Some(v));
        assert(parse_hex(h) == Some(v));
        assert((v as char) == c);
        assert(unicode_escape(h) == seq![c]);
    } else {
        assert(s[0] == c);
        assert(s.drop_first() =~= t);
    }
}

/// Unescaping gives back what was escaped.
pub proof fn lemma_unesc_esc(s: Seq<char>)
    ensures
        unesc_spec(esc_spec(s)) == s,
    decreases s.len(),
{
    if s.len() == 0 {
    } else {
        lemma_unesc_esc(s.drop_first());
        lemma_unesc_esc_char(s[0], esc_spec(s.drop_first()));
        assert(seq![s[0]] + s.drop_first() =~= s);
    }
}


// ---------------------------------------------------------------------------
// Scanning: closing quotes and object extents
// ---------------------------------------------------------------------------

/// Number of backslashes right before position `j`, not looking before `lo`.
pub open spec fn bs_run(s: Seq<char>, lo: int, j: int) -> nat
    decreases j - lo,
{
    if j > lo && 0 < j <= s.len() && s[j - 1] == '\\' {
        1 + bs_run(s, lo, j - 1)
    } else {
        0
    }
}

/// Position `j` holds a quote that is not escaped (an even number of
/// backslashes since `lo` precede it).
pub open spec fn is_closing_quote(s: Seq<char>, lo: int, j: int) -> bool {
    0 <= j < s.len() && s[j] == '"' && bs_run(s, lo, j) % 2 == 0
}

/// The first unescaped quote at or after `i`, or the length.
pub open spec fn quote_end(s: Seq<char>, lo: int, i: int) -> int
    decreases s.len() - i,
{
    if i < 0 || i >= s.len() {
        s.len() as int
    } else if is_closing_quote(s, lo, i) {
        i
    } else {
        quote_end(s, lo, i + 1)
    }
}

pub proof fn lemma_quote_end_bounds(s: Seq<char>, lo: int, i: int)
    requires
        0 <= i <= s.len(),
    ensures
        i <= quote_end(s, lo, i) <= s.len(),
    decreases s.len() - i,
{
    if i < s.len() && !is_closing_quote(s, lo, i) {
        lemma_quote_end_bounds(s, lo, i + 1);
    }
}

/// The brace scanner: from position `i` at brace depth `depth`, inside a
/// string or not, the position just after the brace that brings the depth
/// back to zero; `None` when the text ends first.
pub open spec fn scan_obj(s: Seq<char>, i: int, depth: int, in_str: bool) -> Option<int>
    decreases s.len() + 1 - i,
{
    if i < 0 || i >= s.len() {
        None
    } else {
        let c = s[i];
        if in_str {
            if c == '\\' {
                scan_obj(s, i + 2, depth, true)
            } else if c == '"' {
                scan_obj(s, i + 1, depth, false)
            } else {
                scan_obj(s, i + 1, depth, true)
            }
        } else if c == '"' {
            scan_obj(s, i + 1, depth, true)
        } else if c == '{' {
            scan_obj(s, i + 1, depth + 1, false)
        } else if c == '}' {
            if depth - 1 == 0 {
                Some(i + 1)
            } else {
                scan_obj(s, i + 1, depth - 1, false)
            }
        } else {
            scan_obj(s, i + 1, depth, false)
        }
    }
}

pub proof fn lemma_scan_obj_bounds(s: Seq<char>, i: int, depth: int, in_str: bool)
    ensures
        scan_obj(s, i, depth, in_str) matches Some(e) ==> i < e <= s.len(),
    decreases s.len() + 1 - i,
{
    if 0 <= i < s.len() {
        let c = s[i];
        if in_str {
            if c == '\\' {
                lemma_scan_obj_bounds(s, i + 2, depth, true);
            } else if c == '"' {
                lemma_scan_obj_bounds(s, i + 1, depth, false);
            } else {
                lemma_scan_obj_bounds(s, i + 1, depth, true);
            }
        } else if c == '"' {
            lemma_scan_obj_bounds(s, i + 1, depth, true);
        } else if c == '{' {
            lemma_scan_obj_bounds(s, i + 1, depth + 1, false);
        } else if c == '}' {
            if depth - 1 != 0 {
                lemma_scan_obj_bounds(s, i + 1, depth - 1, false);
            }
        } else {
            lemma_scan_obj_bounds(s, i + 1, depth, false);
        }
    }
}

/// The first position at or after `i` holding a quote or a closing brace.
pub open spec fn find_key_start(s: Seq<char>, i: int) -> int
    decreases s.len() - i,
{
    if i < 0 || i >= s.len() {
        s.len() as int
    } else if s[i] == '"' || s[i] == '}' {
        i
    } else {
        find_key_start(s, i + 1)
    }
}

pub proof fn lemma_find_key_start_bounds(s: Seq<char>, i: int)
    requires
        0 <= i <= s.len(),
    ensures
        i <= find_key_start(s, i) <= s.len(),
    decreases s.len() - i,
{
    if i < s.len() && !(s[i] == '"' || s[i] == '}') {
        lemma_find_key_start_bounds(s, i + 1);
    }
}

/// The entries of the top-level map from position `i` on: each entry is a
/// quoted key (unescaped) and the complete `{...}` object that follows it.
/// Reading stops at a closing brace in place of a key or at the first entry
/// that is cut off.
pub open spec fn split_from(s: Seq<char>, i: int) -> Seq<(Seq<char>, Seq<char>)>
    decreases s.len() + 1 - i,
{
    if i < 0 || i > s.len() {
        seq![]
    } else {
        let j = find_key_start(s, i);
        proof {
            lemma_find_key_start_bounds(s, i);
        }
        if j >= s.len() || s[j] == '}' {
            seq![]
        } else {
            let ks = j + 1;
            let ke = quote_end(s, ks, ks);
            proof {
                lemma_quote_end_bounds(s, ks, ks);
            }
            let key = unesc_spec(s.subrange(ks, ke));
            match text::find_char_from(s, '{', ke + 1) {
                None => seq![],
                Some(vs) => match scan_obj(s, vs, 0, false) {
                    None => seq![],
                    Some(end) => {
                        proof {
                            text::lemma_find_char_from_bounds(s, '{', ke + 1);
                            lemma_scan_obj_bounds(s, vs, 0, false);
                        }
                        seq![(key, s.subrange(vs, end))] + split_from(s, end)
                    },
                },
            }
        }
    }
}

/// The entries of a stored map `{"key":{...},"key":{...}}`, in order.
pub open spec fn split_top(s: Seq<char>) -> Seq<(Seq<char>, Seq<char>)> {
    match text::find_char_from(s, '{', 0) {
        None => seq![],
        Some(p) => split_from(s, p + 1),
    }
}

/// The views of a list of string pairs.
pub open spec fn pairs_view(v: Seq<(String, String)>) -> Seq<(Seq<char>, Seq<char>)> {
    v.map_values(|p: (String, String)| (p.0@, p.1@))
}

/// Backslashes right before `j`.
fn bs_run_exec(v: &[char], lo: usize, j: usize) -> (n: usize)
    requires
        lo <= j <= v.len(),
    ensures
        n == bs_run(v@, lo as int, j as int),
{
    let mut k = j;
    let mut n: usize = 0;
    while k > lo && v[k - 1] == '\\'
        invariant
            lo <= k <= j <= v.len(),
            n + bs_run(v@, lo as int, k as int) == bs_run(v@, lo as int, j as int),
            n <= j - k,
        decreases k,
    {
        n += 1;
        k -= 1;
    }
    n
}

/// The first unescaped quote at or after `i`.
fn quote_end_exec(v: &[char], lo: usize, i: usize) -> (e: usize)
    requires
        lo <= i <= v.len(),
    ensures
        e == quote_end(v@, lo as int, i as int),
{
    let mut k = i;
    while k < v.len()
        invariant
            lo <= i <= k <= v.len(),
            quote_end(v@, lo as int, i as int) == quote_end(v@, lo as int, k as int),
        decreases v.len() - k,
    {
        if v[k] == '"' && bs_run_exec(v, lo, k) % 2 == 0 {
            return k;
        }
        k += 1;
    }
    k
}

/// The brace scanner from an opening brace at `vs`.
fn scan_obj_exec(v: &[char], vs: usize) -> (r: Option<usize>)
    requires
        vs < v.len(),
        v@[vs as int] == '{',
    ensures
        r matches Some(e) ==> scan_obj(v@, vs as int, 0, false) == Some(e as int),
        r is None ==> scan_obj(v@, vs as int, 0, false) is None,
{
    let mut i = vs;
    let mut depth: usize = 0;
    let mut in_str = false;
    while i < v.len()
        invariant
            vs <= i <= v.len(),
            vs < v.len(),
            v@[vs as int] == '{',
            depth <= i - vs,
            (i == vs && depth == 0 && !in_str) || depth >= 1,
            in_str ==> depth >= 1,
            scan_obj(v@, vs as int, 0, false) == scan_obj(v@, i as int, depth as int, in_str),
        decreases v.len() - i,
    {
        let c = v[i];
        if in_str {
            if c == '\\' {
                if v.len() - i <= 2 {
                    assert(scan_obj(v@, i + 2, depth as int, true) is None);
                    assert(scan_obj(v@, v.len() as int, depth as int, true) is None);
                    i = v.len();
                } else {
                    i += 2;
                }
                continue;
            }
            if c == '"' {
                in_str = false;
            }
        } else {
            if c == '"' {
                in_str = true;
            } else if c == '{' {
                depth += 1;
            } else if c == '}' {
                if depth == 1 {
                    return Some(i + 1);
                }
                depth -= 1;
            }
        }
        i += 1;
    }
    None
}

/// Splits the stored map text into its entries: for each entry the
/// unescaped key and the text of its object, in order.
pub fn split_top_objects(s: &str) -> (r: Vec<(String, String)>)
    ensures
        pairs_view(r@) == split_top(s@),
{
    let v = chars_of(s);
    let mut out: Vec<(String, String)> = Vec::new();
    let first = text::find_char_from_exec(&v, '{', 0);
    let p = match first {
        None => {
            return out;
        },
        Some(p) => p,
    };
    proof {
        text::lemma_find_char_from_bounds(v@, '{', 0);
    }
    assert(p < v.len());
    let mut i: usize = p + 1;
    assert(pairs_view(out@) =~= Seq::<(Seq<char>, Seq<char>)>::empty());
    loop
        invariant_except_break
            i <= v.len(),
            pairs_view(out@) + split_from(v@, i as int) == split_top(v@),
        ensures
            pairs_view(out@) == split_top(v@),
        decreases v.len() + 1 - i,
    {
        let ghost rest = split_from(v@, i as int);
        let mut j = i;
        while j < v.len() && v[j] != '"' && v[j] != '}'
            invariant
                i <= j <= v.len(),
                find_key_start(v@, i as int) == find_key_start(v@, j as int),
            decreases v.len() - j,
        {
            j += 1;
        }
        assert(j == find_key_start(v@, i as int));
        if j >= v.len() || v[j] == '}' {
            assert(rest =~= Seq::<(Seq<char>, Seq<char>)>::empty());
            assert(pairs_view(out@) + rest =~= pairs_view(out@));
            break;
        }
        let ks = j + 1;
        let ke = quote_end_exec(&v, ks, ks);
        proof {
            lemma_quote_end_bounds(v@, ks as int, ks as int);
        }
        let key = unesc_chars(&v, ks, ke);
        if ke >= v.len() {
            assert(text::find_char_from(v@, '{', ke + 1) is None);
            assert(rest =~= Seq::<(Seq<char>, Seq<char>)>::empty());
            assert(pairs_view(out@) + rest =~= pairs_view(out@));
            break;
        }
        let found = text::find_char_from_exec(&v, '{', ke + 1);
        let vs = match found {
            None => {
                assert(rest =~= Seq::<(Seq<char>, Seq<char>)>::empty());
                assert(pairs_view(out@) + rest =~= pairs_view(out@));
                break;
            },
            Some(vs) => vs,
        };
        proof {
            text::lemma_find_char_from_bounds(v@, '{', ke + 1);
        }
        let scanned = scan_obj_exec(&v, vs);
        let end = match scanned {
            None => {
                assert(rest =~= Seq::<(Seq<char>, Seq<char>)>::empty());
                assert(pairs_view(out@) + rest =~= pairs_view(out@));
                break;
            },
            Some(e) => e,
        };
        proof {
            lemma_scan_obj_bounds(v@, vs as int, 0, false);
        }
        let body = string_of_range(&v, vs, end);
        let ghost before = pairs_view(out@);
        out.push((key, body));
        proof {
            assert(pairs_view(out@) == before.push((key@, body@)));
            assert(rest == seq![(key@, body@)] + split_from(v@, end as int));
            assert(before + rest =~= pairs_view(out@) + split_from(v@, end as int));
        }
        i = end;
    }
    out
}

// ---------------------------------------------------------------------------
// Writing the map
// ---------------------------------------------------------------------------

/// One entry as written: the quoted escaped key, a colon, the object text.
pub open spec fn entry_text(k: Seq<char>, b: Seq<char>) -> Seq<char> {
    seq!['"'] + esc_spec(k) + seq!['"', ':'] + b
}

/// The entries after the first one, each preceded by a comma, then the
/// closing brace.
pub open spec fn tail_text(q: Seq<(Seq<char>, Seq<char>)>) -> Seq<char>
    decreases q.len(),
{
    if q.len() == 0 {
        seq!['}']
    } else {
        seq![','] + entry_text(q[0].0, q[0].1) + tail_text(q.drop_first())
    }
}

/// The text of a map holding the entries `q`, in order.
pub open spec fn serialize_spec(q: Seq<(Seq<char>, Seq<char>)>) -> Seq<char> {
    if q.len() == 0 {
        seq!['{', '}']
    } else {
        seq!['{'] + entry_text(q[0].0, q[0].1) + tail_text(q.drop_first())
    }
}

/// Appends one entry (`"key":body`).
fn push_entry(o: &mut String, k: &String, b: &String)
    ensures
        final(o)@ == old(o)@ + entry_text(k@, b@),
{
    let ghost o0 = o@;
    push_char(o, '"');
    let e = esc(k.as_str());
    text::push_str(o, e.as_str());
    push_char(o, '"');
    push_char(o, ':');
    text::push_str(o, b.as_str());
    assert(o@ =~= o0 + entry_text(k@, b@));
}

/// Writes the map text for `pairs` (keys and already formatted object
/// bodies), in the given order.
pub fn serialize_objects(pairs: &Vec<(String, String)>) -> (r: String)
    ensures
        r@ == serialize_spec(pairs_view(pairs@)),
{
    let ghost q = pairs_view(pairs@);
    let mut o = String::new();
    push_char(&mut o, '{');
    if pairs.len() == 0 {
        push_char(&mut o, '}');
        assert(o@ =~= serialize_spec(q));
        return o;
    }
    push_entry(&mut o, &pairs[0].0, &pairs[0].1);
    assert(o@ + tail_text(q.skip(1)) =~= serialize_spec(q)) by {
        assert(q.skip(1) =~= q.drop_first());
    }
    let mut i: usize = 1;
    while i < pairs.len()
        invariant
            1 <= i <= pairs.len(),
            q == pairs_view(pairs@),
            o@ + tail_text(q.skip(i as int)) == serialize_spec(q),
        decreases pairs.len() - i,
    {
        let ghost o0 = o@;
        push_char(&mut o, ',');
        push_entry(&mut o, &pairs[i].0, &pairs[i].1);
        proof {
            let t = q.skip(i as int);
            assert(t[0] == q[i as int]);
            assert(t.drop_first() =~= q.skip(i + 1));
            assert(tail_text(t) == seq![','] + entry_text(t[0].0, t[0].1) + tail_text(t.drop_first()));
            assert(o@ + tail_text(q.skip(i + 1)) =~= o0 + tail_text(t));
        }
        i += 1;
    }
    push_char(&mut o, '}');
    proof {
        assert(q.skip(pairs.len() as int) =~= Seq::<(Seq<char>, Seq<char>)>::empty());
    }
    o
}

// ---------------------------------------------------------------------------
// Reading back what was written
// ---------------------------------------------------------------------------

/// Text with no quote, backslash or brace: inside an object text it neither
/// opens, closes nor escapes anything.
pub open spec fn plain_text(t: Seq<char>) -> bool {
    forall|j: int|
        0 <= j < t.len() ==> #[trigger] t[j] != '"' && t[j] != '\\' && t[j] != '{' && t[j] != '}'
}

/// The scanner passes over plain text in one piece, inside or outside a
/// string.
pub proof fn lemma_scan_plain(s: Seq<char>, p: int, t: Seq<char>, depth: int, in_str: bool)
    requires
        0 <= p,
        p + t.len() <= s.len(),
        s.subrange(p, p + t.len()) == t,
        plain_text(t),
    ensures
        scan_obj(s, p, depth, in_str) == scan_obj(s, p + t.len(), depth, in_str),
    decreases t.len(),
{
    if t.len() > 0 {
        assert(s[p] == s.subrange(p, p + t.len())[0]);
        assert(t[0] != '"' && t[0] != '\\' && t[0] != '{' && t[0] != '}');
        assert(scan_obj(s, p, depth, in_str) == scan_obj(s, p + 1, depth, in_str));
        assert(s.subrange(p + 1, p + 1 + t.drop_first().len()) =~= t.drop_first());
        assert forall|j: int| 0 <= j < t.drop_first().len() implies #[trigger] t.drop_first()[j] != '"'
            && t.drop_first()[j] != '\\' && t.drop_first()[j] != '{' && t.drop_first()[j] != '}' by {
            assert(t.drop_first()[j] == t[j + 1]);
        }
        lemma_scan_plain(s, p + 1, t.drop_first(), depth, in_str);
    }
}

/// Inside a string the scanner passes over an escaped text in one piece.
pub proof fn lemma_scan_esc(s: Seq<char>, p: int, k: Seq<char>, depth: int)
    requires
        0 <= p,
        p + esc_spec(k).len() <= s.len(),
        s.subrange(p, p + esc_spec(k).len()) == esc_spec(k),
    ensures
        scan_obj(s, p, depth, true) == scan_obj(s, p + esc_spec(k).len(), depth, true),
    decreases k.len(),
{
    if k.len() > 0 {
        let c = k[0];
        let e = esc_char(c);
        let r = esc_spec(k.drop_first());
        assert(esc_spec(k) == e + r);
        assert(s.subrange(p, p + e.len()) =~= e) by {
            assert(s.subrange(p, p + e.len()) =~= s.subrange(p, p + esc_spec(k).len()).subrange(
                0,
                e.len() as int,
            ));
        }
        assert(s.subrange(p + e.len(), p + e.len() + r.len()) =~= r) by {
            assert(s.subrange(p + e.len(), p + e.len() + r.len()) =~= s.subrange(
                p,
                p + esc_spec(k).len(),
            ).subrange(e.len() as int, esc_spec(k).len() as int));
        }
        assert(s[p] == e[0]) by {
            assert(s.subrange(p, p + e.len())[0] == s[p]);
        }
        if c == '"' || c == '\\' || c == '\n' || c == '\r' || c == '\t' {
            assert(scan_obj(s, p, depth, true) == scan_obj(s, p + 2, depth, true));
        } else if (c as u32) < 0x20 {
            let v = c as u32 as nat;
            let h = hex4(v);
            assert(scan_obj(s, p, depth, true) == scan_obj(s, p + 2, depth, true));
            assert(v / 4096 < 16 && (v / 256) % 16 < 16 && (v / 16) % 16 < 16 && v % 16 < 16);
            assert(e.subrange(2, 6) =~= h);
            assert(s.subrange(p + 2, p + 6) =~= h) by {
                assert(s.subrange(p + 2, p + 6) =~= s.subrange(p, p + e.len()).subrange(2, 6));
            }
            assert forall|j: int| 0 <= j < h.len() implies #[trigger] h[j] != '"' && h[j] != '\\'
                && h[j] != '{' && h[j] != '}' by {
                let d: nat = if j == 0 {
                    v / 4096
                } else if j == 1 {
                    (v / 256) % 16
                } else if j == 2 {
                    (v / 16) % 16
                } else {
                    v % 16
                };
                assert(h[j] == hex_char(d));
                assert(d < 16);
                if d < 10 {
                    assert(0x30 <= ('0' as u32) + d < 0x3a);
                } else {
                    assert(0x61 <= ('a' as u32) + (d - 10) < 0x67);
                }
            }
            lemma_scan_plain(s, p + 2, h, depth, true);
        } else {
            assert(e.len() == 1);
            assert(scan_obj(s, p, depth, true) == scan_obj(s, p + 1, depth, true));
        }
        lemma_scan_esc(s, p + e.len(), k.drop_first(), depth);
    }
}

/// The scanner passes over a key and its colon, `"key":`, outside a string.
pub proof fn lemma_scan_key(s: Seq<char>, p: int, key: Seq<char>, depth: int)
    requires
        0 <= p,
        p + key.len() + 3 <= s.len(),
        s.subrange(p, p + key.len() + 3) == seq!['"'] + key + seq!['"', ':'],
        plain_text(key),
    ensures
        scan_obj(s, p, depth, false) == scan_obj(s, p + key.len() + 3, depth, false),
{
    let t = seq!['"'] + key + seq!['"', ':'];
    assert(s[p] == t[0]) by {
        assert(s.subrange(p, p + key.len() + 3)[0] == s[p]);
    }
    assert(scan_obj(s, p, depth, false) == scan_obj(s, p + 1, depth, true));
    assert(s.subrange(p + 1, p + 1 + key.len()) =~= key) by {
        assert(s.subrange(p + 1, p + 1 + key.len()) =~= s.subrange(p, p + key.len() + 3).subrange(
            1,
            key.len() as int + 1,
        ));
    }
    lemma_scan_plain(s, p + 1, key, depth, true);
    let q = p + 1 + key.len();
    assert(s[q] == t[key.len() as int + 1]) by {
        assert(s.subrange(p, p + key.len() + 3)[key.len() as int + 1] == s[q]);
    }
    assert(s[q + 1] == t[key.len() as int + 2]) by {
        assert(s.subrange(p, p + key.len() + 3)[key.len() as int + 2] == s[q + 1]);
    }
    assert(scan_obj(s, q, depth, true) == scan_obj(s, q + 1, depth, false));
    assert(scan_obj(s, q + 1, depth, false) == scan_obj(s, q + 2, depth, false));
}

/// A complete scan of a text placed at `o` inside a longer text ends at the
/// same place, shifted by `o`.
pub proof fn lemma_scan_embed_pub(b: Seq<char>, s: Seq<char>, o: int)
    requires
        0 <= o,
        o + b.len() <= s.len(),
        s.subrange(o, o + b.len()) == b,
        scan_obj(b, 0, 1, false) == Some(b.len() as int),
    ensures
        scan_obj(s, o, 1, false) == Some(o + b.len()),
{
    lemma_scan_embed(b, s, o, 0, 1, false);
}

/// Splitting a known prefix `x + t` of `s`: `x` is a prefix too, and `t`
/// stands right after it.
pub proof fn lemma_prefix_step(s: Seq<char>, x: Seq<char>, t: Seq<char>)
    requires
        (x + t).len() <= s.len(),
        s.subrange(0, (x + t).len() as int) == x + t,
    ensures
        s.subrange(0, x.len() as int) == x,
        s.subrange(x.len() as int, x.len() as int + t.len()) == t,
{
    let n = x.len() as int;
    let m = t.len() as int;
    assert(s.subrange(0, n) =~= s.subrange(0, n + m).subrange(0, n));
    assert(s.subrange(0, n + m).subrange(0, n) =~= x);
    assert(s.subrange(n, n + m) =~= s.subrange(0, n + m).subrange(n, n + m));
    assert(s.subrange(0, n + m).subrange(n, n + m) =~= t);
}

/// The scanner passes over `,"key":` outside a string.
pub proof fn lemma_scan_comma_key(s: Seq<char>, o: int, key: Seq<char>, depth: int)
    requires
        0 <= o,
        o + key.len() + 4 <= s.len(),
        s.subrange(o, o + key.len() + 4) == seq![','] + (seq!['"'] + key + seq!['"', ':']),
        plain_text(key),
    ensures
        scan_obj(s, o, depth, false) == scan_obj(s, o + key.len() + 4, depth, false),
{
    let n = key.len() as int;
    assert(s[o] == ',') by {
        assert(s.subrange(o, o + n + 4)[0] == s[o]);
    }
    assert(scan_obj(s, o, depth, false) == scan_obj(s, o + 1, depth, false));
    assert(s.subrange(o + 1, o + 1 + n + 3) =~= seq!['"'] + key + seq!['"', ':']) by {
        assert(s.subrange(o + 1, o + 1 + n + 3) =~= s.subrange(o, o + n + 4).subrange(1, n + 4));
    }
    lemma_scan_key(s, o + 1, key, depth);
}

/// Plain text in front of a scanned tail shifts where the scan ends.
pub proof fn lemma_scan_cat_plain(t: Seq<char>, u: Seq<char>, depth: int, in_str: bool)
    requires
        plain_text(t),
        scan_obj(u, 0, depth, in_str) is Some,
    ensures
        scan_obj(t + u, 0, depth, in_str) == Some(t.len() + scan_obj(u, 0, depth, in_str)->0),
{
    let s = t + u;
    let n = t.len() as int;
    let m = u.len() as int;
    assert(s.subrange(0, n) =~= t);
    lemma_scan_plain(s, 0, t, depth, in_str);
    assert(s.subrange(n, n + m) =~= u);
    lemma_scan_embed(u, s, n, 0, depth, in_str);
}

/// A key and its colon in front of a scanned tail.
pub proof fn lemma_scan_cat_key(key: Seq<char>, u: Seq<char>, depth: int)
    requires
        plain_text(key),
        scan_obj(u, 0, depth, false) is Some,
    ensures
        scan_obj(seq!['"'] + key + seq!['"', ':'] + u, 0, depth, false) == Some(
            key.len() + 3 + scan_obj(u, 0, depth, false)->0,
        ),
{
    let k = seq!['"'] + key + seq!['"', ':'];
    let s = k + u;
    let n = k.len() as int;
    let m = u.len() as int;
    assert(s.subrange(0, n) =~= k);
    lemma_scan_key(s, 0, key, depth);
    assert(s.subrange(n, n + m) =~= u);
    lemma_scan_embed(u, s, n, 0, depth, false);
}

/// A string holding an escaped text in front of a scanned tail.
pub proof fn lemma_scan_cat_str(k: Seq<char>, u: Seq<char>, depth: int)
    requires
        scan_obj(u, 0, depth, false) is Some,
    ensures
        scan_obj(seq!['"'] + esc_spec(k) + seq!['"'] + u, 0, depth, false) == Some(
            esc_spec(k).len() + 2 + scan_obj(u, 0, depth, false)->0,
        ),
{
    let e = esc_spec(k);
    let w = seq!['"'] + e + seq!['"'];
    let s = w + u;
    let n = e.len() as int;
    let wn = w.len() as int;
    let m = u.len() as int;
    assert(s[0] == '"');
    assert(scan_obj(s, 0, depth, false) == scan_obj(s, 1, depth, true));
    assert(s.subrange(1, 1 + n) =~= e);
    lemma_scan_esc(s, 1, k, depth);
    assert(s[1 + n] == '"');
    assert(scan_obj(s, 1 + n, depth, true) == scan_obj(s, 2 + n, depth, false));
    assert(s.subrange(wn, wn + m) =~= u);
    lemma_scan_embed(u, s, wn, 0, depth, false);
}

/// A complete object: it opens with a brace and the brace scanner closes it
/// exactly at its last character.
pub open spec fn object_text(b: Seq<char>) -> bool {
    b.len() > 0 && b[0] == '{' && scan_obj(b, 0, 0, false) == Some(b.len() as int)
}

/// The scanner runs the same way on an object placed inside a longer text.
proof fn lemma_scan_embed(b: Seq<char>, s: Seq<char>, o: int, m: int, depth: int, in_str: bool)
    requires
        0 <= o,
        o + b.len() <= s.len(),
        s.subrange(o, o + b.len()) == b,
        scan_obj(b, m, depth, in_str) is Some,
    ensures
        scan_obj(s, o + m, depth, in_str) == Some(o + scan_obj(b, m, depth, in_str)->0),
    decreases b.len() + 1 - m,
{
    assert(0 <= m < b.len());
    assert(s[o + m] == b[m]);
    let c = b[m];
    if in_str {
        if c == '\\' {
            lemma_scan_embed(b, s, o, m + 2, depth, true);
        } else if c == '"' {
            lemma_scan_embed(b, s, o, m + 1, depth, false);
        } else {
            lemma_scan_embed(b, s, o, m + 1, depth, true);
        }
    } else if c == '"' {
        lemma_scan_embed(b, s, o, m + 1, depth, true);
    } else if c == '{' {
        lemma_scan_embed(b, s, o, m + 1, depth + 1, false);
    } else if c == '}' {
        if depth - 1 != 0 {
            lemma_scan_embed(b, s, o, m + 1, depth - 1, false);
        }
    } else {
        lemma_scan_embed(b, s, o, m + 1, depth, false);
    }
}

/// Positions that hold no unescaped quote are skipped by `quote_end`.
proof fn lemma_quote_end_skip(s: Seq<char>, lo: int, p: int, q: int)
    requires
        0 <= p <= q <= s.len(),
        forall|j: int| p <= j < q ==> !is_closing_quote(s, lo, j),
    ensures
        quote_end(s, lo, p) == quote_end(s, lo, q),
    decreases q - p,
{
    if p < q {
        lemma_quote_end_skip(s, lo, p + 1, q);
    }
}

/// After an escaped character the count of backslashes is even again, and no
/// quote inside it is unescaped.
proof fn lemma_esc_char_quotes(c: char, s: Seq<char>, lo: int, p: int)
    requires
        0 <= lo <= p,
        p + esc_char(c).len() <= s.len(),
        s.subrange(p, p + esc_char(c).len()) == esc_char(c),
        bs_run(s, lo, p) % 2 == 0,
    ensures
        forall|j: int| p <= j < p + esc_char(c).len() ==> !is_closing_quote(s, lo, j),
        bs_run(s, lo, p + esc_char(c).len()) % 2 == 0,
{
    let e = esc_char(c);
    assert forall|j: int| 0 <= j < e.len() implies s[p + j] == #[trigger] e[j] by {
        assert(s.subrange(p, p + e.len())[j] == s[p + j]);
    }
    if c == '"' || c == '\\' || c == '\n' || c == '\r' || c == '\t' {
        assert(e.len() == 2);
        assert(s[p] == '\\');
        assert(bs_run(s, lo, p + 1) == 1 + bs_run(s, lo, p));
        if c == '\\' {
            assert(s[p + 1] == '\\');
            assert(bs_run(s, lo, p + 2) == 1 + bs_run(s, lo, p + 1));
        } else {
            assert(s[p + 1] != '\\');
            assert(bs_run(s, lo, p + 2) == 0);
        }
    } else if (c as u32) < 0x20 {
        let v = c as u32 as nat;
        assert(e.len() == 6);
        assert(e[0] == '\\');
        assert(e[1] == 'u');
        assert(e[2] == hex_char(v / 4096));
        assert(e[3] == hex_char((v / 256) % 16));
        assert(e[4] == hex_char((v / 16) % 16));
        assert(e[5] == hex_char(v % 16));
        assert(s[p] == '\\');
        assert(s[p + 1] == 'u');
        assert(v / 4096 == 0);
        assert((v / 256) % 16 == 0);
        assert((v / 16) % 16 == v / 16);
        assert(hex_char(0) == '0');
        assert(s[p + 2] == '0');
        assert(s[p + 3] == '0');
        assert(s[p + 4] != '"' && s[p + 4] != '\\');
        assert(s[p + 5] == hex_char(v % 16));
        assert(s[p + 5] != '"' && s[p + 5] != '\\') by {
            if v % 16 < 10 {
            } else {
            }
        }
        assert(bs_run(s, lo, p + 6) == 0);
    } else {
        assert(e.len() == 1);
        assert(e[0] == c);
        assert(s[p] == c);
        assert(bs_run(s, lo, p + 1) == 0);
    }
}

/// The closing quote after an escaped key is the first unescaped one.
proof fn lemma_quote_end_after_esc(k: Seq<char>, s: Seq<char>, lo: int, p: int)
    requires
        0 <= lo <= p,
        p + esc_spec(k).len() < s.len(),
        s.subrange(p, p + esc_spec(k).len()) == esc_spec(k),
        s[p + esc_spec(k).len()] == '"',
        bs_run(s, lo, p) % 2 == 0,
    ensures
        quote_end(s, lo, p) == p + esc_spec(k).len(),
    decreases k.len(),
{
    if k.len() == 0 {
        assert(is_closing_quote(s, lo, p));
    } else {
        let e = esc_char(k[0]);
        let r = esc_spec(k.drop_first());
        assert(esc_spec(k) == e + r);
        assert(s.subrange(p, p + e.len()) =~= e) by {
            assert(s.subrange(p, p + e.len()) =~= s.subrange(p, p + esc_spec(k).len()).subrange(0, e.len() as int));
        }
        assert(s.subrange(p + e.len(), p + e.len() + r.len()) =~= r) by {
            assert(s.subrange(p + e.len(), p + e.len() + r.len()) =~= s.subrange(p, p + esc_spec(k).len()).subrange(e.len() as int, esc_spec(k).len() as int));
        }
        lemma_esc_char_quotes(k[0], s, lo, p);
        lemma_quote_end_skip(s, lo, p, p + e.len());
        lemma_quote_end_after_esc(k.drop_first(), s, lo, p + e.len());
    }
}

/// One written entry is read back as itself.
proof fn lemma_split_entry(s: Seq<char>, i: int, k: Seq<char>, b: Seq<char>)
    requires
        0 <= i,
        i + entry_text(k, b).len() <= s.len(),
        s.subrange(i, i + entry_text(k, b).len()) == entry_text(k, b),
        object_text(b),
    ensures
        split_from(s, i) == seq![(k, b)] + split_from(s, i + entry_text(k, b).len()),
{
    let e = esc_spec(k);
    let en = entry_text(k, b);
    let n = e.len() as int;
    assert forall|j: int| 0 <= j < en.len() implies s[i + j] == #[trigger] en[j] by {
        assert(s.subrange(i, i + en.len())[j] == s[i + j]);
    }
    assert(en[0] == '"');
    assert(s[i] == '"');
    assert(find_key_start(s, i) == i);
    let ks = i + 1;
    assert(s.subrange(ks, ks + n) =~= e) by {
        assert forall|j: int| 0 <= j < n implies s.subrange(ks, ks + n)[j] == e[j] by {
            assert(en[1 + j] == e[j]);
        }
    }
    assert(en[1 + n] == '"');
    assert(s[ks + n] == '"');
    assert(bs_run(s, ks, ks) == 0);
    lemma_quote_end_after_esc(k, s, ks, ks);
    let ke = ks + n;
    assert(quote_end(s, ks, ks) == ke);
    lemma_unesc_esc(k);
    assert(s.subrange(ks, ke) == e);
    assert(en[2 + n] == ':');
    assert(s[ke + 1] == ':');
    let vs = ke + 2;
    assert(en[3 + n] == b[0]);
    assert(s[vs] == '{');
    assert(text::find_char_from(s, '{', ke + 1) == Some(vs)) by {
        assert(text::find_char_from(s, '{', ke + 1) == text::find_char_from(s, '{', ke + 2));
    }
    assert(s.subrange(vs, vs + b.len()) =~= b) by {
        assert forall|j: int| 0 <= j < b.len() implies s.subrange(vs, vs + b.len())[j] == b[j] by {
            assert(en[3 + n + j] == b[j]);
        }
    }
    lemma_scan_embed(b, s, vs, 0, 0, false);
    assert(scan_obj(s, vs, 0, false) == Some(vs + b.len()));
    assert(vs + b.len() == i + en.len());
}

/// The rest of a written map (commas, entries, closing brace) is read back
/// as its entries.
proof fn lemma_split_tail(s: Seq<char>, i: int, q: Seq<(Seq<char>, Seq<char>)>)
    requires
        0 <= i,
        i + tail_text(q).len() <= s.len(),
        s.subrange(i, i + tail_text(q).len()) == tail_text(q),
        forall|j: int| 0 <= j < q.len() ==> object_text(#[trigger] q[j].1),
    ensures
        split_from(s, i) == q,
    decreases q.len(),
{
    let t = tail_text(q);
    assert(s[i] == t[0]) by {
        assert(s.subrange(i, i + t.len())[0] == s[i]);
    }
    if q.len() == 0 {
        assert(find_key_start(s, i) == i);
    } else {
        let en = entry_text(q[0].0, q[0].1);
        let rest = tail_text(q.drop_first());
        assert(t == seq![','] + en + rest);
        assert(s[i] == ',');
        assert(s[i + 1] == '"') by {
            assert(s.subrange(i, i + t.len())[1] == s[i + 1]);
            assert(en[0] == '"');
        }
        assert(find_key_start(s, i + 1) == i + 1);
        assert(find_key_start(s, i) == i + 1);
        assert(split_from(s, i) == split_from(s, i + 1));
        assert(s.subrange(i + 1, i + 1 + en.len()) =~= en) by {
            assert(s.subrange(i + 1, i + 1 + en.len()) =~= s.subrange(i, i + t.len()).subrange(1, 1 + en.len() as int));
        }
        assert(object_text(q[0].1));
        lemma_split_entry(s, i + 1, q[0].0, q[0].1);
        assert(s.subrange(i + 1 + en.len(), i + 1 + en.len() + rest.len()) =~= rest) by {
            assert(s.subrange(i + 1 + en.len(), i + 1 + en.len() + rest.len()) =~= s.subrange(i, i + t.len()).subrange(1 + en.len() as int, t.len() as int));
        }
        assert forall|j: int| 0 <= j < q.drop_first().len() implies object_text(#[trigger] q.drop_first()[j].1) by {
            assert(q.drop_first()[j] == q[j + 1]);
        }
        lemma_split_tail(s, i + 1 + en.len(), q.drop_first());
        assert(seq![(q[0].0, q[0].1)] + q.drop_first() =~= q);
    }
}

/// Reading a written map gives back exactly the entries written, keys and
/// object texts, in order, provided each object text is one complete object.
pub proof fn lemma_split_serialize(q: Seq<(Seq<char>, Seq<char>)>)
    requires
        forall|j: int| 0 <= j < q.len() ==> object_text(#[trigger] q[j].1),
    ensures
        split_top(serialize_spec(q)) == q,
{
    let s = serialize_spec(q);
    assert(s[0] == '{');
    assert(text::find_char_from(s, '{', 0) == Some(0int));
    if q.len() == 0 {
        assert(s[1] == '}');
        assert(find_key_start(s, 1) == 1);
    } else {
        let en = entry_text(q[0].0, q[0].1);
        let rest = tail_text(q.drop_first());
        assert(s == seq!['{'] + en + rest);
        assert(s.subrange(1, 1 + en.len() as int) =~= en);
        lemma_split_entry(s, 1, q[0].0, q[0].1);
        assert(s.subrange(1 + en.len() as int, (1 + en.len() + rest.len()) as int) =~= rest);
        assert forall|j: int| 0 <= j < q.drop_first().len() implies object_text(#[trigger] q.drop_first()[j].1) by {
            assert(q.drop_first()[j] == q[j + 1]);
        }
        lemma_split_tail(s, 1 + en.len() as int, q.drop_first());
        assert(seq![(q[0].0, q[0].1)] + q.drop_first() =~= q);
    }
}

// ---------------------------------------------------------------------------
// String fields
// ---------------------------------------------------------------------------

/// The string field `key` of a flat JSON object text: after the first
/// `"key":`, white space is skipped; the value must open with a quote and runs
/// to the next unescaped quote (or the end); the value is unescaped.
pub open spec fn jstr_spec(s: Seq<char>, key: Seq<char>) -> Option<Seq<char>> {
    let pat = seq!['"'] + key + seq!['"', ':'];
    match text::find(s, pat) {
        None => None,
        Some(i) => {
            let rest = text::trim_start(s.skip(i + pat.len()));
            if rest.len() == 0 || rest[0] != '"' {
                None
            } else {
                let body = rest.drop_first();
                Some(unesc_spec(body.take(quote_end(body, 0, 0))))
            }
        },
    }
}

/// The text `"key":` that introduces field `key`.
fn key_pattern(key: &str) -> (pat: Vec<char>)
    ensures
        pat@ == seq!['"'] + key@ + seq!['"', ':'],
{
    let kv = chars_of(key);
    let mut pat: Vec<char> = Vec::new();
    pat.push('"');
    let mut t: usize = 0;
    while t < kv.len()
        invariant
            t <= kv.len(),
            pat@ == seq!['"'] + kv@.take(t as int),
        decreases kv.len() - t,
    {
        pat.push(kv[t]);
        assert(kv@.take(t as int + 1) == kv@.take(t as int).push(kv@[t as int]));
        t += 1;
    }
    pat.push('"');
    pat.push(':');
    assert(kv@.take(kv.len() as int) == kv@);
    assert(pat@ =~= seq!['"'] + key@ + seq!['"', ':']);
    pat
}

/// A character that may belong to a number's text: a digit, `.` or `-`,
/// and with `sci` also `e` and `+`.
pub open spec fn num_char(c: char, sci: bool) -> bool {
    text::is_digit(c) || c == '.' || c == '-' || (sci && (c == 'e' || c == '+'))
}

/// How many number characters `s` starts with.
pub open spec fn num_run(s: Seq<char>, sci: bool) -> nat
    decreases s.len(),
{
    if s.len() > 0 && num_char(s[0], sci) {
        1 + num_run(s.drop_first(), sci)
    } else {
        0
    }
}

proof fn lemma_num_run(s: Seq<char>, sci: bool, k: int)
    requires
        0 <= k <= s.len(),
        forall|j: int| 0 <= j < k ==> num_char(#[trigger] s[j], sci),
    ensures
        num_run(s, sci) == k + num_run(s.skip(k), sci),
    decreases k,
{
    if k > 0 {
        assert forall|j: int| 0 <= j < k - 1 implies num_char(#[trigger] s.drop_first()[j], sci) by {
            assert(s.drop_first()[j] == s[j + 1]);
        }
        lemma_num_run(s.drop_first(), sci, k - 1);
        assert(s.drop_first().skip(k - 1) =~= s.skip(k));
    } else {
        assert(s.skip(0) =~= s);
    }
}

/// The text of the number field `key` in a flat JSON object: the number
/// characters right after the first `"key":`, white space skipped first when
/// `sci` (`None` when the field is absent).
pub open spec fn number_text_spec(s: Seq<char>, key: Seq<char>, sci: bool) -> Option<Seq<char>> {
    let pat = seq!['"'] + key + seq!['"', ':'];
    match text::find(s, pat) {
        None => None,
        Some(i) => {
            let rest0 = s.skip(i + pat.len());
            let rest = if sci {
                text::trim_start(rest0)
            } else {
                rest0
            };
            Some(rest.take(num_run(rest, sci) as int))
        },
    }
}

/// The run of number characters from `a` on.
fn number_run_end(v: &Vec<char>, a: usize, sci: bool) -> (e: usize)
    requires
        a <= v.len(),
    ensures
        a <= e <= v.len(),
        v@.skip(a as int).take(num_run(v@.skip(a as int), sci) as int) == v@.subrange(a as int, e as int),
{
    let mut e = a;
    while e < v.len() && (('0' <= v[e] && v[e] <= '9') || v[e] == '.' || v[e] == '-' || (sci && (
    v[e] == 'e' || v[e] == '+')))
        invariant
            a <= e <= v.len(),
            forall|j: int| a <= j < e ==> num_char(#[trigger] v@[j], sci),
        decreases v.len() - e,
    {
        e += 1;
    }
    proof {
        let t = v@.skip(a as int);
        assert forall|j: int| 0 <= j < e - a implies num_char(#[trigger] t[j], sci) by {
            assert(t[j] == v@[a + j]);
        }
        lemma_num_run(t, sci, e - a);
        let u = t.skip(e - a);
        if u.len() > 0 {
            assert(u[0] == v@[e as int]);
        }
        assert(num_run(u, sci) == 0);
        assert(t.take(e - a) =~= v@.subrange(a as int, e as int));
    }
    e
}

fn number_field(s: &str, key: &str, sci: bool) -> (r: Option<String>)
    ensures
        crate::config::opt_view(r) == number_text_spec(s@, key@, sci),
{
    let v = chars_of(s);
    let pat = key_pattern(key);
    let i = match text::find_from_exec(&v, &pat, 0) {
        None => {
            return None;
        },
        Some(i) => i,
    };
    proof {
        text::lemma_find_from_bounds(v@, pat@, 0);
    }
    assert(i + pat.len() <= v.len());
    let start = i + pat.len();
    let tail = slice_range(&v, start, v.len());
    assert(tail@ =~= v@.skip(start as int));
    let a = if sci {
        text::trim_start_index(&tail)
    } else {
        0
    };
    assert(tail@.skip(0) =~= tail@);
    let e = number_run_end(&tail, a, sci);
    Some(string_of_range(&tail, a, e))
}

/// `jnum`'s text: the number characters (digits, `.`, `-`, `e`, `+`) of
/// field `key` after skipping white space; the caller reads them as a
/// floating point number.
pub fn number_text(s: &str, key: &str) -> (r: Option<String>)
    ensures
        crate::config::opt_view(r) == number_text_spec(s@, key@, true),
{
    number_field(s, key, true)
}

/// The text of a numeric field of the cached document facts: digits, `.`
/// and `-` right after `"key":`.
pub fn plain_number_text(s: &str, key: &str) -> (r: Option<String>)
    ensures
        crate::config::opt_view(r) == number_text_spec(s@, key@, false),
{
    number_field(s, key, false)
}

/// A string field written as `"key":"` + escaped text + `"`, with no
/// earlier `"key":` in the text, reads back as the text itself.
pub proof fn lemma_jstr_reads_back(s: Seq<char>, key: Seq<char>, i: int, v: Seq<char>)
    requires
        text::occurs_at(s, seq!['"'] + key + seq!['"', ':'], i),
        forall|j: int| 0 <= j < i ==> !text::occurs_at(s, seq!['"'] + key + seq!['"', ':'], j),
        i + key.len() + 3 + esc_spec(v).len() + 2 <= s.len(),
        s.subrange(i + key.len() + 3, i + key.len() + 3 + esc_spec(v).len() + 2) == seq!['"']
            + esc_spec(v) + seq!['"'],
    ensures
        jstr_spec(s, key) == Some(v),
{
    let pat = seq!['"'] + key + seq!['"', ':'];
    let e = esc_spec(v);
    let n = e.len() as int;
    let st = i + pat.len();
    text::lemma_find_from_bounds(s, pat, 0);
    assert(text::find(s, pat) == Some(i)) by {
        match text::find_from(s, pat, 0) {
            Some(k) => {
                if k < i {
                } else if k > i {
                    assert(!text::occurs_at(s, pat, i));
                }
            },
            None => {
                assert(!text::occurs_at(s, pat, i));
            },
        }
    }
    let rest0 = s.skip(st);
    assert(rest0[0] == '"') by {
        assert(s.subrange(st, st + n + 2)[0] == s[st]);
    }
    assert(!text::is_ws('"'));
    assert(text::lead_ws(rest0) == 0);
    assert(text::trim_start(rest0) =~= rest0);
    let body = rest0.drop_first();
    assert(body.subrange(0, n) =~= e) by {
        assert forall|j: int| 0 <= j < n implies body.subrange(0, n)[j] == e[j] by {
            assert(body[j] == s[st + 1 + j]);
            assert(s.subrange(st, st + n + 2)[1 + j] == s[st + 1 + j]);
        }
    }
    assert(body[n] == '"') by {
        assert(body[n] == s[st + 1 + n]);
        assert(s.subrange(st, st + n + 2)[1 + n] == s[st + 1 + n]);
    }
    assert(bs_run(body, 0, 0) == 0);
    lemma_quote_end_after_esc(v, body, 0, 0);
    assert(body.take(n) =~= e);
    lemma_unesc_esc(v);
}

/// Reads the string field `key` from a flat JSON object text.
pub fn jstr(s: &str, key: &str) -> (r: Option<String>)
    ensures
        r matches Some(x) ==> jstr_spec(s@, key@) == Some(x@),
        r is None ==> jstr_spec(s@, key@) is None,
{
    let v = chars_of(s);
    let pat = key_pattern(key);
    let found = text::find_from_exec(&v, &pat, 0);
    let i = match found {
        None => {
            return None;
        },
        Some(i) => i,
    };
    proof {
        text::lemma_find_from_bounds(v@, pat@, 0);
    }
    assert(i + pat.len() <= v.len());
    let start = i + pat.len();
    let tail = slice_range(&v, start, v.len());
    assert(tail@ =~= v@.skip(start as int));
    let a = text::trim_start_index(&tail);
    if a >= tail.len() || tail[a] != '"' {
        return None;
    }
    let body = slice_range(&tail, a + 1, tail.len());
    proof {
        assert(text::trim_start(tail@) == tail@.skip(a as int));
        assert(body@ =~= tail@.skip(a as int).drop_first());
    }
    let end = quote_end_exec(&body, 0, 0);
    proof {
        lemma_quote_end_bounds(body@, 0, 0);
    }
    let out = unesc_chars(&body, 0, end);
    assert(body@.subrange(0, end as int) =~= body@.take(end as int));
    Some(out)
}

} // verus!
