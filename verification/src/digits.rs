//! Digit runs and lower-case mapping used by the natural name order.

use vstd::prelude::*;
use crate::text;

verus! {

/// The first character of the lower-case mapping of `c`
/// (`c.to_lowercase().next()`); the mapping is Unicode data.
pub uninterp spec fn lower_first_spec(c: char) -> char;

/// The first character of `c.to_lowercase()` (never empty, so the fallback to
/// `c` itself is not reached). Of an ASCII character the lower-case mapping is
/// its ASCII lower case: `A`..`Z` become `a`..`z`, every other ASCII character
/// has no mapping and stays itself; no character outside ASCII lower-cases to
/// an ASCII digit (Unicode case data).
#[verifier::external_body]
pub(crate) fn lower_first(c: char) -> (r: char)
    ensures
        r == lower_first_spec(c),
        (c as u32) < 0x80 ==> r == text::ascii_lower(c),
        (c as u32) >= 0x80 ==> !text::is_digit(r),
{
    c.to_lowercase().next().unwrap_or(c)
}

/// The character a non-digit is compared by in natural order: its ASCII lower
/// case for an ASCII character, else the first character of its lower-case
/// mapping.
pub open spec fn char_key(c: char) -> char {
    if (c as u32) < 0x80 {
        text::ascii_lower(c)
    } else {
        lower_first_spec(c)
    }
}

/// A character below 0x80 is ASCII.
pub open spec fn is_ascii(c: char) -> bool {
    (c as u32) < 0x80
}

/// The comparison key of a character: its lower-case mapping, which is its
/// ASCII lower case for an ASCII character.
pub fn char_key_exec(c: char) -> (r: char)
    ensures
        r == char_key(c),
        key_not_digit(c),
{
    lower_first(c)
}

/// A character outside ASCII whose comparison key is not an ASCII digit (as
/// Unicode case data has it for every character; `char_key_exec` shows it of
/// each character it is called on).
pub open spec fn key_not_digit(c: char) -> bool {
    !is_ascii(c) ==> !text::is_digit(lower_first_spec(c))
}

/// Every character of `s` has a comparison key that is not a digit unless it
/// is one.
pub open spec fn keys_not_digits(s: Seq<char>) -> bool {
    forall|i: int| 0 <= i < s.len() ==> key_not_digit(#[trigger] s[i])
}

/// The keys after a leading digit run, and after the first character, are
/// checked when those of the whole are.
pub proof fn lemma_keys_rest(s: Seq<char>)
    requires
        keys_not_digits(s),
    ensures
        keys_not_digits(after_digit_run(s)),
        s.len() > 0 ==> keys_not_digits(s.drop_first()),
{
    lemma_lead_digits(s);
    lemma_keys_skip(s, lead_digits(s) as int);
    if s.len() > 0 {
        lemma_keys_skip(s, 1);
        assert(s.skip(1) =~= s.drop_first());
    }
}

/// `k` zero digits.
pub open spec fn zeros(k: nat) -> Seq<char> {
    Seq::new(k, |i: int| '0')
}

proof fn lemma_zeros_value(k: nat)
    ensures
        digits_value(zeros(k)) == 0,
    decreases k,
{
    if k > 0 {
        assert(zeros(k).drop_last() =~= zeros((k - 1) as nat));
        lemma_zeros_value((k - 1) as nat);
    }
}

proof fn lemma_zeros_prefix_value(k: nat, d: Seq<char>)
    ensures
        digits_value(zeros(k) + d) == digits_value(d),
    decreases d.len(),
{
    if d.len() == 0 {
        assert(zeros(k) + d =~= zeros(k));
        lemma_zeros_value(k);
    } else {
        assert((zeros(k) + d).drop_last() =~= zeros(k) + d.drop_last());
        assert((zeros(k) + d).last() == d.last());
        lemma_zeros_prefix_value(k, d.drop_last());
    }
}

/// Zeros in front of a digit run neither change its value nor what follows
/// it.
pub proof fn lemma_zeros_run(k: nat, a: Seq<char>)
    requires
        a.len() > 0,
        text::is_digit(a[0]),
    ensures
        run_value(digit_run(zeros(k) + a)) == run_value(digit_run(a)),
        after_digit_run(zeros(k) + a) == after_digit_run(a),
        (zeros(k) + a).len() > 0,
        text::is_digit((zeros(k) + a)[0]),
{
    let z = zeros(k);
    let s = z + a;
    lemma_lead_digits(a);
    let n = lead_digits(a) as int;
    assert forall|j: int| 0 <= j < k + n implies text::is_digit(#[trigger] s[j]) by {
        if j < k {
            assert(s[j] == '0');
        } else {
            assert(s[j] == a[j - k]);
        }
    }
    if k + n < s.len() {
        assert(s[k + n] == a[n]);
    }
    lemma_lead_digits_is(s, k + n);
    assert(digit_run(s) =~= z + digit_run(a));
    lemma_zeros_prefix_value(k, digit_run(a));
    assert(after_digit_run(s) =~= after_digit_run(a));
    assert(s[0] == if k > 0 { '0' } else { a[0] });
}

/// The value of a run of digits is the value of its decimal numeral.
proof fn lemma_digits_value_dec(d: Seq<char>)
    ensures
        digits_value(d) == text::dec_value(d),
    decreases d.len(),
{
    if d.len() > 0 {
        lemma_digits_value_dec(d.drop_last());
    }
}

/// The decimal numeral of a number up to `u64::MAX`, followed by a text that
/// does not start with a digit, starts with a digit run of that value and
/// nothing else.
pub proof fn lemma_dec_run(n: nat, s: Seq<char>)
    requires
        n <= u64::MAX,
        s.len() == 0 || !text::is_digit(s[0]),
    ensures
        (text::dec(n) + s).len() > 0,
        text::is_digit((text::dec(n) + s)[0]),
        run_value(digit_run(text::dec(n) + s)) == n,
        after_digit_run(text::dec(n) + s) == s,
{
    let d = text::dec(n);
    let t = d + s;
    text::lemma_dec_digits(n);
    assert forall|j: int| 0 <= j < d.len() implies text::is_digit(#[trigger] t[j]) by {
        assert(t[j] == d[j]);
    }
    if d.len() < t.len() {
        assert(t[d.len() as int] == s[0]);
    }
    lemma_lead_digits_is(t, d.len() as int);
    assert(digit_run(t) =~= d);
    assert(after_digit_run(t) =~= s);
    lemma_digits_value_dec(d);
    text::lemma_dec_value(n);
    assert(t[0] == d[0]);
}

/// The keys of a suffix are checked when those of the whole are.
pub proof fn lemma_keys_skip(s: Seq<char>, k: int)
    requires
        keys_not_digits(s),
        0 <= k <= s.len(),
    ensures
        keys_not_digits(s.skip(k)),
{
    assert forall|i: int| 0 <= i < s.skip(k).len() implies key_not_digit(#[trigger] s.skip(k)[i]) by {
        assert(s.skip(k)[i] == s[i + k]);
    }
}

/// Number of ASCII digits at the start of `s`.
pub open spec fn lead_digits(s: Seq<char>) -> nat
    decreases s.len(),
{
    if s.len() > 0 && text::is_digit(s[0]) {
        1 + lead_digits(s.drop_first())
    } else {
        0
    }
}

pub proof fn lemma_lead_digits(s: Seq<char>)
    ensures
        lead_digits(s) <= s.len(),
        forall|j: int| 0 <= j < lead_digits(s) ==> text::is_digit(#[trigger] s[j]),
        lead_digits(s) < s.len() ==> !text::is_digit(s[lead_digits(s) as int]),
    decreases s.len(),
{
    if s.len() > 0 && text::is_digit(s[0]) {
        lemma_lead_digits(s.drop_first());
        assert forall|j: int| 0 <= j < lead_digits(s) implies text::is_digit(#[trigger] s[j]) by {
            if j > 0 {
                assert(s[j] == s.drop_first()[j - 1]);
            }
        }
    }
}

/// The decimal value of a run of digits.
pub open spec fn digits_value(d: Seq<char>) -> nat
    decreases d.len(),
{
    if d.len() == 0 {
        0
    } else {
        digits_value(d.drop_last()) * 10 + digit_of(d.last())
    }
}

/// The value of one ASCII digit.
pub open spec fn digit_of(c: char) -> nat {
    (c as u32 - '0' as u32) as nat
}

/// `str::parse::<u64>` of a run of digits, with 0 when it does not fit.
pub open spec fn run_value(d: Seq<char>) -> nat {
    if digits_value(d) <= u64::MAX {
        digits_value(d)
    } else {
        0
    }
}

/// The value of the digits `v[from..to]` as `str::parse::<u64>` gives it,
/// 0 when it overflows.
pub fn run_value_exec(v: &[char], from: usize, to: usize) -> (r: u64)
    requires
        from <= to <= v.len(),
        forall|j: int| from <= j < to ==> text::is_digit(#[trigger] v@[j]),
    ensures
        r == run_value(v@.subrange(from as int, to as int)),
{
    let mut acc: u64 = 0;
    let mut over = false;
    let mut i = from;
    while i < to
        invariant
            from <= i <= to <= v.len(),
            forall|j: int| from <= j < to ==> text::is_digit(#[trigger] v@[j]),
            over ==> digits_value(v@.subrange(from as int, i as int)) > u64::MAX,
            !over ==> digits_value(v@.subrange(from as int, i as int)) == acc,
        decreases to - i,
    {
        let ghost pre = v@.subrange(from as int, i as int);
        let ghost nxt = v@.subrange(from as int, i + 1);
        assert(nxt.drop_last() =~= pre);
        assert(nxt.last() == v@[i as int]);
        let d: u64 = (v[i] as u32 - '0' as u32) as u64;
        assert(d == digit_of(v@[i as int]));
        assert(d <= 9) by {
            assert(text::is_digit(v@[i as int]));
        }
        if over {
            assert(digits_value(nxt) >= digits_value(pre)) by (nonlinear_arith)
                requires
                    digits_value(nxt) == digits_value(pre) * 10 + d,
            ;
        } else {
            match acc.checked_mul(10) {
                Some(m) => match m.checked_add(d) {
                    Some(s) => {
                        acc = s;
                    },
                    None => {
                        over = true;
                    },
                },
                None => {
                    over = true;
                    assert(digits_value(nxt) > u64::MAX) by (nonlinear_arith)
                        requires
                            digits_value(nxt) == acc * 10 + d,
                            acc * 10 > u64::MAX,
                    ;
                },
            }
        }
        i += 1;
    }
    if over {
        0
    } else {
        acc
    }
}

/// `lead_digits` is the length of the leading digit run.
pub proof fn lemma_lead_digits_is(s: Seq<char>, k: int)
    requires
        0 <= k <= s.len(),
        forall|j: int| 0 <= j < k ==> text::is_digit(#[trigger] s[j]),
        k < s.len() ==> !text::is_digit(s[k]),
    ensures
        lead_digits(s) == k,
    decreases k,
{
    if k > 0 {
        assert forall|j: int| 0 <= j < k - 1 implies text::is_digit(#[trigger] s.drop_first()[j]) by {
            assert(s.drop_first()[j] == s[j + 1]);
        }
        if k < s.len() {
            assert(s.drop_first()[k - 1] == s[k]);
        }
        assert(text::is_digit(s[0]));
        lemma_lead_digits_is(s.drop_first(), k - 1);
    } else if s.len() > 0 {
        assert(!text::is_digit(s[0]));
    }
}

/// The leading run of digits of `s`.
pub open spec fn digit_run(s: Seq<char>) -> Seq<char> {
    s.take(lead_digits(s) as int)
}

/// What follows the leading run of digits of `s`.
pub open spec fn after_digit_run(s: Seq<char>) -> Seq<char> {
    s.skip(lead_digits(s) as int)
}

/// Characters with the same ASCII lower case have the same comparison key;
/// a digit's only such character is itself.
pub proof fn lemma_key_of_same_lower(a: char, b: char)
    requires
        text::ascii_lower(a) == text::ascii_lower(b),
    ensures
        char_key(a) == char_key(b),
        text::is_digit(a) ==> a == b,
        text::is_digit(b) ==> a == b,
{
}

/// Texts with the same ASCII lower case start with the same digit run.
pub proof fn lemma_runs_match(a: Seq<char>, b: Seq<char>)
    requires
        text::ascii_lower_seq(a) == text::ascii_lower_seq(b),
    ensures
        lead_digits(a) == lead_digits(b),
        digit_run(a) == digit_run(b),
        text::ascii_lower_seq(after_digit_run(a)) == text::ascii_lower_seq(after_digit_run(b)),
    decreases a.len(),
{
    lemma_lead_digits(a);
    lemma_lead_digits(b);
    assert(text::ascii_lower_seq(after_digit_run(a)) =~= text::ascii_lower_seq(a).skip(
        lead_digits(a) as int,
    ));
    assert(text::ascii_lower_seq(after_digit_run(b)) =~= text::ascii_lower_seq(b).skip(
        lead_digits(b) as int,
    ));
    assert(a.len() == text::ascii_lower_seq(a).len());
    assert(b.len() == text::ascii_lower_seq(b).len());
    if a.len() > 0 {
        assert(text::ascii_lower(a[0]) == text::ascii_lower_seq(a)[0]);
        assert(text::ascii_lower(b[0]) == text::ascii_lower_seq(b)[0]);
        lemma_key_of_same_lower(a[0], b[0]);
        if text::is_digit(a[0]) || text::is_digit(b[0]) {
            assert(text::ascii_lower_seq(a.drop_first()) =~= text::ascii_lower_seq(a).drop_first());
            assert(text::ascii_lower_seq(b.drop_first()) =~= text::ascii_lower_seq(b).drop_first());
            lemma_runs_match(a.drop_first(), b.drop_first());
            assert(digit_run(a) =~= seq![a[0]] + digit_run(a.drop_first()));
            assert(digit_run(b) =~= seq![b[0]] + digit_run(b.drop_first()));
        }
    }
}

/// The characters of `s` from position `i` on.
pub open spec fn suffix(s: Seq<char>, i: usize) -> Seq<char> {
    s.skip(i as int)
}

/// One step over a pair of digit runs `x[i..ei]` and `y[j..ej]`.
pub proof fn lemma_digit_runs(x: Seq<char>, i: usize, ei: usize)
    requires
        i < ei <= x.len(),
        forall|k: int| i <= k < ei ==> text::is_digit(#[trigger] x[k]),
        ei < x.len() ==> !text::is_digit(x[ei as int]),
    ensures
        digit_run(suffix(x, i)) == x.subrange(i as int, ei as int),
        after_digit_run(suffix(x, i)) == suffix(x, ei),
        lead_digits(suffix(x, i)) >= 1,
{
    let a = x.skip(i as int);
    assert forall|k: int| 0 <= k < ei - i implies text::is_digit(#[trigger] a[k]) by {
        assert(a[k] == x[k + i]);
    }
    if ei < x.len() {
        assert(a[ei - i] == x[ei as int]);
    }
    lemma_lead_digits_is(a, (ei - i) as int);
    assert(a.take((ei - i) as int) =~= x.subrange(i as int, ei as int));
    assert(a.skip((ei - i) as int) =~= x.skip(ei as int));
}

/// The suffix after one more character.
pub proof fn lemma_suffix_next(x: Seq<char>, i: usize)
    requires
        i < x.len(),
    ensures
        suffix(x, i).len() > 0,
        suffix(x, i)[0] == x[i as int],
        suffix(x, i).drop_first() == x.skip(i + 1),
{
    assert(suffix(x, i).drop_first() =~= x.skip(i + 1));
}

/// The text after a leading digit run is shorter when the run is not empty.
pub proof fn lemma_after_run_shorter(s: Seq<char>)
    requires
        s.len() > 0,
        text::is_digit(s[0]),
    ensures
        after_digit_run(s).len() < s.len(),
{
    lemma_lead_digits(s);
    assert(lead_digits(s) >= 1);
}

pub proof fn lemma_suffix_zero(s: Seq<char>)
    ensures
        suffix(s, 0) == s,
{
    assert(s.skip(0) =~= s);
}

pub proof fn lemma_suffix_len(s: Seq<char>, i: usize)
    requires
        i <= s.len(),
    ensures
        suffix(s, i).len() == s.len() - i,
{
}

/// Advancing by one character.
pub proof fn lemma_suffix_step(s: Seq<char>, i: usize)
    requires
        i < s.len(),
        i < usize::MAX,
    ensures
        suffix(s, i).drop_first() == suffix(s, (i + 1) as usize),
{
    assert(suffix(s, i).drop_first() =~= suffix(s, (i + 1) as usize));
}

} // verus!
