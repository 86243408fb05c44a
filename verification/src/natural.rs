//! Natural name order: runs of ASCII digits compare by their numeric value,
//! other characters compare by their lower-case form, so that "Chapter 2"
//! comes before "Chapter 10".

use vstd::prelude::*;
use std::cmp::Ordering;
use crate::text;
use crate::text::chars_of;
use crate::digits;
use crate::digits::{char_key_exec, run_value_exec};

verus! {

/// The natural order of two names.
#[verifier::opaque]
pub open spec fn natural_order(a: Seq<char>, b: Seq<char>) -> Ordering
    decreases a.len() + b.len(),
{
    if a.len() == 0 && b.len() == 0 {
        Ordering::Equal
    } else if a.len() == 0 {
        Ordering::Less
    } else if b.len() == 0 {
        Ordering::Greater
    } else if text::is_digit(a[0]) && text::is_digit(b[0]) {
        let va = digits::run_value(digits::digit_run(a));
        let vb = digits::run_value(digits::digit_run(b));
        if va < vb {
            Ordering::Less
        } else if va > vb {
            Ordering::Greater
        } else {
            proof {
                digits::lemma_after_run_shorter(a);
                digits::lemma_after_run_shorter(b);
            }
            natural_order(digits::after_digit_run(a), digits::after_digit_run(b))
        }
    } else {
        let la = digits::char_key(a[0]);
        let lb = digits::char_key(b[0]);
        if la < lb {
            Ordering::Less
        } else if la > lb {
            Ordering::Greater
        } else {
            natural_order(a.drop_first(), b.drop_first())
        }
    }
}

/// Compares two names in natural order.
pub fn natural_cmp(a: &str, b: &str) -> (r: Ordering)
    ensures
        r == natural_order(a@, b@),
{
    let x = chars_of(a);
    let y = chars_of(b);
    natural_order_chars(&x, &y)
}

/// Whether `a` comes after `b` in natural order.
pub fn comes_after(a: &str, b: &str) -> (r: bool)
    ensures
        r == (natural_order(a@, b@) == Ordering::Greater),
{
    match natural_cmp(a, b) {
        Ordering::Greater => true,
        _ => false,
    }
}

/// Natural order of two character sequences.
pub fn natural_order_chars(x: &[char], y: &[char]) -> (r: Ordering)
    ensures
        r == natural_order(x@, y@),
{
    let mut i: usize = 0;
    let mut j: usize = 0;
    proof {
        reveal(natural_order);
        digits::lemma_suffix_zero(x@);
        digits::lemma_suffix_zero(y@);
    }
    loop
        invariant
            i <= x.len(),
            j <= y.len(),
            natural_order(x@, y@) == natural_order(digits::suffix(x@, i), digits::suffix(y@, j)),
        decreases x.len() + y.len() - i - j,
    {
        let ghost a = digits::suffix(x@, i);
        let ghost b = digits::suffix(y@, j);
        proof {
            reveal(natural_order);
            digits::lemma_suffix_len(x@, i);
            digits::lemma_suffix_len(y@, j);
        }
        if i == x.len() && j == y.len() {
            return Ordering::Equal;
        }
        if i == x.len() {
            return Ordering::Less;
        }
        if j == y.len() {
            return Ordering::Greater;
        }
        let ca = x[i];
        let cb = y[j];
        proof {
            digits::lemma_suffix_next(x@, i);
            digits::lemma_suffix_next(y@, j);
        }
        if '0' <= ca && ca <= '9' && '0' <= cb && cb <= '9' {
            let mut ei = i;
            while ei < x.len() && '0' <= x[ei] && x[ei] <= '9'
                invariant
                    i <= ei <= x.len(),
                    forall|k: int| i <= k < ei ==> text::is_digit(#[trigger] x@[k]),
                decreases x.len() - ei,
            {
                ei += 1;
            }
            let mut ej = j;
            while ej < y.len() && '0' <= y[ej] && y[ej] <= '9'
                invariant
                    j <= ej <= y.len(),
                    forall|k: int| j <= k < ej ==> text::is_digit(#[trigger] y@[k]),
                decreases y.len() - ej,
            {
                ej += 1;
            }
            proof {
                digits::lemma_digit_runs(x@, i, ei);
                digits::lemma_digit_runs(y@, j, ej);
            }
            let va = run_value_exec(x, i, ei);
            let vb = run_value_exec(y, j, ej);
            if va < vb {
                return Ordering::Less;
            }
            if va > vb {
                return Ordering::Greater;
            }
            i = ei;
            j = ej;
        } else {
            let la = char_key_exec(ca);
            let lb = char_key_exec(cb);
            if la < lb {
                return Ordering::Less;
            }
            if la > lb {
                return Ordering::Greater;
            }
            proof {
                digits::lemma_suffix_step(x@, i);
                digits::lemma_suffix_step(y@, j);
            }
            i += 1;
            j += 1;
        }
    }
}

/// Swapping the arguments reverses the natural order.
pub proof fn lemma_natural_order_antisym(a: Seq<char>, b: Seq<char>)
    ensures
        natural_order(a, b) == Ordering::Less <==> natural_order(b, a) == Ordering::Greater,
        natural_order(a, b) == Ordering::Equal <==> natural_order(b, a) == Ordering::Equal,
    decreases a.len() + b.len(),
{
    reveal(natural_order);
    if a.len() == 0 || b.len() == 0 {
    } else if text::is_digit(a[0]) && text::is_digit(b[0]) {
        digits::lemma_after_run_shorter(a);
        digits::lemma_after_run_shorter(b);
        lemma_natural_order_antisym(digits::after_digit_run(a), digits::after_digit_run(b));
    } else {
        lemma_natural_order_antisym(a.drop_first(), b.drop_first());
    }
}

/// Every name is equal to itself in natural order.
pub proof fn lemma_natural_order_refl(a: Seq<char>)
    ensures
        natural_order(a, a) == Ordering::Equal,
    decreases a.len(),
{
    reveal(natural_order);
    if a.len() > 0 {
        if text::is_digit(a[0]) {
            digits::lemma_after_run_shorter(a);
            lemma_natural_order_refl(digits::after_digit_run(a));
        } else {
            lemma_natural_order_refl(a.drop_first());
        }
    }
}

/// The opposite order.
pub open spec fn reversed(o: Ordering) -> Ordering {
    match o {
        Ordering::Less => Ordering::Greater,
        Ordering::Equal => Ordering::Equal,
        Ordering::Greater => Ordering::Less,
    }
}

/// Every name is level with itself, and swapping two names reverses their
/// natural order.
pub proof fn lemma_natural_order_reverses(a: Seq<char>, b: Seq<char>)
    ensures
        natural_order(a, a) == Ordering::Equal,
        natural_order(a, b) == reversed(natural_order(b, a)),
{
    lemma_natural_order_refl(a);
    lemma_natural_order_antisym(a, b);
    lemma_natural_order_antisym(b, a);
}

/// Names that differ only in the case of ASCII letters are level in natural
/// order.
pub proof fn lemma_natural_order_ignores_ascii_case(a: Seq<char>, b: Seq<char>)
    requires
        text::ascii_lower_seq(a) == text::ascii_lower_seq(b),
    ensures
        natural_order(a, b) == Ordering::Equal,
    decreases a.len() + b.len(),
{
    reveal(natural_order);
    assert(a.len() == text::ascii_lower_seq(a).len());
    assert(b.len() == text::ascii_lower_seq(b).len());
    if a.len() > 0 {
        assert(text::ascii_lower(a[0]) == text::ascii_lower_seq(a)[0]);
        assert(text::ascii_lower(b[0]) == text::ascii_lower_seq(b)[0]);
        let a0 = a[0];
        let b0 = b[0];
        if text::is_digit(a0) || text::is_digit(b0) {
            assert(a0 == b0);
            digits::lemma_runs_match(a, b);
            digits::lemma_after_run_shorter(a);
            digits::lemma_after_run_shorter(b);
            lemma_natural_order_ignores_ascii_case(
                digits::after_digit_run(a),
                digits::after_digit_run(b),
            );
        } else {
            digits::lemma_key_of_same_lower(a0, b0);
            assert(text::ascii_lower_seq(a.drop_first()) =~= text::ascii_lower_seq(a).drop_first());
            assert(text::ascii_lower_seq(b.drop_first()) =~= text::ascii_lower_seq(b).drop_first());
            lemma_natural_order_ignores_ascii_case(a.drop_first(), b.drop_first());
        }
    }
}

/// Leading zeros of a digit run are ignored: zeros put in front of a name
/// that starts with a digit leave its order against another such name as it
/// was.
pub proof fn lemma_natural_order_leading_zeros(k: nat, a: Seq<char>, b: Seq<char>)
    requires
        a.len() > 0,
        text::is_digit(a[0]),
        b.len() > 0,
        text::is_digit(b[0]),
    ensures
        natural_order(digits::zeros(k) + a, b) == natural_order(a, b),
        natural_order(b, digits::zeros(k) + a) == natural_order(b, a),
{
    reveal(natural_order);
    digits::lemma_zeros_run(k, a);
}

/// A common prefix without digits does not change the natural order.
pub proof fn lemma_natural_order_common_prefix(p: Seq<char>, x: Seq<char>, y: Seq<char>)
    requires
        forall|i: int| 0 <= i < p.len() ==> !text::is_digit(#[trigger] p[i]),
    ensures
        natural_order(p + x, p + y) == natural_order(x, y),
    decreases p.len(),
{
    if p.len() > 0 {
        reveal(natural_order);
        let q = p.drop_first();
        assert forall|i: int| 0 <= i < q.len() implies !text::is_digit(#[trigger] q[i]) by {
            assert(q[i] == p[i + 1]);
        }
        assert((p + x)[0] == p[0]);
        assert((p + y)[0] == p[0]);
        assert(!text::is_digit(p[0]));
        assert((p + x).drop_first() =~= q + x);
        assert((p + y).drop_first() =~= q + y);
        lemma_natural_order_common_prefix(q, x, y);
    } else {
        assert(p + x =~= x);
        assert(p + y =~= y);
    }
}

/// Numbers in names compare by their value, all the way up to `u64::MAX`:
/// two names that differ only in a number, after a common text without
/// digits and before a common text that does not go on with a digit, come in
/// the order of the numbers.
pub proof fn lemma_natural_order_numbers(p: Seq<char>, a: nat, b: nat, s: Seq<char>)
    requires
        forall|i: int| 0 <= i < p.len() ==> !text::is_digit(#[trigger] p[i]),
        s.len() == 0 || !text::is_digit(s[0]),
        a < b,
        b <= u64::MAX,
    ensures
        natural_order(p + text::dec(a) + s, p + text::dec(b) + s) == Ordering::Less,
        natural_order(p + text::dec(b) + s, p + text::dec(a) + s) == Ordering::Greater,
{
    let x = text::dec(a) + s;
    let y = text::dec(b) + s;
    assert(p + text::dec(a) + s =~= p + x);
    assert(p + text::dec(b) + s =~= p + y);
    lemma_natural_order_common_prefix(p, x, y);
    lemma_natural_order_common_prefix(p, y, x);
    digits::lemma_dec_run(a, s);
    digits::lemma_dec_run(b, s);
    reveal(natural_order);
}

/// The natural order is transitive: a name before (or level with) a second
/// one that is before (or level with) a third is before (or level with) the
/// third; names level with a common name are level with each other. This
/// rests on no character of the names outside ASCII lower-casing to an ASCII
/// digit, as `char_key_exec` (through the wrapper of `char::to_lowercase`)
/// shows of each character it is called on.
pub proof fn lemma_natural_order_trans(a: Seq<char>, b: Seq<char>, c: Seq<char>)
    requires
        digits::keys_not_digits(a),
        digits::keys_not_digits(b),
        digits::keys_not_digits(c),
    ensures
        natural_order(a, b) == Ordering::Less && natural_order(b, c) != Ordering::Greater
            ==> natural_order(a, c) == Ordering::Less,
        natural_order(a, b) != Ordering::Greater && natural_order(b, c) == Ordering::Less
            ==> natural_order(a, c) == Ordering::Less,
        natural_order(a, b) == Ordering::Equal && natural_order(b, c) == Ordering::Equal
            ==> natural_order(a, c) == Ordering::Equal,
    decreases a.len() + b.len() + c.len(),
{
    reveal(natural_order);
    if a.len() == 0 || b.len() == 0 || c.len() == 0 {
    } else {
        let a0 = a[0];
        let b0 = b[0];
        let c0 = c[0];
        let la = digits::char_key(a0);
        let lb = digits::char_key(b0);
        let lc = digits::char_key(c0);
        let da = text::is_digit(a0);
        let db = text::is_digit(b0);
        let dc = text::is_digit(c0);
        if da && db && dc {
            let va = digits::run_value(digits::digit_run(a));
            let vb = digits::run_value(digits::digit_run(b));
            let vc = digits::run_value(digits::digit_run(c));
            if va == vb && vb == vc {
                digits::lemma_after_run_shorter(a);
                digits::lemma_after_run_shorter(b);
                digits::lemma_after_run_shorter(c);
                digits::lemma_keys_rest(a);
                digits::lemma_keys_rest(b);
                digits::lemma_keys_rest(c);
                lemma_natural_order_trans(
                    digits::after_digit_run(a),
                    digits::after_digit_run(b),
                    digits::after_digit_run(c),
                );
            }
        } else if !da && !db && !dc {
            if la == lb && lb == lc {
                digits::lemma_keys_rest(a);
                digits::lemma_keys_rest(b);
                digits::lemma_keys_rest(c);
                lemma_natural_order_trans(a.drop_first(), b.drop_first(), c.drop_first());
            }
        } else {
            assert(digits::key_not_digit(a[0]));
            assert(digits::key_not_digit(b[0]));
            assert(digits::key_not_digit(c[0]));
            assert(da ==> la == a0);
            assert(db ==> lb == b0);
            assert(dc ==> lc == c0);
            assert(!da ==> !text::is_digit(la));
            assert(!db ==> !text::is_digit(lb));
            assert(!dc ==> !text::is_digit(lc));
        }
    }
}

} // verus!
