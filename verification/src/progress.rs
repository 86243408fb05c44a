//! Reading progress: the record kept per book, how a posted record is merged
//! into the stored one, the per-user store ordered by book path, and the
//! recently-read list.
//!
//! The fractional fields are IEEE-754 `f64` values; the library holds them by
//! their bit patterns and only ever tests them against zero.

use vstd::prelude::*;
use crate::text;
use crate::text::chars_of;

verus! {

/// The reading progress of one book.
pub struct Progress {
    pub page: usize,
    /// Bits of the `f64` position within the page.
    pub frac_bits: u64,
    pub name: String,
    /// Bits of the `f64` zoom factor.
    pub scale_bits: u64,
    pub total_pages: usize,
    /// Bits of the `f64` percentage read.
    pub percent_bits: u64,
    pub updated_at: u64,
}

/// The plain content of a [`Progress`].
pub struct ProgressView {
    pub page: usize,
    pub frac_bits: u64,
    pub name: Seq<char>,
    pub scale_bits: u64,
    pub total_pages: usize,
    pub percent_bits: u64,
    pub updated_at: u64,
}

impl View for Progress {
    type V = ProgressView;

    open spec fn view(&self) -> ProgressView {
        ProgressView {
            page: self.page,
            frac_bits: self.frac_bits,
            name: self.name@,
            scale_bits: self.scale_bits,
            total_pages: self.total_pages,
            percent_bits: self.percent_bits,
            updated_at: self.updated_at,
        }
    }
}

/// The empty record.
pub open spec fn empty_progress() -> ProgressView {
    ProgressView {
        page: 0,
        frac_bits: 0,
        name: seq![],
        scale_bits: 0,
        total_pages: 0,
        percent_bits: 0,
        updated_at: 0,
    }
}

impl Progress {
    /// The empty record (all zero, no name).
    pub fn empty() -> (p: Progress)
        ensures
            p@ == empty_progress(),
    {
        Progress {
            page: 0,
            frac_bits: 0,
            name: String::new(),
            scale_bits: 0,
            total_pages: 0,
            percent_bits: 0,
            updated_at: 0,
        }
    }

    /// A copy of the record.
    pub fn duplicate(&self) -> (p: Progress)
        ensures
            p@ == self@,
    {
        Progress {
            page: self.page,
            frac_bits: self.frac_bits,
            name: self.name.clone(),
            scale_bits: self.scale_bits,
            total_pages: self.total_pages,
            percent_bits: self.percent_bits,
            updated_at: self.updated_at,
        }
    }
}

impl Default for Progress {
    fn default() -> (p: Progress)
        ensures
            p@ == empty_progress(),
    {
        Progress::empty()
    }
}

/// An `f64` bit pattern that compares unequal to zero (not `+0.0`, not
/// `-0.0`).
pub open spec fn nonzero_bits(b: u64) -> bool {
    b != 0 && b != 0x8000_0000_0000_0000
}

/// How a posted record is merged into the stored one (`save_one`): the page
/// is taken unless it is 0 while a page is stored; the position, name, zoom,
/// page count and percentage are taken only when given (non-empty, non-zero),
/// so a save that leaves a field out keeps what is stored; the time is the
/// time of saving.
pub open spec fn merge_spec(cur: ProgressView, inc: ProgressView, now: u64) -> ProgressView {
    ProgressView {
        page: if inc.page != 0 || cur.page == 0 {
            inc.page
        } else {
            cur.page
        },
        frac_bits: if nonzero_bits(inc.frac_bits) {
            inc.frac_bits
        } else {
            cur.frac_bits
        },
        name: if inc.name.len() > 0 {
            inc.name
        } else {
            cur.name
        },
        scale_bits: if nonzero_bits(inc.scale_bits) {
            inc.scale_bits
        } else {
            cur.scale_bits
        },
        total_pages: if inc.total_pages != 0 {
            inc.total_pages
        } else {
            cur.total_pages
        },
        percent_bits: if nonzero_bits(inc.percent_bits) {
            inc.percent_bits
        } else {
            cur.percent_bits
        },
        updated_at: now,
    }
}

/// A save takes what the reader sends: a posted page other than 0 is taken
/// whether it lies before or after the stored one, and so are a position, zoom
/// or percentage other than `+0.0`/`-0.0`, a page count other than 0 and a
/// non-empty name; a field left out keeps the stored value; the record is
/// stamped with the time of saving.
pub proof fn lemma_merge_takes_what_is_sent(cur: ProgressView, inc: ProgressView, now: u64)
    ensures
        inc.page != 0 ==> merge_spec(cur, inc, now).page == inc.page,
        inc.page == 0 ==> merge_spec(cur, inc, now).page == cur.page,
        inc.frac_bits != 0 && inc.frac_bits != 0x8000_0000_0000_0000 ==> merge_spec(cur, inc, now).frac_bits
            == inc.frac_bits,
        inc.frac_bits == 0 || inc.frac_bits == 0x8000_0000_0000_0000 ==> merge_spec(cur, inc, now).frac_bits
            == cur.frac_bits,
        inc.name.len() > 0 ==> merge_spec(cur, inc, now).name == inc.name,
        inc.name.len() == 0 ==> merge_spec(cur, inc, now).name == cur.name,
        inc.scale_bits != 0 && inc.scale_bits != 0x8000_0000_0000_0000 ==> merge_spec(cur, inc, now).scale_bits
            == inc.scale_bits,
        inc.scale_bits == 0 || inc.scale_bits == 0x8000_0000_0000_0000 ==> merge_spec(cur, inc, now).scale_bits
            == cur.scale_bits,
        inc.total_pages != 0 ==> merge_spec(cur, inc, now).total_pages == inc.total_pages,
        inc.total_pages == 0 ==> merge_spec(cur, inc, now).total_pages == cur.total_pages,
        inc.percent_bits != 0 && inc.percent_bits != 0x8000_0000_0000_0000 ==> merge_spec(cur, inc, now).percent_bits
            == inc.percent_bits,
        inc.percent_bits == 0 || inc.percent_bits == 0x8000_0000_0000_0000 ==> merge_spec(cur, inc, now).percent_bits
            == cur.percent_bits,
        merge_spec(cur, inc, now).updated_at == now,
{
}

/// Whether `b` is a nonzero `f64` bit pattern.
pub fn is_nonzero_bits(b: u64) -> (r: bool)
    ensures
        r == nonzero_bits(b),
{
    b != 0 && b != 0x8000_0000_0000_0000
}

/// The JSON object of a record, with its fractional fields already written
/// as text (`frac`, `scale`, `percent`).
pub open spec fn progress_json_spec(p: ProgressView, frac: Seq<char>, scale: Seq<char>, percent: Seq<
    char,
>) -> Seq<char> {
    "{\"page\":"@ + text::dec(p.page as nat) + ",\"frac\":"@ + frac + ",\"name\":\""@
        + crate::jsontext::esc_spec(p.name) + "\",\"scale\":"@ + scale + ",\"totalPages\":"@
        + text::dec(p.total_pages as nat) + ",\"percent\":"@ + percent + ",\"updatedAt\":"@
        + text::dec(p.updated_at as nat) + seq!['}']
}

/// `progress_to_json` around the fractional fields: the page, the position
/// `frac`, the escaped name, the zoom `scale`, the page count, the percentage
/// and the time of the last save, in that order.
pub fn progress_json(p: &Progress, frac: &str, scale: &str, percent: &str) -> (r: String)
    ensures
        r@ == progress_json_spec(p@, frac@, scale@, percent@),
{
    let mut o = "{\"page\":".to_owned();
    text::push_dec(&mut o, p.page as u64);
    text::push_str(&mut o, ",\"frac\":");
    text::push_str(&mut o, frac);
    text::push_str(&mut o, ",\"name\":\"");
    let e = crate::jsontext::esc(p.name.as_str());
    text::push_str(&mut o, e.as_str());
    text::push_str(&mut o, "\",\"scale\":");
    text::push_str(&mut o, scale);
    text::push_str(&mut o, ",\"totalPages\":");
    text::push_dec(&mut o, p.total_pages as u64);
    text::push_str(&mut o, ",\"percent\":");
    text::push_str(&mut o, percent);
    text::push_str(&mut o, ",\"updatedAt\":");
    text::push_dec(&mut o, p.updated_at);
    crate::text::push_char(&mut o, '}');
    assert(o@ =~= progress_json_spec(p@, frac@, scale@, percent@));
    o
}

/// The text `"key":`.
pub open spec fn key_text(key: Seq<char>) -> Seq<char> {
    seq!['"'] + key + seq!['"', ':']
}

proof fn lemma_digits_plain(n: nat)
    ensures
        crate::jsontext::plain_text(text::dec(n)),
{
    text::lemma_dec_digits(n);
    assert forall|j: int| 0 <= j < text::dec(n).len() implies #[trigger] text::dec(n)[j] != '"'
        && text::dec(n)[j] != '\\' && text::dec(n)[j] != '{' && text::dec(n)[j] != '}' by {
        assert(text::is_digit(text::dec(n)[j]));
    }
}

/// Every record that `progress_json` writes is one complete JSON object,
/// whatever its name holds, as long as the number texts hold no quote,
/// backslash or brace; the store text made of such records therefore splits
/// back into exactly these records.
#[verifier::rlimit(100)]
#[verifier::spinoff_prover]
pub proof fn lemma_progress_json_object(p: ProgressView, frac: Seq<char>, scale: Seq<char>, percent: Seq<char>)
    requires
        crate::jsontext::plain_text(frac),
        crate::jsontext::plain_text(scale),
        crate::jsontext::plain_text(percent),
    ensures
        crate::jsontext::object_text(progress_json_spec(p, frac, scale, percent)),
{
    reveal_strlit("{\"page\":");
    reveal_strlit(",\"frac\":");
    reveal_strlit(",\"name\":\"");
    reveal_strlit("\",\"scale\":");
    reveal_strlit(",\"totalPages\":");
    reveal_strlit(",\"percent\":");
    reveal_strlit(",\"updatedAt\":");
    let l0 = "{\"page\":"@;
    let l1 = ",\"frac\":"@;
    let l2 = ",\"name\":\""@;
    let l3 = "\",\"scale\":"@;
    let l4 = ",\"totalPages\":"@;
    let l5 = ",\"percent\":"@;
    let l6 = ",\"updatedAt\":"@;
    let d1 = text::dec(p.page as nat);
    let d2 = text::dec(p.total_pages as nat);
    let d3 = text::dec(p.updated_at as nat);
    let e = crate::jsontext::esc_spec(p.name);
    lemma_digits_plain(p.page as nat);
    lemma_digits_plain(p.total_pages as nat);
    lemma_digits_plain(p.updated_at as nat);
    let k_page = seq!['p', 'a', 'g', 'e'];
    let k_frac = seq!['f', 'r', 'a', 'c'];
    let k_name = seq!['n', 'a', 'm', 'e'];
    let k_scale = seq!['s', 'c', 'a', 'l', 'e'];
    let k_total = seq!['t', 'o', 't', 'a', 'l', 'P', 'a', 'g', 'e', 's'];
    let k_percent = seq!['p', 'e', 'r', 'c', 'e', 'n', 't'];
    let k_updated = seq!['u', 'p', 'd', 'a', 't', 'e', 'd', 'A', 't'];
    assert(crate::jsontext::plain_text(k_page));
    assert(crate::jsontext::plain_text(k_frac));
    assert(crate::jsontext::plain_text(k_name));
    assert(crate::jsontext::plain_text(k_scale));
    assert(crate::jsontext::plain_text(k_total));
    assert(crate::jsontext::plain_text(k_percent));
    assert(crate::jsontext::plain_text(k_updated));
    assert(l0 =~= seq!['{'] + key_text(k_page));
    assert(l1 =~= seq![','] + key_text(k_frac));
    assert(l2 =~= seq![','] + key_text(k_name) + seq!['"']);
    assert(l3 =~= seq!['"'] + (seq![','] + key_text(k_scale)));
    assert(l4 =~= seq![','] + key_text(k_total));
    assert(l5 =~= seq![','] + key_text(k_percent));
    assert(l6 =~= seq![','] + key_text(k_updated));
    // The record's prefixes, one piece at a time.
    let x1 = l0;
    let x2 = x1 + d1;
    let x3 = x2 + l1;
    let x4 = x3 + frac;
    let x5 = x4 + l2;
    let x6 = x5 + e;
    let x7 = x6 + l3;
    let x8 = x7 + scale;
    let x9 = x8 + l4;
    let x10 = x9 + d2;
    let x11 = x10 + l5;
    let x12 = x11 + percent;
    let x13 = x12 + l6;
    let x14 = x13 + d3;
    let b = x14 + seq!['}'];
    assert(b == progress_json_spec(p, frac, scale, percent));
    assert(b.subrange(0, b.len() as int) =~= b);
    crate::jsontext::lemma_prefix_step(b, x14, seq!['}']);
    crate::jsontext::lemma_prefix_step(b, x13, d3);
    crate::jsontext::lemma_prefix_step(b, x12, l6);
    crate::jsontext::lemma_prefix_step(b, x11, percent);
    crate::jsontext::lemma_prefix_step(b, x10, l5);
    crate::jsontext::lemma_prefix_step(b, x9, d2);
    crate::jsontext::lemma_prefix_step(b, x8, l4);
    crate::jsontext::lemma_prefix_step(b, x7, scale);
    crate::jsontext::lemma_prefix_step(b, x6, l3);
    crate::jsontext::lemma_prefix_step(b, x5, e);
    crate::jsontext::lemma_prefix_step(b, x4, l2);
    crate::jsontext::lemma_prefix_step(b, x3, frac);
    crate::jsontext::lemma_prefix_step(b, x2, l1);
    crate::jsontext::lemma_prefix_step(b, x1, d1);
    // The scan, piece by piece.
    assert(b[0] == '{') by {
        assert(b.subrange(0, x1.len() as int)[0] == b[0]);
    }
    assert(crate::jsontext::scan_obj(b, 0, 0, false) == crate::jsontext::scan_obj(b, 1, 1, false));
    assert(b.subrange(1, x1.len() as int) =~= key_text(k_page)) by {
        assert(b.subrange(1, x1.len() as int) =~= b.subrange(0, x1.len() as int).subrange(1, x1.len() as int));
    }
    crate::jsontext::lemma_scan_key(b, 1, k_page, 1);
    crate::jsontext::lemma_scan_plain(b, x1.len() as int, d1, 1, false);
    crate::jsontext::lemma_scan_comma_key(b, x2.len() as int, k_frac, 1);
    crate::jsontext::lemma_scan_plain(b, x3.len() as int, frac, 1, false);
    let o5 = x4.len() as int;
    assert(b.subrange(o5, o5 + k_name.len() + 4) =~= seq![','] + key_text(k_name)) by {
        assert(b.subrange(o5, o5 + k_name.len() + 4) =~= b.subrange(o5, x5.len() as int).subrange(0, k_name.len() as int + 4));
    }
    crate::jsontext::lemma_scan_comma_key(b, o5, k_name, 1);
    let q = o5 + k_name.len() + 4;
    assert(b[q] == '"') by {
        assert(b.subrange(o5, x5.len() as int)[k_name.len() as int + 4] == b[q]);
    }
    assert(crate::jsontext::scan_obj(b, q, 1, false) == crate::jsontext::scan_obj(b, q + 1, 1, true));
    crate::jsontext::lemma_scan_esc(b, x5.len() as int, p.name, 1);
    let o7 = x6.len() as int;
    assert(b[o7] == '"') by {
        assert(b.subrange(o7, x7.len() as int)[0] == b[o7]);
    }
    assert(crate::jsontext::scan_obj(b, o7, 1, true) == crate::jsontext::scan_obj(b, o7 + 1, 1, false));
    assert(b.subrange(o7 + 1, x7.len() as int) =~= seq![','] + key_text(k_scale)) by {
        assert(b.subrange(o7 + 1, x7.len() as int) =~= b.subrange(o7, x7.len() as int).subrange(1, l3.len() as int));
    }
    crate::jsontext::lemma_scan_comma_key(b, o7 + 1, k_scale, 1);
    crate::jsontext::lemma_scan_plain(b, x7.len() as int, scale, 1, false);
    crate::jsontext::lemma_scan_comma_key(b, x8.len() as int, k_total, 1);
    crate::jsontext::lemma_scan_plain(b, x9.len() as int, d2, 1, false);
    crate::jsontext::lemma_scan_comma_key(b, x10.len() as int, k_percent, 1);
    crate::jsontext::lemma_scan_plain(b, x11.len() as int, percent, 1, false);
    crate::jsontext::lemma_scan_comma_key(b, x12.len() as int, k_updated, 1);
    crate::jsontext::lemma_scan_plain(b, x13.len() as int, d3, 1, false);
    let last = x14.len() as int;
    assert(b[last] == '}');
    assert(crate::jsontext::scan_obj(b, last, 1, false) == Some(last + 1));
}

/// The name in a written record reads back unchanged, whatever it holds (the
/// position text holds no quote).
#[verifier::rlimit(50)]
#[verifier::spinoff_prover]
pub proof fn lemma_progress_name_reads_back(p: ProgressView, frac: Seq<char>, scale: Seq<char>, percent: Seq<char>)
    requires
        crate::jsontext::plain_text(frac),
    ensures
        crate::jsontext::jstr_spec(progress_json_spec(p, frac, scale, percent), "name"@) == Some(p.name),
{
    reveal_strlit("name");
    reveal_strlit("{\"page\":");
    reveal_strlit(",\"frac\":");
    reveal_strlit(",\"name\":\"");
    reveal_strlit("\",\"scale\":");
    let l0 = "{\"page\":"@;
    let l1 = ",\"frac\":"@;
    let l2 = ",\"name\":\""@;
    let l3 = "\",\"scale\":"@;
    let d1 = text::dec(p.page as nat);
    let e = crate::jsontext::esc_spec(p.name);
    text::lemma_dec_digits(p.page as nat);
    let k_name = seq!['n', 'a', 'm', 'e'];
    let pat = seq!['"'] + k_name + seq!['"', ':'];
    assert("name"@ =~= k_name);
    let x1 = l0;
    let x2 = x1 + d1;
    let x3 = x2 + l1;
    let x4 = x3 + frac;
    let x5 = x4 + l2;
    let x6 = x5 + e;
    let x7 = x6 + l3;
    let b = progress_json_spec(p, frac, scale, percent);
    let rest = scale + ",\"totalPages\":"@ + text::dec(p.total_pages as nat) + ",\"percent\":"@
        + percent + ",\"updatedAt\":"@ + text::dec(p.updated_at as nat) + seq!['}'];
    assert(b =~= x7 + rest);
    assert(b.subrange(0, x7.len() as int) =~= x7);
    crate::jsontext::lemma_prefix_step(b, x6, l3);
    crate::jsontext::lemma_prefix_step(b, x5, e);
    crate::jsontext::lemma_prefix_step(b, x4, l2);
    crate::jsontext::lemma_prefix_step(b, x3, frac);
    crate::jsontext::lemma_prefix_step(b, x2, l1);
    crate::jsontext::lemma_prefix_step(b, x1, d1);
    let i: int = x4.len() as int + 1;
    assert(l2 =~= seq![','] + pat + seq!['"']);
    assert(text::occurs_at(b, pat, i)) by {
        assert(b.subrange(i, i + 7) =~= b.subrange(x4.len() as int, x5.len() as int).subrange(1, 8));
        assert(l2.subrange(1, 8) =~= pat);
    }
    assert forall|j: int| 0 <= j < i implies !text::occurs_at(b, pat, j) by {
        if text::occurs_at(b, pat, j) {
            assert(b.subrange(j, j + 7)[0] == b[j]);
            assert(b.subrange(j, j + 7)[1] == b[j + 1]);
            assert(b[j] == '"' && b[j + 1] == 'n');
            if j < x1.len() {
                assert(b[j] == l0[j]) by {
                    assert(b.subrange(0, x1.len() as int)[j] == b[j]);
                }
                assert(b[j + 1] == l0[j + 1]) by {
                    assert(b.subrange(0, x1.len() as int)[j + 1] == b[j + 1]);
                }
            } else if j < x2.len() {
                assert(b[j] == d1[j - x1.len()]) by {
                    assert(b.subrange(x1.len() as int, x2.len() as int)[j - x1.len()] == b[j]);
                }
                assert(text::is_digit(d1[j - x1.len()]));
            } else if j < x3.len() {
                let o = x2.len() as int;
                assert(b[j] == l1[j - o]) by {
                    assert(b.subrange(o, x3.len() as int)[j - o] == b[j]);
                }
                assert(b[j + 1] == l1[j + 1 - o]) by {
                    assert(b.subrange(o, x3.len() as int)[j + 1 - o] == b[j + 1]);
                }
            } else if j < x4.len() {
                let o = x3.len() as int;
                assert(b[j] == frac[j - o]) by {
                    assert(b.subrange(o, x4.len() as int)[j - o] == b[j]);
                }
            } else {
                assert(b[j] == l2[0]) by {
                    assert(b.subrange(x4.len() as int, x5.len() as int)[0] == b[j]);
                }
            }
        }
    }
    let st: int = i + pat.len();
    let n = e.len() as int;
    assert(b.subrange(st, st + n + 2) =~= seq!['"'] + e + seq!['"']) by {
        assert forall|j: int| 0 <= j < n + 2 implies b.subrange(st, st + n + 2)[j] == (seq!['"'] + e
            + seq!['"'])[j] by {
            assert(b.subrange(st, st + n + 2)[j] == b[st + j]);
            if j == 0 {
                assert(b.subrange(x4.len() as int, x5.len() as int)[8] == b[st]);
            } else if j <= n {
                assert(b.subrange(x5.len() as int, x6.len() as int)[j - 1] == b[st + j]);
            } else {
                assert(b.subrange(x6.len() as int, x7.len() as int)[0] == b[st + j]);
            }
        }
    }
    crate::jsontext::lemma_jstr_reads_back(b, k_name, i, p.name);
}

/// The entries of the store text for books `keys` with records `recs`,
/// whose fractional fields are written as the texts in `nums`.
pub open spec fn store_entries(
    keys: Seq<Seq<char>>,
    recs: Seq<ProgressView>,
    nums: Seq<(Seq<char>, Seq<char>, Seq<char>)>,
) -> Seq<(Seq<char>, Seq<char>)> {
    Seq::new(
        keys.len(),
        |i: int| (keys[i], progress_json_spec(recs[i], nums[i].0, nums[i].1, nums[i].2)),
    )
}

/// What is saved is read back: the store text written for a list of records
/// splits back into the same book paths, in order, each with its own record
/// text, whatever the paths and names hold (the number texts hold no quote,
/// backslash or brace).
pub proof fn lemma_store_round_trip(
    keys: Seq<Seq<char>>,
    recs: Seq<ProgressView>,
    nums: Seq<(Seq<char>, Seq<char>, Seq<char>)>,
)
    requires
        recs.len() == keys.len(),
        nums.len() == keys.len(),
        forall|i: int|
            0 <= i < nums.len() ==> crate::jsontext::plain_text(#[trigger] nums[i].0)
                && crate::jsontext::plain_text(nums[i].1) && crate::jsontext::plain_text(nums[i].2),
    ensures
        crate::jsontext::split_top(crate::jsontext::serialize_spec(store_entries(keys, recs, nums)))
            == store_entries(keys, recs, nums),
{
    let q = store_entries(keys, recs, nums);
    assert forall|j: int| 0 <= j < q.len() implies crate::jsontext::object_text(#[trigger] q[j].1) by {
        lemma_progress_json_object(recs[j], nums[j].0, nums[j].1, nums[j].2);
    }
    crate::jsontext::lemma_split_serialize(q);
}

/// Merges a posted record into the stored one, stamping it with `now`.
pub fn merge_progress(cur: &Progress, inc: &Progress, now: u64) -> (r: Progress)
    ensures
        r@ == merge_spec(cur@, inc@, now),
{
    let name = if chars_of(inc.name.as_str()).len() > 0 {
        inc.name.clone()
    } else {
        cur.name.clone()
    };
    Progress {
        page: if inc.page != 0 || cur.page == 0 {
            inc.page
        } else {
            cur.page
        },
        frac_bits: if is_nonzero_bits(inc.frac_bits) {
            inc.frac_bits
        } else {
            cur.frac_bits
        },
        name,
        scale_bits: if is_nonzero_bits(inc.scale_bits) {
            inc.scale_bits
        } else {
            cur.scale_bits
        },
        total_pages: if inc.total_pages != 0 {
            inc.total_pages
        } else {
            cur.total_pages
        },
        percent_bits: if is_nonzero_bits(inc.percent_bits) {
            inc.percent_bits
        } else {
            cur.percent_bits
        },
        updated_at: now,
    }
}

// ---------------------------------------------------------------------------
// Key order
// ---------------------------------------------------------------------------

/// Lexicographic order of texts by character (the order of `String`, since
/// UTF-8 keeps the order of code points).
pub open spec fn key_lt(a: Seq<char>, b: Seq<char>) -> bool
    decreases a.len(),
{
    if a.len() == 0 {
        b.len() > 0
    } else if b.len() == 0 {
        false
    } else if a[0] != b[0] {
        a[0] < b[0]
    } else {
        key_lt(a.drop_first(), b.drop_first())
    }
}

proof fn lemma_key_lt_irrefl(a: Seq<char>)
    ensures
        !key_lt(a, a),
    decreases a.len(),
{
    if a.len() > 0 {
        lemma_key_lt_irrefl(a.drop_first());
    }
}

proof fn lemma_key_lt_trans(a: Seq<char>, b: Seq<char>, c: Seq<char>)
    requires
        key_lt(a, b),
        key_lt(b, c),
    ensures
        key_lt(a, c),
    decreases a.len(),
{
    if a.len() > 0 && b.len() > 0 && c.len() > 0 && a[0] == b[0] && b[0] == c[0] {
        lemma_key_lt_trans(a.drop_first(), b.drop_first(), c.drop_first());
    }
}

proof fn lemma_key_lt_total(a: Seq<char>, b: Seq<char>)
    ensures
        key_lt(a, b) || key_lt(b, a) || a == b,
    decreases a.len(),
{
    if a.len() > 0 && b.len() > 0 && a[0] == b[0] {
        lemma_key_lt_total(a.drop_first(), b.drop_first());
        if a.drop_first() == b.drop_first() {
            assert(a =~= seq![a[0]] + a.drop_first());
            assert(b =~= seq![b[0]] + b.drop_first());
        }
    } else if a.len() == 0 && b.len() == 0 {
        assert(a =~= b);
    }
}

proof fn lemma_key_lt_asym(a: Seq<char>, b: Seq<char>)
    requires
        key_lt(a, b),
    ensures
        !key_lt(b, a),
        a != b,
    decreases a.len(),
{
    lemma_key_lt_irrefl(a);
    if a.len() > 0 && b.len() > 0 && a[0] == b[0] {
        lemma_key_lt_asym(a.drop_first(), b.drop_first());
    }
}

/// Compares two keys.
pub fn key_less(a: &str, b: &str) -> (r: bool)
    ensures
        r == key_lt(a@, b@),
{
    let x = chars_of(a);
    let y = chars_of(b);
    let mut i: usize = 0;
    assert(x@.skip(0) =~= x@);
    assert(y@.skip(0) =~= y@);
    while i < x.len() && i < y.len() && x[i] == y[i]
        invariant
            i <= x.len(),
            i <= y.len(),
            key_lt(x@, y@) == key_lt(x@.skip(i as int), y@.skip(i as int)),
        decreases x.len() - i,
    {
        assert(x@.skip(i as int).drop_first() =~= x@.skip(i + 1));
        assert(y@.skip(i as int).drop_first() =~= y@.skip(i + 1));
        i += 1;
    }
    if i == x.len() {
        i < y.len()
    } else if i == y.len() {
        false
    } else {
        assert(x@.skip(i as int)[0] == x@[i as int]);
        assert(y@.skip(i as int)[0] == y@[i as int]);
        x[i] < y[i]
    }
}

// ---------------------------------------------------------------------------
// The store
// ---------------------------------------------------------------------------

/// Keys strictly ascending.
pub open spec fn keys_ascending(s: Seq<(Seq<char>, ProgressView)>) -> bool {
    forall|i: int, j: int| 0 <= i < j < s.len() ==> key_lt(#[trigger] s[i].0, #[trigger] s[j].0)
}

/// The map that a list of entries stands for.
pub open spec fn as_map(s: Seq<(Seq<char>, ProgressView)>) -> Map<Seq<char>, ProgressView>
    decreases s.len(),
{
    if s.len() == 0 {
        Map::empty()
    } else {
        as_map(s.drop_last()).insert(s.last().0, s.last().1)
    }
}

/// The views of stored entries.
pub open spec fn pairs_view(v: Seq<(String, Progress)>) -> Seq<(Seq<char>, ProgressView)> {
    v.map_values(|p: (String, Progress)| (p.0@, p.1@))
}

/// One user's reading progress, by book path, kept in ascending key order.
pub struct ProgressMap {
    entries: Vec<(String, Progress)>,
}

impl View for ProgressMap {
    type V = Seq<(Seq<char>, ProgressView)>;

    closed spec fn view(&self) -> Seq<(Seq<char>, ProgressView)> {
        pairs_view(self.entries@)
    }
}

proof fn lemma_as_map_keys(s: Seq<(Seq<char>, ProgressView)>, k: Seq<char>)
    ensures
        as_map(s).contains_key(k) <==> exists|i: int| 0 <= i < s.len() && #[trigger] s[i].0 == k,
    decreases s.len(),
{
    if s.len() > 0 {
        lemma_as_map_keys(s.drop_last(), k);
        if as_map(s).contains_key(k) && s.last().0 != k {
            let i = choose|i: int| 0 <= i < s.drop_last().len() && #[trigger] s.drop_last()[i].0 == k;
            assert(s[i] == s.drop_last()[i]);
        }
        if exists|i: int| 0 <= i < s.len() && #[trigger] s[i].0 == k {
            let i = choose|i: int| 0 <= i < s.len() && #[trigger] s[i].0 == k;
            if i < s.len() - 1 {
                assert(s.drop_last()[i] == s[i]);
            }
        }
    }
}

/// With distinct keys, the map gives each entry's value for its key.
proof fn lemma_as_map_at(s: Seq<(Seq<char>, ProgressView)>, i: int)
    requires
        keys_ascending(s),
        0 <= i < s.len(),
    ensures
        as_map(s).contains_key(s[i].0),
        as_map(s)[s[i].0] == s[i].1,
    decreases s.len(),
{
    if i < s.len() - 1 {
        let t = s.drop_last();
        assert(keys_ascending(t)) by {
            assert forall|a: int, b: int| 0 <= a < b < t.len() implies key_lt(#[trigger] t[a].0, #[trigger] t[b].0) by {
                assert(t[a] == s[a] && t[b] == s[b]);
            }
        }
        assert(t[i] == s[i]);
        lemma_as_map_at(t, i);
        assert(key_lt(s[i].0, s.last().0));
        lemma_key_lt_asym(s[i].0, s.last().0);
    }
}

/// Replacing or inserting keeps the order and gives the map update.
proof fn lemma_insert_at(s: Seq<(Seq<char>, ProgressView)>, p: int, k: Seq<char>, v: ProgressView, replace: bool)
    requires
        keys_ascending(s),
        0 <= p <= s.len(),
        forall|i: int| 0 <= i < p ==> key_lt(#[trigger] s[i].0, k),
        replace ==> p < s.len() && s[p].0 == k,
        !replace ==> (p < s.len() ==> key_lt(k, s[p].0)),
    ensures
        ({
            let r = if replace {
                s.update(p, (k, v))
            } else {
                s.insert(p, (k, v))
            };
            keys_ascending(r) && as_map(r) == as_map(s).insert(k, v)
        }),
{
    let r = if replace {
        s.update(p, (k, v))
    } else {
        s.insert(p, (k, v))
    };
    assert forall|i: int, j: int| 0 <= i < j < r.len() implies key_lt(#[trigger] r[i].0, #[trigger] r[j].0) by {
        if replace {
            if i == p {
                assert(key_lt(s[p].0, s[j].0));
            } else if j == p {
                assert(key_lt(s[i].0, s[p].0));
            } else {
                assert(r[i] == s[i] && r[j] == s[j]);
            }
        } else {
            if i < p && j == p {
            } else if i < p && j > p {
                assert(r[i] == s[i] && r[j] == s[j - 1]);
            } else if i == p {
                assert(r[j] == s[j - 1]);
                if j - 1 > p {
                    assert(key_lt(s[p].0, s[j - 1].0));
                    lemma_key_lt_trans(k, s[p].0, s[j - 1].0);
                }
            } else if j < p {
                assert(r[i] == s[i] && r[j] == s[j]);
            } else {
                assert(r[i] == s[i - 1] && r[j] == s[j - 1]);
            }
        }
    }
    assert forall|key: Seq<char>| #![auto] as_map(r).contains_key(key) == as_map(s).insert(k, v).contains_key(key) by {
        lemma_as_map_keys(r, key);
        lemma_as_map_keys(s, key);
        if exists|i: int| 0 <= i < s.len() && #[trigger] s[i].0 == key {
            let i = choose|i: int| 0 <= i < s.len() && #[trigger] s[i].0 == key;
            if replace {
                assert(r[i].0 == key);
            } else if i < p {
                assert(r[i] == s[i]);
            } else {
                assert(r[i + 1] == s[i]);
            }
        }
        if exists|i: int| 0 <= i < r.len() && #[trigger] r[i].0 == key {
            let i = choose|i: int| 0 <= i < r.len() && #[trigger] r[i].0 == key;
            if replace {
                if i != p {
                    assert(s[i] == r[i]);
                }
            } else if i < p {
                assert(s[i] == r[i]);
            } else if i > p {
                assert(s[i - 1] == r[i]);
            }
        }
        if key == k {
            assert(r[p].0 == k);
        }
    }
    assert forall|key: Seq<char>| #[trigger] as_map(r).contains_key(key) implies as_map(r)[key] == as_map(s).insert(k, v)[key] by {
        lemma_as_map_keys(r, key);
        let i = choose|i: int| 0 <= i < r.len() && #[trigger] r[i].0 == key;
        lemma_as_map_at(r, i);
        if key == k {
            assert(i == p) by {
                if i < p {
                    lemma_key_lt_irrefl(k);
                    assert(r[i] == s[i]);
                } else if i > p {
                    lemma_key_lt_irrefl(k);
                    assert(key_lt(r[p].0, r[i].0));
                }
            }
        } else {
            let j = if replace || i < p { i } else { i - 1 };
            assert(s[j] == r[i]);
            lemma_as_map_at(s, j);
        }
    }
    assert(as_map(r) =~= as_map(s).insert(k, v));
}

impl ProgressMap {
    #[verifier::type_invariant]
    closed spec fn well_ordered(self) -> bool {
        keys_ascending(pairs_view(self.entries@))
    }

    /// The entries as a map from book path to record.
    pub closed spec fn map(&self) -> Map<Seq<char>, ProgressView> {
        as_map(self@)
    }

    /// An empty store.
    pub fn new() -> (m: ProgressMap)
        ensures
            m@ == Seq::<(Seq<char>, ProgressView)>::empty(),
    {
        let m = ProgressMap { entries: Vec::new() };
        assert(pairs_view(m.entries@) =~= Seq::<(Seq<char>, ProgressView)>::empty());
        m
    }

    /// Number of books.
    pub fn len(&self) -> (n: usize)
        ensures
            n == self@.len(),
    {
        self.entries.len()
    }

    /// Where `key` is or would go: every key before it is smaller; the key
    /// there (if any) is `key` itself or greater.
    fn position(&self, key: &str) -> (r: (usize, bool))
        ensures
            r.0 <= self@.len(),
            forall|i: int| 0 <= i < r.0 ==> key_lt(#[trigger] self@[i].0, key@),
            r.1 ==> r.0 < self@.len() && self@[r.0 as int].0 == key@,
            !r.1 ==> (r.0 < self@.len() ==> key_lt(key@, self@[r.0 as int].0)),
    {
        proof {
            use_type_invariant(self);
        }
        let mut i: usize = 0;
        while i < self.entries.len()
            invariant
                i <= self.entries.len(),
                self@ == pairs_view(self.entries@),
                forall|j: int| 0 <= j < i ==> key_lt(#[trigger] self@[j].0, key@),
            decreases self.entries.len() - i,
        {
            let k = &self.entries[i].0;
            assert(self@[i as int].0 == k@);
            if key_less(k.as_str(), key) {
                i += 1;
            } else {
                proof {
                    lemma_key_lt_total(k@, key@);
                }
                if key_less(key, k.as_str()) {
                    return (i, false);
                } else {
                    return (i, true);
                }
            }
        }
        (i, false)
    }

    /// Stores `value` for `key`, replacing what was there.
    pub fn insert(&mut self, key: String, value: Progress)
        ensures
            final(self).map() == old(self).map().insert(key@, value@),
            keys_ascending(final(self)@),
    {
        proof {
            use_type_invariant(&*self);
        }
        let (p, found) = self.position(key.as_str());
        let ghost s = self@;
        let ghost kv = key@;
        let ghost vv = value@;
        proof {
            lemma_insert_at(s, p as int, kv, vv, found);
        }
        if found {
            let mut entries: Vec<(String, Progress)> = Vec::new();
            std::mem::swap(&mut entries, &mut self.entries);
            entries.set(p, (key, value));
            assert(pairs_view(entries@) =~= s.update(p as int, (kv, vv)));
            self.entries = entries;
        } else {
            let mut entries: Vec<(String, Progress)> = Vec::new();
            std::mem::swap(&mut entries, &mut self.entries);
            entries.insert(p, (key, value));
            assert(pairs_view(entries@) =~= s.insert(p as int, (kv, vv)));
            self.entries = entries;
        }
    }

    /// `get_one`: the record stored for `key`, if any.
    pub fn get_one(&self, key: &str) -> (r: Option<Progress>)
        ensures
            r matches Some(p) ==> self.map().contains_key(key@) && self.map()[key@] == p@,
            r is None ==> !self.map().contains_key(key@),
    {
        proof {
            use_type_invariant(self);
        }
        let (p, found) = self.position(key);
        if found {
            proof {
                lemma_as_map_at(self@, p as int);
            }
            assert(self@[p as int] == (self.entries@[p as int].0@, self.entries@[p as int].1@));
            Some(self.entries[p].1.duplicate())
        } else {
            proof {
                lemma_as_map_keys(self@, key@);
                if exists|i: int| 0 <= i < self@.len() && #[trigger] self@[i].0 == key@ {
                    let i = choose|i: int| 0 <= i < self@.len() && #[trigger] self@[i].0 == key@;
                    lemma_key_lt_irrefl(key@);
                    if i < p {
                    } else {
                        if i > p {
                            assert(key_lt(self@[p as int].0, self@[i].0));
                            lemma_key_lt_trans(key@, self@[p as int].0, self@[i].0);
                        }
                    }
                }
            }
            None
        }
    }

    /// `save_one`: merges the posted record into the stored one for `key` (an
    /// empty record when there is none), stamps it with `now`, stores it and
    /// returns it.
    pub fn save_one(&mut self, key: &str, incoming: &Progress, now: u64) -> (r: Progress)
        ensures
            r@ == merge_spec(
                if old(self).map().contains_key(key@) {
                    old(self).map()[key@]
                } else {
                    empty_progress()
                },
                incoming@,
                now,
            ),
            final(self).map() == old(self).map().insert(key@, r@),
    {
        let cur = match self.get_one(key) {
            Some(p) => p,
            None => Progress::empty(),
        };
        let merged = merge_progress(&cur, incoming, now);
        self.insert(key.to_owned(), merged.duplicate());
        merged
    }

    /// The entries in ascending key order (copies).
    pub fn entries(&self) -> (r: Vec<(String, Progress)>)
        ensures
            pairs_view(r@) == self@,
            keys_ascending(self@),
    {
        proof {
            use_type_invariant(self);
        }
        let mut out: Vec<(String, Progress)> = Vec::new();
        let mut i: usize = 0;
        while i < self.entries.len()
            invariant
                i <= self.entries.len(),
                self@ == pairs_view(self.entries@),
                pairs_view(out@) == self@.take(i as int),
            decreases self.entries.len() - i,
        {
            let e = &self.entries[i];
            let ghost before = pairs_view(out@);
            out.push((e.0.clone(), e.1.duplicate()));
            assert(pairs_view(out@) =~= before.push(self@[i as int]));
            assert(self@.take(i + 1) =~= self@.take(i as int).push(self@[i as int]));
            i += 1;
        }
        assert(self@.take(self@.len() as int) =~= self@);
        out
    }
}

/// Reading back a stored record gives what was stored; other books are
/// unaffected.
pub proof fn lemma_read_after_save(m: Map<Seq<char>, ProgressView>, k: Seq<char>, v: ProgressView, other: Seq<char>)
    ensures
        m.insert(k, v).contains_key(k) && m.insert(k, v)[k] == v,
        other != k ==> m.insert(k, v).contains_key(other) == m.contains_key(other),
        other != k && m.contains_key(other) ==> m.insert(k, v)[other] == m[other],
{
}

// ---------------------------------------------------------------------------
// Recently read
// ---------------------------------------------------------------------------

/// `x` inserted into `s` after every element updated no earlier, counted
/// from the end: the step of a stable sort, newest first.
pub open spec fn ins_by_time(s: Seq<(Seq<char>, ProgressView)>, x: (Seq<char>, ProgressView)) -> Seq<
    (Seq<char>, ProgressView),
>
    decreases s.len(),
{
    if s.len() == 0 || s.last().1.updated_at >= x.1.updated_at {
        s.push(x)
    } else {
        ins_by_time(s.drop_last(), x).push(s.last())
    }
}

/// `s` stably sorted newest first.
pub open spec fn sort_by_time(s: Seq<(Seq<char>, ProgressView)>) -> Seq<(Seq<char>, ProgressView)>
    decreases s.len(),
{
    if s.len() == 0 {
        s
    } else {
        ins_by_time(sort_by_time(s.drop_last()), s.last())
    }
}

/// Newest first.
pub open spec fn newest_first(s: Seq<(Seq<char>, ProgressView)>) -> bool {
    forall|i: int, j: int| 0 <= i < j < s.len() ==> #[trigger] s[i].1.updated_at >= #[trigger] s[j].1.updated_at
}

/// Where insertion stops.
proof fn lemma_ins_by_time_at(s: Seq<(Seq<char>, ProgressView)>, x: (Seq<char>, ProgressView), p: int)
    requires
        0 <= p <= s.len(),
        forall|k: int| p <= k < s.len() ==> (#[trigger] s[k]).1.updated_at < x.1.updated_at,
        p > 0 ==> s[p - 1].1.updated_at >= x.1.updated_at,
    ensures
        ins_by_time(s, x) == s.insert(p, x),
    decreases s.len(),
{
    if p == s.len() {
        assert(s.insert(p, x) =~= s.push(x));
    } else {
        let t = s.drop_last();
        assert forall|k: int| p <= k < t.len() implies (#[trigger] t[k]).1.updated_at < x.1.updated_at by {
            assert(t[k] == s[k]);
        }
        if p > 0 {
            assert(t[p - 1] == s[p - 1]);
        }
        lemma_ins_by_time_at(t, x, p);
        assert(t.insert(p, x).push(s.last()) =~= s.insert(p, x));
    }
}

/// The records to show as recently read: newest first (ties in their given
/// order), at most `limit` of them.
pub open spec fn recent_spec(entries: Seq<(Seq<char>, ProgressView)>, limit: usize) -> Seq<
    (Seq<char>, ProgressView),
> {
    let s = sort_by_time(entries);
    if s.len() > limit {
        s.take(limit as int)
    } else {
        s
    }
}

/// The recent list keeps the newest records: it holds as many records as
/// the limit allows (all of them when there are fewer), each one a given
/// record, newest first; every given record left out is no newer than each
/// record kept.
pub proof fn lemma_recent_keeps_newest(entries: Seq<(Seq<char>, ProgressView)>, limit: usize)
    ensures
        recent_spec(entries, limit).len() == (if entries.len() < limit {
            entries.len()
        } else {
            limit as nat
        }),
        forall|i: int|
            0 <= i < recent_spec(entries, limit).len() ==> entries.contains(
                #[trigger] recent_spec(entries, limit)[i],
            ),
        forall|i: int, j: int|
            0 <= i < j < recent_spec(entries, limit).len() ==> (#[trigger] recent_spec(entries, limit)[i]).1.updated_at
                >= (#[trigger] recent_spec(entries, limit)[j]).1.updated_at,
        forall|j: int|
            0 <= j < entries.len() ==> recent_spec(entries, limit).contains(#[trigger] entries[j]) || (
            forall|i: int|
                0 <= i < recent_spec(entries, limit).len() ==> recent_spec(entries, limit)[i].1.updated_at
                    >= entries[j].1.updated_at),
{
    broadcast use vstd::seq_lib::group_to_multiset_ensures;
    lemma_sort_by_time_props(entries);
    let s = sort_by_time(entries);
    let r = recent_spec(entries, limit);
    let l: int = if s.len() > limit {
        limit as int
    } else {
        s.len() as int
    };
    assert(r =~= s.take(l));
    assert forall|i: int| 0 <= i < r.len() implies entries.contains(#[trigger] r[i]) by {
        assert(r[i] == s[i]);
        assert(s.contains(s[i]));
        assert(s.to_multiset().count(s[i]) > 0);
        assert(entries.to_multiset().count(s[i]) > 0);
    }
    assert forall|j: int| 0 <= j < entries.len() implies r.contains(#[trigger] entries[j]) || (forall|
        i: int,
    | 0 <= i < r.len() ==> r[i].1.updated_at >= entries[j].1.updated_at) by {
        let x = entries[j];
        assert(entries.contains(x));
        assert(entries.to_multiset().count(x) > 0);
        assert(s.to_multiset().count(x) > 0);
        assert(s.contains(x));
        let k = choose|k: int| 0 <= k < s.len() && s[k] == x;
        if k < l {
            assert(r[k] == x);
        } else {
            assert forall|i: int| 0 <= i < r.len() implies r[i].1.updated_at >= x.1.updated_at by {
                assert(r[i] == s[i]);
                assert(s[i].1.updated_at >= s[k].1.updated_at);
            }
        }
    }
    assert forall|i: int, j: int| 0 <= i < j < r.len() implies (#[trigger] r[i]).1.updated_at
        >= (#[trigger] r[j]).1.updated_at by {
        assert(r[i] == s[i] && r[j] == s[j]);
    }
}

/// `recent`: of the given records (those whose book still exists, in key
/// order), the newest first, at most `limit`.
pub fn recent(entries: Vec<(String, Progress)>, limit: usize) -> (r: Vec<(String, Progress)>)
    ensures
        pairs_view(r@) == recent_spec(pairs_view(entries@), limit),
{
    let ghost all = pairs_view(entries@);
    let mut out: Vec<(String, Progress)> = Vec::new();
    let mut rest = entries;
    let mut k: usize = 0;
    let n = rest.len();
    while rest.len() > 0
        invariant
            all.len() == n,
            k <= all.len(),
            pairs_view(rest@) == all.skip(k as int),
            pairs_view(out@) == sort_by_time(all.take(k as int)),
        decreases rest.len(),
    {
        let ghost r0 = pairs_view(rest@);
        assert(r0.len() > 0);
        let x = rest.remove(0);
        proof {
            assert(pairs_view(rest@) =~= r0.drop_first());
            assert(all.skip(k as int)[0] == all[k as int]);
            assert(all[k as int] == (x.0@, x.1@));
            assert(pairs_view(rest@) =~= all.skip(k + 1));
            assert(all.take(k + 1).drop_last() =~= all.take(k as int));
        }
        let ghost s = pairs_view(out@);
        let mut p = out.len();
        while p > 0 && out[p - 1].1.updated_at < x.1.updated_at
            invariant
                p <= out.len(),
                s == pairs_view(out@),
                forall|j: int| p <= j < s.len() ==> (#[trigger] s[j]).1.updated_at < x.1.updated_at,
            decreases p,
        {
            assert(s[p - 1] == (out@[p - 1].0@, out@[p - 1].1@));
            p -= 1;
        }
        proof {
            if p > 0 {
                assert(s[p - 1] == (out@[p - 1].0@, out@[p - 1].1@));
            }
            lemma_ins_by_time_at(s, (x.0@, x.1@), p as int);
        }
        out.insert(p, x);
        assert(pairs_view(out@) =~= s.insert(p as int, all[k as int]));
        k += 1;
    }
    assert(all.take(k as int) =~= all);
    out.truncate(limit);
    proof {
        let s = sort_by_time(all);
        if s.len() > limit {
            assert(pairs_view(out@) =~= s.take(limit as int));
        } else {
            assert(pairs_view(out@) =~= s);
        }
    }
    out
}

proof fn lemma_ins_by_time_last(s: Seq<(Seq<char>, ProgressView)>, x: (Seq<char>, ProgressView))
    ensures
        ins_by_time(s, x).len() == s.len() + 1,
        ins_by_time(s, x).to_multiset() == s.to_multiset().insert(x),
    decreases s.len(),
{
    broadcast use vstd::seq_lib::group_to_multiset_ensures;
    if !(s.len() == 0 || s.last().1.updated_at >= x.1.updated_at) {
        lemma_ins_by_time_last(s.drop_last(), x);
        assert(s.drop_last().push(s.last()) =~= s);
        assert(ins_by_time(s, x).to_multiset() =~= s.to_multiset().insert(x));
    }
}

proof fn lemma_ins_by_time_sorted(s: Seq<(Seq<char>, ProgressView)>, x: (Seq<char>, ProgressView))
    requires
        newest_first(s),
    ensures
        newest_first(ins_by_time(s, x)),
        forall|i: int| 0 <= i < ins_by_time(s, x).len() ==> (#[trigger] ins_by_time(s, x)[i] == x || s.contains(ins_by_time(s, x)[i])),
    decreases s.len(),
{
    if s.len() == 0 || s.last().1.updated_at >= x.1.updated_at {
        let r = s.push(x);
        assert forall|i: int, j: int| 0 <= i < j < r.len() implies #[trigger] r[i].1.updated_at >= #[trigger] r[j].1.updated_at by {
            if j < s.len() {
                assert(r[i] == s[i] && r[j] == s[j]);
            } else {
                assert(r[i] == s[i]);
                if i < s.len() - 1 {
                    assert(s[i].1.updated_at >= s[s.len() - 1].1.updated_at);
                }
            }
        }
        assert forall|i: int| 0 <= i < r.len() implies (#[trigger] r[i] == x || s.contains(r[i])) by {
            if i < s.len() {
                assert(r[i] == s[i]);
            }
        }
    } else {
        let t = s.drop_last();
        assert(newest_first(t)) by {
            assert forall|i: int, j: int| 0 <= i < j < t.len() implies #[trigger] t[i].1.updated_at >= #[trigger] t[j].1.updated_at by {
                assert(t[i] == s[i] && t[j] == s[j]);
            }
        }
        lemma_ins_by_time_sorted(t, x);
        lemma_ins_by_time_last(t, x);
        let u = ins_by_time(t, x);
        let r = u.push(s.last());
        assert forall|i: int, j: int| 0 <= i < j < r.len() implies #[trigger] r[i].1.updated_at >= #[trigger] r[j].1.updated_at by {
            if j < u.len() {
                assert(r[i] == u[i] && r[j] == u[j]);
            } else {
                assert(r[i] == u[i]);
                assert(r[j] == s.last());
                if u[i] == x {
                } else {
                    assert(t.contains(u[i]));
                    let m = choose|m: int| 0 <= m < t.len() && t[m] == u[i];
                    assert(s[m] == t[m]);
                }
            }
        }
        assert forall|i: int| 0 <= i < r.len() implies (#[trigger] r[i] == x || s.contains(r[i])) by {
            if i < u.len() {
                assert(r[i] == u[i]);
                if u[i] != x {
                    let m = choose|m: int| 0 <= m < t.len() && t[m] == u[i];
                    assert(s[m] == t[m]);
                }
            } else {
                assert(s[s.len() - 1] == s.last());
            }
        }
    }
}

/// The recently-read list is newest first, holds no more than `limit`
/// records, and holds only given records, each as often as given or less.
pub proof fn lemma_recent_order(entries: Seq<(Seq<char>, ProgressView)>, limit: usize)
    ensures
        newest_first(recent_spec(entries, limit)),
        recent_spec(entries, limit).len() <= limit,
        recent_spec(entries, limit).len() <= entries.len(),
        sort_by_time(entries).to_multiset() == entries.to_multiset(),
    decreases entries.len(),
{
    broadcast use vstd::seq_lib::group_to_multiset_ensures;
    lemma_sort_by_time_props(entries);
    let s = sort_by_time(entries);
    if s.len() > limit {
        let t = s.take(limit as int);
        assert forall|i: int, j: int| 0 <= i < j < t.len() implies #[trigger] t[i].1.updated_at >= #[trigger] t[j].1.updated_at by {
            assert(t[i] == s[i] && t[j] == s[j]);
        }
    }
}

proof fn lemma_sort_by_time_props(s: Seq<(Seq<char>, ProgressView)>)
    ensures
        newest_first(sort_by_time(s)),
        sort_by_time(s).len() == s.len(),
        sort_by_time(s).to_multiset() == s.to_multiset(),
    decreases s.len(),
{
    broadcast use vstd::seq_lib::group_to_multiset_ensures;
    if s.len() > 0 {
        lemma_sort_by_time_props(s.drop_last());
        lemma_ins_by_time_sorted(sort_by_time(s.drop_last()), s.last());
        lemma_ins_by_time_last(sort_by_time(s.drop_last()), s.last());
        assert(s.drop_last().push(s.last()) =~= s);
    }
}

} // verus!
