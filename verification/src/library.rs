//! Library browsing: which directory items are listed, their order (folders
//! first, each group in natural name order), the root entries, and the
//! breadcrumb from a root down to a directory.

use vstd::prelude::*;
use std::cmp::Ordering;
use crate::natural;
use crate::natural::comes_after;
use crate::pathsafe;
use crate::pathsafe::{file_name_of, is_hidden, is_pdf};

verus! {

/// One listed item: a folder or a PDF file.
pub struct Entry {
    pub name: String,
    pub path: String,
    /// `"folder"` or `"file"`.
    pub kind: &'static str,
    pub size: u64,
    pub mtime: u64,
    /// For a folder: how many listed items it holds directly.
    pub count: usize,
}

/// The plain content of an [`Entry`].
pub struct EntryView {
    pub name: Seq<char>,
    pub path: Seq<char>,
    pub kind: Seq<char>,
    pub size: u64,
    pub mtime: u64,
    pub count: usize,
}

impl View for Entry {
    type V = EntryView;

    open spec fn view(&self) -> EntryView {
        EntryView {
            name: self.name@,
            path: self.path@,
            kind: self.kind@,
            size: self.size,
            mtime: self.mtime,
            count: self.count,
        }
    }
}

/// What the directory reader found for one item of a directory.
pub struct DirItem {
    pub name: String,
    pub path: String,
    /// The item is a directory (not following symbolic links).
    pub is_dir: bool,
    /// The item is a regular file (not following symbolic links).
    pub is_file: bool,
    pub size: u64,
    pub mtime: u64,
    /// Listed items directly inside it, when it is a directory.
    pub count: usize,
}

/// What is known of one library root.
pub struct RootInfo {
    pub path: String,
    pub mtime: u64,
    /// Listed items directly inside it.
    pub count: usize,
}

/// The text `folder`.
pub open spec fn folder_text() -> Seq<char> {
    seq!['f', 'o', 'l', 'd', 'e', 'r']
}

/// The text `file`.
pub open spec fn file_text() -> Seq<char> {
    seq!['f', 'i', 'l', 'e']
}

/// An item that is listed as a folder: a directory whose name does not start
/// with a dot.
pub open spec fn listed_folder(name: Seq<char>, is_dir: bool) -> bool {
    !(name.len() > 0 && name[0] == '.') && is_dir
}

/// An item that is listed as a file: a regular file, not hidden, whose name
/// ends in `.pdf` in any ASCII case.
pub open spec fn listed_file(name: Seq<char>, is_dir: bool, is_file: bool) -> bool {
    !(name.len() > 0 && name[0] == '.') && !is_dir && is_file && crate::text::ends_with(
        crate::text::ascii_lower_seq(name),
        seq!['.', 'p', 'd', 'f'],
    )
}

/// The entry of a listed folder.
pub open spec fn folder_entry(it: DirItem) -> EntryView {
    EntryView {
        name: it.name@,
        path: it.path@,
        kind: folder_text(),
        size: 0,
        mtime: it.mtime,
        count: it.count,
    }
}

/// The entry of a listed file.
pub open spec fn file_entry(it: DirItem) -> EntryView {
    EntryView {
        name: it.name@,
        path: it.path@,
        kind: file_text(),
        size: it.size,
        mtime: it.mtime,
        count: 0,
    }
}

/// The folder entries of `items`, in their order.
pub open spec fn folders_of(items: Seq<DirItem>) -> Seq<EntryView>
    decreases items.len(),
{
    if items.len() == 0 {
        seq![]
    } else {
        let it = items.last();
        let rest = folders_of(items.drop_last());
        if listed_folder(it.name@, it.is_dir) {
            rest.push(folder_entry(it))
        } else {
            rest
        }
    }
}

/// The file entries of `items`, in their order.
pub open spec fn files_of(items: Seq<DirItem>) -> Seq<EntryView>
    decreases items.len(),
{
    if items.len() == 0 {
        seq![]
    } else {
        let it = items.last();
        let rest = files_of(items.drop_last());
        if listed_file(it.name@, it.is_dir, it.is_file) {
            rest.push(file_entry(it))
        } else {
            rest
        }
    }
}

/// Number of listed items among `items`.
pub open spec fn listed_count(items: Seq<DirItem>) -> nat
    decreases items.len(),
{
    if items.len() == 0 {
        0
    } else {
        let it = items.last();
        listed_count(items.drop_last()) + if listed_folder(it.name@, it.is_dir) || listed_file(
            it.name@,
            it.is_dir,
            it.is_file,
        ) {
            1nat
        } else {
            0nat
        }
    }
}

// ---------------------------------------------------------------------------
// Stable insertion in natural name order
// ---------------------------------------------------------------------------

/// `x` inserted into `s` after every element that does not come after it,
/// counted from the end: the step of a stable sort.
pub open spec fn ins_sorted(s: Seq<EntryView>, x: EntryView) -> Seq<EntryView>
    decreases s.len(),
{
    if s.len() == 0 || natural::natural_order(s.last().name, x.name) != Ordering::Greater {
        s.push(x)
    } else {
        ins_sorted(s.drop_last(), x).push(s.last())
    }
}

/// `s` stably sorted by name in natural order.
pub open spec fn sort_by_name(s: Seq<EntryView>) -> Seq<EntryView>
    decreases s.len(),
{
    if s.len() == 0 {
        s
    } else {
        ins_sorted(sort_by_name(s.drop_last()), s.last())
    }
}

/// No element comes after its successor in natural name order.
#[verifier::opaque]
pub open spec fn sorted_by_name(s: Seq<EntryView>) -> bool {
    forall|i: int|
        0 <= i < s.len() - 1 ==> #[trigger] natural::natural_order(s[i].name, s[i + 1].name)
            != Ordering::Greater
}

/// The views of a list of entries.
pub open spec fn entries_view(v: Seq<Entry>) -> Seq<EntryView> {
    v.map_values(|e: Entry| e@)
}

/// Where insertion stops: `x` goes at `p`.
proof fn lemma_ins_sorted_at(s: Seq<EntryView>, x: EntryView, p: int)
    requires
        0 <= p <= s.len(),
        forall|k: int|
            p <= k < s.len() ==> natural::natural_order(#[trigger] s[k].name, x.name)
                == Ordering::Greater,
        p > 0 ==> natural::natural_order(s[p - 1].name, x.name) != Ordering::Greater,
    ensures
        ins_sorted(s, x) == s.take(p).push(x) + s.skip(p),
    decreases s.len(),
{
    if p == s.len() {
        assert(s.skip(p) =~= Seq::<EntryView>::empty());
        assert(s.take(p) =~= s);
        assert(s.take(p).push(x) + s.skip(p) =~= s.push(x));
    } else {
        let t = s.drop_last();
        assert(natural::natural_order(s.last().name, x.name) == Ordering::Greater);
        assert forall|k: int|
            p <= k < t.len() implies natural::natural_order(#[trigger] t[k].name, x.name)
            == Ordering::Greater by {
            assert(t[k] == s[k]);
        }
        if p > 0 {
            assert(t[p - 1] == s[p - 1]);
        }
        lemma_ins_sorted_at(t, x, p);
        assert(t.take(p) =~= s.take(p));
        assert(t.skip(p).push(s.last()) =~= s.skip(p));
        assert((t.take(p).push(x) + t.skip(p)).push(s.last()) =~= s.take(p).push(x) + s.skip(p));
    }
}

/// Inserts `x` at its stable place in natural name order.
fn insert_by_name(out: &mut Vec<Entry>, x: Entry)
    ensures
        entries_view(final(out)@) == ins_sorted(entries_view(old(out)@), x@),
{
    let ghost s = entries_view(out@);
    let mut p = out.len();
    while p > 0 && comes_after(out[p - 1].name.as_str(), x.name.as_str())
        invariant
            p <= out.len(),
            s == entries_view(out@),
            forall|k: int|
                p <= k < s.len() ==> natural::natural_order(#[trigger] s[k].name, x@.name)
                    == Ordering::Greater,
        decreases p,
    {
        assert(s[p - 1] == out@[p - 1]@);
        p -= 1;
    }
    proof {
        if p > 0 {
            assert(s[p - 1] == out@[p - 1]@);
        }
        lemma_ins_sorted_at(s, x@, crate::text::idx(p));
    }
    out.insert(p, x);
    proof {
        assert(entries_view(out@) =~= s.take(crate::text::idx(p)).push(x@) + s.skip(crate::text::idx(p)));
    }
}

/// Stable sort by name in natural order.
pub fn sort_entries_by_name(v: Vec<Entry>) -> (r: Vec<Entry>)
    ensures
        entries_view(r@) == sort_by_name(entries_view(v@)),
{
    let ghost all = entries_view(v@);
    let mut out: Vec<Entry> = Vec::new();
    let mut rest = v;
    let mut k: usize = 0;
    let n = rest.len();
    while rest.len() > 0
        invariant
            all.len() == n,
            k <= all.len(),
            entries_view(rest@) == all.skip(k as int),
            entries_view(out@) == sort_by_name(all.take(k as int)),
        decreases rest.len(),
    {
        let ghost r0 = entries_view(rest@);
        assert(r0.len() > 0);
        let x = rest.remove(0);
        proof {
            assert(entries_view(rest@) =~= r0.drop_first());
            assert(r0[0] == x@);
            assert(all[k as int] == x@) by {
                assert(all.skip(k as int)[0] == all[k as int]);
            }
            assert(entries_view(rest@) =~= all.skip(k + 1));
            assert(all.take(k + 1).drop_last() =~= all.take(k as int));
            assert(all.take(k + 1).last() == x@);
        }
        insert_by_name(&mut out, x);
        k += 1;
    }
    proof {
        assert(all.skip(k as int).len() == 0);
        assert(all.take(k as int) =~= all);
    }
    out
}

// ---------------------------------------------------------------------------
// Laws of the order
// ---------------------------------------------------------------------------

/// Sorting keeps exactly the same entries.
pub proof fn lemma_sort_by_name_permutes(s: Seq<EntryView>)
    ensures
        sort_by_name(s).to_multiset() == s.to_multiset(),
    decreases s.len(),
{
    broadcast use vstd::seq_lib::group_to_multiset_ensures;
    if s.len() > 0 {
        lemma_sort_by_name_permutes(s.drop_last());
        lemma_ins_sorted_multiset(sort_by_name(s.drop_last()), s.last());
        assert(s.drop_last().push(s.last()) =~= s);
    }
}

proof fn lemma_ins_sorted_multiset(s: Seq<EntryView>, x: EntryView)
    ensures
        ins_sorted(s, x).to_multiset() == s.to_multiset().insert(x),
    decreases s.len(),
{
    broadcast use vstd::seq_lib::group_to_multiset_ensures;
    if s.len() == 0 || natural::natural_order(s.last().name, x.name) != Ordering::Greater {
    } else {
        lemma_ins_sorted_multiset(s.drop_last(), x);
        assert(s.drop_last().push(s.last()) =~= s);
        assert(ins_sorted(s, x).to_multiset() =~= s.to_multiset().insert(x));
    }
}

/// The last element after insertion.
proof fn lemma_ins_sorted_last(s: Seq<EntryView>, x: EntryView)
    ensures
        ins_sorted(s, x).len() == s.len() + 1,
        ins_sorted(s, x).last() == (if s.len() == 0 || natural::natural_order(s.last().name, x.name)
            != Ordering::Greater {
            x
        } else {
            s.last()
        }),
    decreases s.len(),
{
    if s.len() > 0 && natural::natural_order(s.last().name, x.name) == Ordering::Greater {
        lemma_ins_sorted_last(s.drop_last(), x);
    }
}

proof fn lemma_sorted_push(s: Seq<EntryView>, x: EntryView)
    requires
        sorted_by_name(s),
        s.len() == 0 || natural::natural_order(s.last().name, x.name) != Ordering::Greater,
    ensures
        sorted_by_name(s.push(x)),
{
    reveal(sorted_by_name);
    let r = s.push(x);
    assert forall|i: int|
        0 <= i < r.len() - 1 implies #[trigger] natural::natural_order(r[i].name, r[i + 1].name)
        != Ordering::Greater by {
        if i < s.len() - 1 {
            assert(r[i] == s[i] && r[i + 1] == s[i + 1]);
        } else {
            assert(r[i] == s.last() && r[i + 1] == x);
        }
    }
}

proof fn lemma_sorted_pair(s: Seq<EntryView>, i: int)
    requires
        sorted_by_name(s),
        0 <= i < s.len() - 1,
    ensures
        natural::natural_order(s[i].name, s[i + 1].name) != Ordering::Greater,
{
    reveal(sorted_by_name);
}

proof fn lemma_sorted_drop_last(s: Seq<EntryView>)
    requires
        sorted_by_name(s),
        s.len() > 0,
    ensures
        sorted_by_name(s.drop_last()),
{
    reveal(sorted_by_name);
    let t = s.drop_last();
    assert forall|i: int|
        0 <= i < t.len() - 1 implies #[trigger] natural::natural_order(t[i].name, t[i + 1].name)
        != Ordering::Greater by {
        assert(t[i] == s[i] && t[i + 1] == s[i + 1]);
    }
}

proof fn lemma_ins_sorted_sorted(s: Seq<EntryView>, x: EntryView)
    requires
        sorted_by_name(s),
    ensures
        sorted_by_name(ins_sorted(s, x)),
    decreases s.len(),
{
    if s.len() == 0 || natural::natural_order(s.last().name, x.name) != Ordering::Greater {
        lemma_sorted_push(s, x);
    } else {
        let t = s.drop_last();
        lemma_sorted_drop_last(s);
        lemma_ins_sorted_sorted(t, x);
        lemma_ins_sorted_last(t, x);
        let u = ins_sorted(t, x);
        natural::lemma_natural_order_antisym(s.last().name, x.name);
        if t.len() == 0 || natural::natural_order(t.last().name, x.name) != Ordering::Greater {
            assert(u.last() == x);
        } else {
            assert(u.last() == t.last());
            assert(t.last() == s[s.len() - 2]);
            lemma_sorted_pair(s, s.len() - 2);
        }
        lemma_sorted_push(u, s.last());
    }
}

/// A sorted list has no element that comes after its successor in natural
/// name order.
pub proof fn lemma_sort_by_name_sorted(s: Seq<EntryView>)
    ensures
        sorted_by_name(sort_by_name(s)),
    decreases s.len(),
{
    if s.len() == 0 {
        reveal(sorted_by_name);
    } else {
        lemma_sort_by_name_sorted(s.drop_last());
        lemma_ins_sorted_sorted(sort_by_name(s.drop_last()), s.last());
    }
}

// ---------------------------------------------------------------------------
// Listings
// ---------------------------------------------------------------------------

/// The literal `folder`.
fn folder_kind() -> (k: &'static str)
    ensures
        k@ == folder_text(),
{
    let k: &'static str = "folder";
    proof {
        reveal_strlit("folder");
    }
    assert(k@ =~= folder_text());
    k
}

/// The literal `file`.
fn file_kind() -> (k: &'static str)
    ensures
        k@ == file_text(),
{
    let k: &'static str = "file";
    proof {
        reveal_strlit("file");
    }
    assert(k@ =~= file_text());
    k
}

/// Whether an item is listed as a folder (`Some(true)`), as a file
/// (`Some(false)`), or not at all.
pub fn listed_kind(name: &str, is_dir: bool, is_file: bool) -> (r: Option<bool>)
    ensures
        r == (if listed_folder(name@, is_dir) {
            Some(true)
        } else if listed_file(name@, is_dir, is_file) {
            Some(false)
        } else {
            None
        }),
{
    if is_hidden(name) {
        None
    } else if is_dir {
        Some(true)
    } else if is_file && is_pdf(name) {
        Some(false)
    } else {
        None
    }
}

/// `count_children`: how many items of a directory are listed (folders and
/// PDF files that are not hidden).
pub fn count_children(items: &Vec<DirItem>) -> (n: usize)
    ensures
        n == listed_count(items@),
{
    let mut n: usize = 0;
    let mut i: usize = 0;
    while i < items.len()
        invariant
            i <= items.len(),
            n == listed_count(items@.take(i as int)),
            n <= i,
        decreases items.len() - i,
    {
        let it = &items[i];
        assert(items@.take(i + 1).drop_last() =~= items@.take(i as int));
        assert(items@.take(i + 1).last() == *it);
        if listed_kind(it.name.as_str(), it.is_dir, it.is_file).is_some() {
            n += 1;
        }
        i += 1;
    }
    assert(items@.take(items.len() as int) =~= items@);
    n
}

/// `list_dir`: the listing of a directory from what its reader found: the
/// folders first, then the PDF files, each group stably sorted by name in
/// natural order; hidden items and other files are left out.
pub fn list_dir(items: &Vec<DirItem>) -> (r: Vec<Entry>)
    ensures
        entries_view(r@) == sort_by_name(folders_of(items@)) + sort_by_name(files_of(items@)),
{
    let mut folders: Vec<Entry> = Vec::new();
    let mut files: Vec<Entry> = Vec::new();
    let mut i: usize = 0;
    while i < items.len()
        invariant
            i <= items.len(),
            entries_view(folders@) == folders_of(items@.take(i as int)),
            entries_view(files@) == files_of(items@.take(i as int)),
        decreases items.len() - i,
    {
        let it = &items[i];
        let ghost fo = entries_view(folders@);
        let ghost fi = entries_view(files@);
        assert(items@.take(i + 1).drop_last() =~= items@.take(i as int));
        assert(items@.take(i + 1).last() == *it);
        match listed_kind(it.name.as_str(), it.is_dir, it.is_file) {
            Some(true) => {
                let e = Entry {
                    name: it.name.clone(),
                    path: it.path.clone(),
                    kind: folder_kind(),
                    size: 0,
                    mtime: it.mtime,
                    count: it.count,
                };
                folders.push(e);
                assert(entries_view(folders@) =~= fo.push(folder_entry(*it)));
            },
            Some(false) => {
                let e = Entry {
                    name: it.name.clone(),
                    path: it.path.clone(),
                    kind: file_kind(),
                    size: it.size,
                    mtime: it.mtime,
                    count: 0,
                };
                files.push(e);
                assert(entries_view(files@) =~= fi.push(file_entry(*it)));
            },
            None => {},
        }
        i += 1;
    }
    assert(items@.take(items.len() as int) =~= items@);
    let mut sorted_folders = sort_entries_by_name(folders);
    let sorted_files = sort_entries_by_name(files);
    let ghost a = entries_view(sorted_folders@);
    let ghost b = entries_view(sorted_files@);
    let mut rest = sorted_files;
    sorted_folders.append(&mut rest);
    assert(entries_view(sorted_folders@) =~= a + b);
    sorted_folders
}

/// The entry of a library root.
pub open spec fn root_entry(r: RootInfo) -> EntryView {
    EntryView {
        name: pathsafe::file_name_text(r.path@),
        path: r.path@,
        kind: folder_text(),
        size: 0,
        mtime: r.mtime,
        count: r.count,
    }
}

/// `roots_as_entries`: one folder entry per library root, in the order of
/// the roots, named by the root's last component.
pub fn roots_as_entries(roots: &Vec<RootInfo>) -> (r: Vec<Entry>)
    ensures
        entries_view(r@) == roots@.map_values(|x: RootInfo| root_entry(x)),
{
    let mut out: Vec<Entry> = Vec::new();
    let mut i: usize = 0;
    while i < roots.len()
        invariant
            i <= roots.len(),
            entries_view(out@) == roots@.take(i as int).map_values(|x: RootInfo| root_entry(x)),
        decreases roots.len() - i,
    {
        let ri = &roots[i];
        let e = Entry {
            name: file_name_of(ri.path.as_str()),
            path: ri.path.clone(),
            kind: folder_kind(),
            size: 0,
            mtime: ri.mtime,
            count: ri.count,
        };
        let ghost before = entries_view(out@);
        out.push(e);
        proof {
            assert(roots@.take(i + 1) =~= roots@.take(i as int).push(*ri));
            assert(entries_view(out@) =~= before.push(root_entry(*ri)));
            assert(roots@.take(i + 1).map_values(|x: RootInfo| root_entry(x)) =~= roots@.take(
                i as int,
            ).map_values(|x: RootInfo| root_entry(x)).push(root_entry(*ri)));
        }
        i += 1;
    }
    assert(roots@.take(roots.len() as int) =~= roots@);
    out
}

/// `resolve_dir`: a directory named by a request. Empty means the library
/// level itself (`None`); otherwise the path must resolve inside a root
/// (`canonical` is its resolved form, `canonical_is_dir` whether that is a
/// directory) and be a directory.
pub fn resolve_dir(raw: &str, canonical: Option<String>, canonical_is_dir: bool, roots: &Vec<
    String,
>) -> (r: Option<String>)
    ensures
        raw@.len() == 0 ==> r is None,
        raw@.len() > 0 ==> match canonical {
            None => r is None,
            Some(c) => if pathsafe::within_roots(c@, pathsafe::strs_view(roots@))
                && canonical_is_dir {
                r matches Some(x) && x@ == c@
            } else {
                r is None
            },
        },
{
    let v = crate::text::chars_of(raw);
    if v.len() == 0 {
        return None;
    }
    match pathsafe::resolve_in_roots(raw, canonical, roots) {
        Some(p) => if canonical_is_dir {
            Some(p)
        } else {
            None
        },
        None => None,
    }
}

/// What a listing request shows.
pub enum ListTarget {
    /// The library level with a single root: that root's own contents.
    OneRoot(String),
    /// The library level with no root or several: the roots themselves.
    AllRoots,
    /// A directory the request names, still to be resolved.
    Named,
}

/// `list_body`'s choice: an empty request shows the library level, which
/// is the one root's contents when there is exactly one root and the roots
/// otherwise; any other request names a directory.
pub fn list_target(raw: &str, roots: &Vec<String>) -> (r: ListTarget)
    ensures
        raw@.len() > 0 ==> r is Named,
        raw@.len() == 0 && roots.len() == 1 ==> (r matches ListTarget::OneRoot(x) && x@
            == roots@[0]@),
        raw@.len() == 0 && roots.len() != 1 ==> r is AllRoots,
{
    let v = crate::text::chars_of(raw);
    if v.len() > 0 {
        ListTarget::Named
    } else if roots.len() == 1 {
        ListTarget::OneRoot(roots[0].clone())
    } else {
        ListTarget::AllRoots
    }
}

/// `list_body`'s first step: the platform is asked again for the folders it
/// grants only when the library level itself is listed (an empty request).
pub fn refreshes_live_roots(raw: &str) -> (r: bool)
    ensures
        r == (raw@.len() == 0),
{
    crate::text::chars_of(raw).len() == 0
}

/// The crumbs below `cur` for the components `segs`: each component with
/// the path reached by joining it on.
pub open spec fn crumbs_from(cur: Seq<char>, segs: Seq<Seq<char>>) -> Seq<(Seq<char>, Seq<char>)>
    decreases segs.len(),
{
    if segs.len() == 0 {
        seq![]
    } else {
        let next = pathsafe::path_join(cur, segs[0]);
        seq![(segs[0], next)] + crumbs_from(next, segs.drop_first())
    }
}

/// The breadcrumb of `p`: its root (by name and path), then each component
/// below the root with the path up to it; empty when `p` is in no root.
pub open spec fn breadcrumb_spec(p: Seq<char>, roots: Seq<Seq<char>>) -> Seq<(Seq<char>, Seq<char>)> {
    match pathsafe::root_of_spec(p, roots) {
        None => seq![],
        Some(r) => seq![(pathsafe::file_name_text(r), r)] + crumbs_from(
            r,
            pathsafe::rel_segments_spec(p, roots),
        ),
    }
}

/// Each crumb below `cur` names one component and leads to the path made of
/// the components of `cur` and those down to it.
proof fn lemma_crumbs_paths(cur: Seq<char>, segs: Seq<Seq<char>>)
    requires
        cur.len() > 0,
        forall|i: int| 0 <= i < segs.len() ==> pathsafe::is_name(#[trigger] segs[i]),
    ensures
        crumbs_from(cur, segs).len() == segs.len(),
        forall|i: int|
            0 <= i < segs.len() ==> (#[trigger] crumbs_from(cur, segs)[i]).0 == segs[i]
                && pathsafe::comp_texts(crumbs_from(cur, segs)[i].1) == pathsafe::comp_texts(cur)
                + segs.take(i + 1),
    decreases segs.len(),
{
    if segs.len() > 0 {
        let next = pathsafe::path_join(cur, segs[0]);
        pathsafe::lemma_join_name(cur, segs[0]);
        let rest = segs.drop_first();
        assert forall|i: int| 0 <= i < rest.len() implies pathsafe::is_name(#[trigger] rest[i]) by {
            assert(rest[i] == segs[i + 1]);
        }
        lemma_crumbs_paths(next, rest);
        let cs = crumbs_from(cur, segs);
        let tail = crumbs_from(next, rest);
        assert(cs == seq![(segs[0], next)] + tail);
        assert forall|i: int| 0 <= i < segs.len() implies (#[trigger] cs[i]).0 == segs[i]
            && pathsafe::comp_texts(cs[i].1) == pathsafe::comp_texts(cur) + segs.take(i + 1) by {
            if i == 0 {
                assert(segs.take(1) =~= seq![segs[0]]);
                assert(pathsafe::comp_texts(cur).push(segs[0]) =~= pathsafe::comp_texts(cur) + seq![
                    segs[0],
                ]);
            } else {
                assert(cs[i] == tail[i - 1]);
                assert(rest[i - 1] == segs[i]);
                assert(pathsafe::comp_texts(cur).push(segs[0]) + rest.take(i) =~= pathsafe::comp_texts(
                    cur,
                ) + segs.take(i + 1));
            }
        }
    }
}

/// The breadcrumb of a path inside a root starts with the root and has one
/// crumb per component below the root, named by that component and leading
/// to the root joined with the components down to it, so the last crumb is
/// the path itself; a path in no root has no breadcrumb. Roots are non-empty
/// paths.
pub proof fn lemma_breadcrumb_levels(p: Seq<char>, roots: Seq<Seq<char>>)
    requires
        forall|i: int| 0 <= i < roots.len() ==> (#[trigger] roots[i]).len() > 0,
    ensures
        pathsafe::root_of_spec(p, roots) is None ==> breadcrumb_spec(p, roots).len() == 0,
        pathsafe::root_of_spec(p, roots) matches Some(r) ==> ({
            let segs = pathsafe::rel_segments_spec(p, roots);
            let b = breadcrumb_spec(p, roots);
            &&& b.len() == segs.len() + 1
            &&& b[0] == (pathsafe::file_name_text(r), r)
            &&& forall|i: int|
                0 <= i < segs.len() ==> (#[trigger] b[i + 1]).0 == segs[i] && pathsafe::comp_texts(
                    b[i + 1].1,
                ) == pathsafe::comp_texts(r) + segs.take(i + 1)
            &&& pathsafe::same_path(b.last().1, p)
        }),
{
    pathsafe::lemma_first_root_from(p, roots, 0);
    if let Some(k) = pathsafe::first_root_from(p, roots, 0) {
        let r = roots[k];
        assert(pathsafe::root_of_spec(p, roots) == Some(r));
        let tr = pathsafe::comp_texts(r);
        let tp = pathsafe::comp_texts(p);
        let segs = pathsafe::rel_segments_spec(p, roots);
        assert(segs == tp.skip(tr.len() as int));
        pathsafe::lemma_nonempty_has_comp(r);
        assert forall|i: int| 0 <= i < segs.len() implies pathsafe::is_name(#[trigger] segs[i]) by {
            assert(segs[i] == tp[tr.len() + i]);
            pathsafe::lemma_later_comps_are_names(p, tr.len() + i);
        }
        lemma_crumbs_paths(r, segs);
        let cs = crumbs_from(r, segs);
        let b = breadcrumb_spec(p, roots);
        assert(b == seq![(pathsafe::file_name_text(r), r)] + cs);
        assert forall|i: int| 0 <= i < segs.len() implies (#[trigger] b[i + 1]).0 == segs[i]
            && pathsafe::comp_texts(b[i + 1].1) == tr + segs.take(i + 1) by {
            assert(b[i + 1] == cs[i]);
        }
        assert(tp.take(tr.len() as int) == tr);
        if segs.len() == 0 {
            assert(tp =~= tr);
        } else {
            assert(b.last() == cs[segs.len() - 1]);
            assert(segs.take(segs.len() as int) =~= segs);
            assert(tr + segs =~= tp);
        }
    }
}

/// `breadcrumb`: from the library root down to `p`, each level's name and
/// path.
pub fn breadcrumb(p: &str, roots: &Vec<String>) -> (r: Vec<(String, String)>)
    ensures
        crate::jsontext::pairs_view(r@) == breadcrumb_spec(p@, pathsafe::strs_view(roots@)),
{
    let mut out: Vec<(String, String)> = Vec::new();
    let root = match pathsafe::root_of(p, roots) {
        None => {
            return out;
        },
        Some(root) => root,
    };
    let segs = pathsafe::rel_segments(p, roots);
    let ghost sv = pathsafe::strs_view(segs@);
    out.push((file_name_of(root.as_str()), root.clone()));
    let mut cur = crate::text::chars_of(root.as_str());
    let mut k: usize = 0;
    assert(sv.skip(0) =~= sv);
    while k < segs.len()
        invariant
            k <= segs.len(),
            sv == pathsafe::strs_view(segs@),
            crate::jsontext::pairs_view(out@) + crumbs_from(cur@, sv.skip(k as int))
                == breadcrumb_spec(p@, pathsafe::strs_view(roots@)),
        decreases segs.len() - k,
    {
        let seg = crate::text::chars_of(segs[k].as_str());
        let next = pathsafe::join_path(&cur, &seg);
        let ghost before = crate::jsontext::pairs_view(out@);
        out.push((segs[k].clone(), crate::text::string_of(&next)));
        proof {
            let t = sv.skip(k as int);
            assert(t[0] == seg@);
            assert(t.drop_first() =~= sv.skip(k + 1));
            assert(crate::jsontext::pairs_view(out@) =~= before.push((seg@, next@)));
            assert(crumbs_from(cur@, t) == seq![(seg@, next@)] + crumbs_from(next@, t.drop_first()));
            assert(crate::jsontext::pairs_view(out@) + crumbs_from(next@, sv.skip(k + 1)) =~= before
                + crumbs_from(cur@, t));
        }
        cur = next;
        k += 1;
    }
    proof {
        assert(sv.skip(k as int) =~= Seq::<Seq<char>>::empty());
        assert(crate::jsontext::pairs_view(out@) + Seq::<(Seq<char>, Seq<char>)>::empty()
            =~= crate::jsontext::pairs_view(out@));
    }
    out
}

} // verus!
