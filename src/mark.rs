use vstd::prelude::*;

use crate::cursor::{moved, CursorDirection, Key};
use itertools::Itertools;

verus! {

/// Index of a node in the directory-size tree.
pub type TreeIndex = usize;

/// What a committed mark set is to be used for.
#[derive(Clone, Copy, Debug, PartialEq, Eq)]
pub enum MarkMode {
    Delete,
}

/// One marked tree node: a snapshot of it taken when it was marked, its rank in
/// the mark set, and the failures recorded while deleting it.
pub struct EntryMark {
    pub size: u128,
    pub path: String,
    pub index: usize,
    pub num_errors_during_deletion: usize,
    pub is_dir: bool,
}

/// The set of marked entries together with a selection over them.
///
/// Entries are stored in ascending order of their rank (`EntryMark::index`);
/// each tree index occurs at most once.
pub struct MarkPane {
    selected: Option<usize>,
    marked: Vec<(TreeIndex, EntryMark)>,
    has_focus: bool,
    last_sorting_index: usize,
}

/// True if tree index `k` is a key of `s`.
pub open spec fn has_key(s: Seq<(TreeIndex, EntryMark)>, k: TreeIndex) -> bool {
    exists|i: int| 0 <= i < s.len() && s[i].0 == k
}

/// The position at which `k` stands in `s`.
pub open spec fn position_of(s: Seq<(TreeIndex, EntryMark)>, k: TreeIndex) -> int {
    choose|i: int| 0 <= i < s.len() && s[i].0 == k
}

/// Ranks strictly increase along `s`.
pub open spec fn rank_sorted(s: Seq<(TreeIndex, EntryMark)>) -> bool {
    forall|i: int, j: int| 0 <= i < j < s.len() ==> s[i].1.index < s[j].1.index
}

/// No tree index occurs twice in `s`.
pub open spec fn keys_unique(s: Seq<(TreeIndex, EntryMark)>) -> bool {
    forall|i: int, j: int| 0 <= i < j < s.len() ==> s[i].0 != s[j].0
}

/// The tree indices of `s`, in order.
pub open spec fn keys_of(s: Seq<(TreeIndex, EntryMark)>) -> Seq<TreeIndex> {
    s.map_values(|e: (TreeIndex, EntryMark)| e.0)
}

/// `e` with its failure count replaced by `n`.
pub open spec fn with_errors(e: (TreeIndex, EntryMark), n: usize) -> (TreeIndex, EntryMark) {
    (
        e.0,
        EntryMark {
            size: e.1.size,
            path: e.1.path,
            index: e.1.index,
            num_errors_during_deletion: n,
            is_dir: e.1.is_dir,
        },
    )
}

/// A selection after the set shrank to `len` entries: moved onto the last entry
/// when it points past the end.
pub open spec fn clamped(sel: Option<usize>, len: nat) -> Option<usize> {
    match sel {
        Some(p) => if p >= len && len > 0 { Some((len - 1) as usize) } else { Some(p) },
        None => None,
    }
}

/// The entries after toggling tree index `index`: a present one is removed when
/// `toggle` holds; an absent one is added with the next rank when the tree still
/// has the node (`node` holds its size and path).
pub open spec fn toggled(
    s: Seq<(TreeIndex, EntryMark)>,
    last: usize,
    index: TreeIndex,
    node: Option<(u128, String)>,
    is_dir: bool,
    toggle: bool,
) -> Seq<(TreeIndex, EntryMark)> {
    if has_key(s, index) {
        if toggle {
            s.remove(position_of(s, index))
        } else {
            s
        }
    } else {
        match node {
            Some(n) => s.push(
                (
                    index,
                    EntryMark {
                        size: n.0,
                        path: n.1,
                        index: (last + 1) as usize,
                        num_errors_during_deletion: 0,
                        is_dir,
                    },
                ),
            ),
            None => s,
        }
    }
}

/// The selection after the entry at `p` was removed from `len` entries.
pub open spec fn selection_after_removal(p: usize, len: nat) -> usize {
    if p + 1 == len && p > 0 {
        (p - 1) as usize
    } else {
        p
    }
}

/// `r` is what removing the selected entry of `s` gives: the entry goes, the
/// selection stays on its position or moves onto the new last entry, and `None`
/// comes back once the set is empty. Without a selected entry `s` is unchanged.
pub open spec fn removal(s: MarkPane, r: Option<MarkPane>) -> bool {
    match s.selection() {
        Some(p) => if p < s.entries().len() {
            if s.entries().len() == 1 {
                r is None
            } else {
                r matches Some(q) && q.wf() && q.entries() == s.entries().remove(p as int)
                    && q.selection() == Some(selection_after_removal(p, s.entries().len()))
                    && q.focused() == s.focused() && q.last_rank() == s.last_rank()
            }
        } else {
            r == Some(s)
        },
        None => r == Some(s),
    }
}

/// `q` is `s` made ready for a deletion pass: every failure count is 0 and the
/// first entry is selected.
pub open spec fn reset_for_deletion(s: MarkPane, q: MarkPane) -> bool {
    &&& q.wf()
    &&& q.entries().len() == s.entries().len()
    &&& forall|i: int|
        0 <= i < s.entries().len() ==> q.entries()[i] == with_errors(s.entries()[i], 0)
    &&& q.selection() == Some(0usize)
    &&& q.focused() == s.focused()
    &&& q.last_rank() == s.last_rank()
}

/// The selection after moving `sel` in direction `d` over `len` entries.
pub open spec fn moved_selection(sel: Option<usize>, d: CursorDirection, len: nat) -> Option<
    usize,
> {
    match sel {
        Some(p) => Some(
            if moved(d, p) < len {
                moved(d, p)
            } else if len > 0 {
                (len - 1) as usize
            } else {
                0usize
            },
        ),
        None => None,
    }
}

/// The direction that key `k` moves the selection in, if it is a movement key.
pub open spec fn key_direction(k: Key) -> Option<CursorDirection> {
    match k {
        Key::Ctrl('u') | Key::PageUp => Some(CursorDirection::PageUp),
        Key::Char('k') | Key::Up => Some(CursorDirection::Up),
        Key::Char('j') | Key::Down => Some(CursorDirection::Down),
        Key::Ctrl('d') | Key::PageDown => Some(CursorDirection::PageDown),
        _ => None,
    }
}

/// The key that commits the set to deletion.
pub open spec fn is_commit_key(k: Key) -> bool {
    k == Key::Ctrl('r')
}

/// The keys that take the selected entry out of the set.
pub open spec fn is_remove_key(k: Key) -> bool {
    k == Key::Char('x') || k == Key::Char('d') || k == Key::Char(' ')
}

/// The tree indices of the entries of `s`.
pub open spec fn key_set(s: MarkPane) -> Set<TreeIndex> {
    keys_of(s.entries()).to_set()
}

/// What holds of a deletion pass in state `s` after the callback was handed
/// the tree indices in `called`: each of them still marked has a failure on
/// record, and none stands after the selection.
pub open spec fn pass_inv(s: MarkPane, called: Set<TreeIndex>) -> bool {
    &&& forall|j: int|
        0 <= j < s.entries().len() && called.contains(#[trigger] s.entries()[j].0)
            ==> s.entries()[j].1.num_errors_during_deletion > 0
    &&& s.selection() matches Some(p) ==> forall|j: int|
        p < j < s.entries().len() ==> !called.contains(#[trigger] s.entries()[j].0)
}

/// Every entry before the selected position has a failure on record.
pub open spec fn failed_before_selection(s: MarkPane) -> bool {
    s.selection() matches Some(p) && forall|j: int|
        0 <= j < p && j < s.entries().len()
            ==> #[trigger] s.entries()[j].1.num_errors_during_deletion > 0
}

/// A deletion callback hands the pane back as it got it, and reports a
/// positive number of failures when it fails.
pub open spec fn passes_through(p: MarkPane, o: Result<MarkPane, (MarkPane, usize)>) -> bool {
    match o {
        Ok(q) => q == p,
        Err((q, n)) => q == p && n > 0,
    }
}

/// In a well-formed pane that has the focus and holds entries, the selection
/// points at one of them.
pub proof fn lemma_selection_valid(s: MarkPane)
    requires
        s.wf(),
        s.focused(),
        s.entries().len() > 0,
    ensures
        s.selection() matches Some(p) && p < s.entries().len(),
{
}

/// During a deletion pass the candidate is never an entry that was handed to
/// the callback before, and it is one of the marked entries.
pub proof fn lemma_candidate_is_fresh(s: MarkPane, called: Set<TreeIndex>)
    requires
        s.wf(),
        pass_inv(s, called),
    ensures
        s.next_candidate().1 matches Some(k) ==> !called.contains(k) && key_set(s).contains(k),
{
    let e = s.entries();
    if let Some(k) = s.next_candidate().1 {
        let p = s.selection()->Some_0;
        if e[p as int].1.num_errors_during_deletion == 0 {
            assert(keys_of(e)[p as int] == k);
        } else {
            assert(keys_of(e)[p + 1] == k);
        }
    }
}

/// A pass hands out each tree index at most once, and only those of the set
/// it started from, so it calls back at most as many times as that set has
/// entries.
pub proof fn lemma_calls_bounded(s: MarkPane, called: Set<TreeIndex>)
    requires
        s.wf(),
        called.subset_of(key_set(s)),
    ensures
        called.finite(),
        called.len() <= s.entries().len(),
{
    let k = keys_of(s.entries());
    assert forall|i: int, j: int| 0 <= i < k.len() && 0 <= j < k.len() && i != j implies k[i]
        != k[j] by {
        if i < j {
            assert(s.entries()[i].0 != s.entries()[j].0);
        } else {
            assert(s.entries()[j].0 != s.entries()[i].0);
        }
    }
    k.unique_seq_to_set();
    vstd::set_lib::lemma_len_subset(called, key_set(s));
}

/// Moving on to the next candidate keeps the pass's invariant and selects the
/// candidate; where there is none, the pass is over, and if every entry before
/// the selection had failed, every entry has.
pub proof fn lemma_candidate_keeps_pass(s: MarkPane, called: Set<TreeIndex>, t: MarkPane)
    requires
        s.wf(),
        pass_inv(s, called),
        t.entries() == s.entries(),
        t.selection() == s.next_candidate().0,
    ensures
        pass_inv(t, called),
        failed_before_selection(s) ==> failed_before_selection(t),
        s.next_candidate().1 matches Some(k) ==> (t.selection() matches Some(q) && q
            < t.entries().len() && t.entries()[q as int].0 == k),
        s.next_candidate().1 is None ==> t.next_candidate().1 is None,
        s.next_candidate().1 is None && failed_before_selection(s) ==> forall|j: int|
            0 <= j < t.entries().len() ==> #[trigger] t.entries()[j].1.num_errors_during_deletion
                > 0,
{
    let e = s.entries();
    assert(e == s.marked@);
    match s.selection() {
        Some(p) => {
            assert(s.selected == Some(p));
            if p < e.len() {
                if e[p as int].1.num_errors_during_deletion == 0 {
                    assert(t.selection() == Some(p));
                } else if p + 1 < e.len() {
                    assert(t.selection() == Some((p + 1) as usize));
                    assert(t.entries()[p + 1].0 == e[p + 1].0);
                } else {
                    assert(t.selection() == Some(p));
                    assert(s.next_candidate().1 is None);
                    if failed_before_selection(s) {
                        assert forall|j: int| 0 <= j < e.len() implies #[trigger] e[j].1.num_errors_during_deletion
                            > 0 by {
                            if j < p {
                            } else {
                                assert(j == p);
                            }
                        }
                    }
                }
            } else {
                assert(t.selection() == Some(p));
            }
        },
        None => {
            assert(t.selection() is None);
        },
    }
}

/// After the callback deleted the selected entry `k` and it left the set, the
/// pass's invariant holds with `k` counted as handed out.
pub proof fn lemma_success_keeps_pass(
    s: MarkPane,
    called: Set<TreeIndex>,
    k: TreeIndex,
    r: Option<MarkPane>,
)
    requires
        s.wf(),
        pass_inv(s, called),
        s.selection() matches Some(p) && p < s.entries().len() && s.entries()[p as int].0 == k,
        removal(s, r),
    ensures
        r matches Some(q) ==> {
            &&& pass_inv(q, called.insert(k))
            &&& key_set(q).subset_of(key_set(s))
            &&& failed_before_selection(s) ==> failed_before_selection(q)
        },
{
    if let Some(q) = r {
        let e = s.entries();
        let p = s.selection()->Some_0 as int;
        let f = q.entries();
        assert forall|j: int| 0 <= j < f.len() implies #[trigger] f[j] == if j < p {
            e[j]
        } else {
            e[j + 1]
        } by {}
        assert forall|j: int| 0 <= j < f.len() implies #[trigger] f[j].0 != k by {
            if j < p {
                assert(e[j].0 != e[p].0);
            } else {
                assert(e[j + 1].0 != e[p].0);
            }
        }
        assert forall|x: TreeIndex| key_set(q).contains(x) implies key_set(s).contains(x) by {
            let j = choose|j: int| 0 <= j < keys_of(f).len() && keys_of(f)[j] == x;
            if j < p {
                assert(keys_of(e)[j] == x);
            } else {
                assert(keys_of(e)[j + 1] == x);
            }
        }
    }
}

/// After the callback failed on the selected entry `k` and `n > 0` failures
/// were recorded on it, the pass's invariant holds with `k` counted as handed
/// out.
pub proof fn lemma_failure_keeps_pass(
    s: MarkPane,
    called: Set<TreeIndex>,
    k: TreeIndex,
    n: usize,
    q: MarkPane,
)
    requires
        s.wf(),
        pass_inv(s, called),
        s.selection() matches Some(p) && p < s.entries().len() && s.entries()[p as int].0 == k,
        n > 0,
        q.selection() == s.selection(),
        q.entries() == s.entries().update(
            s.selection()->Some_0 as int,
            with_errors(s.entries()[s.selection()->Some_0 as int], n),
        ),
    ensures
        pass_inv(q, called.insert(k)),
        key_set(q) == key_set(s),
        failed_before_selection(s) ==> failed_before_selection(q),
{
    let e = s.entries();
    let p = s.selection()->Some_0 as int;
    assert forall|j: int| 0 <= j < e.len() && j != p implies #[trigger] e[j].0 != k by {
        if j < p {
            assert(e[j].0 != e[p].0);
        } else {
            assert(e[p].0 != e[j].0);
        }
    }
    assert(keys_of(q.entries()) =~= keys_of(e));
}

/// The callback `f` may report that deleting tree index `k` succeeded.
pub open spec fn reported_deleted<F: Fn(MarkPane, TreeIndex) -> Result<MarkPane, (MarkPane, usize)>>(
    f: F,
    k: TreeIndex,
) -> bool {
    exists|p: MarkPane| #[trigger] f.ensures((p, k), Ok::<MarkPane, (MarkPane, usize)>(p))
}

/// The callback `f` may report `n` failures while deleting tree index `k`.
pub open spec fn reported_failed<F: Fn(MarkPane, TreeIndex) -> Result<MarkPane, (MarkPane, usize)>>(
    f: F,
    k: TreeIndex,
    n: usize,
) -> bool {
    exists|p: MarkPane| #[trigger] f.ensures((p, k), Err::<MarkPane, (MarkPane, usize)>((p, n)))
}

/// Entry `e` is an entry of `start` whose failure count is either the one it
/// started with or one that `f` reported for it.
pub open spec fn kept_from<F: Fn(MarkPane, TreeIndex) -> Result<MarkPane, (MarkPane, usize)>>(
    start: Seq<(TreeIndex, EntryMark)>,
    f: F,
    e: (TreeIndex, EntryMark),
) -> bool {
    exists|i: int|
        0 <= i < start.len() && e == with_errors(#[trigger] start[i], e.1.num_errors_during_deletion)
            && (e.1.num_errors_during_deletion == start[i].1.num_errors_during_deletion
            || reported_failed(f, e.0, e.1.num_errors_during_deletion))
}

/// What a deletion pass that started from `start` has done so far, now in
/// state `s`: every entry left is one of `start` with its count as it was or as
/// `f` reported it, and every entry of `start` that is gone was reported
/// deleted by `f`.
#[verifier::opaque]
pub open spec fn pass_record<F: Fn(MarkPane, TreeIndex) -> Result<MarkPane, (MarkPane, usize)>>(
    start: Seq<(TreeIndex, EntryMark)>,
    f: F,
    s: Seq<(TreeIndex, EntryMark)>,
) -> bool {
    &&& forall|j: int| 0 <= j < s.len() ==> kept_from(start, f, #[trigger] s[j])
    &&& forall|i: int|
        0 <= i < start.len() && !has_key(s, #[trigger] start[i].0) ==> reported_deleted(f, start[i].0)
}

/// A pass that has not handed anything out yet has a true record.
proof fn lemma_record_start<F: Fn(MarkPane, TreeIndex) -> Result<MarkPane, (MarkPane, usize)>>(
    start: Seq<(TreeIndex, EntryMark)>,
    f: F,
)
    ensures
        pass_record(start, f, start),
{
    reveal(pass_record);
    assert forall|j: int| 0 <= j < start.len() implies kept_from(start, f, #[trigger] start[j]) by {
        assert(start[j] == with_errors(start[j], start[j].1.num_errors_during_deletion));
    }
    assert forall|i: int| 0 <= i < start.len() && !has_key(start, #[trigger] start[i].0) implies reported_deleted(
        f,
        start[i].0,
    ) by {
        assert(start[i].0 == start[i].0);
    }
}

/// Removing the selected entry `k`, reported deleted, keeps the pass's record.
proof fn lemma_success_keeps_record<F: Fn(MarkPane, TreeIndex) -> Result<MarkPane, (MarkPane, usize)>>(
    start: Seq<(TreeIndex, EntryMark)>,
    f: F,
    s: MarkPane,
    k: TreeIndex,
    r: Option<MarkPane>,
)
    requires
        s.wf(),
        pass_record(start, f, s.entries()),
        s.selection() matches Some(p) && p < s.entries().len() && s.entries()[p as int].0 == k,
        removal(s, r),
        reported_deleted(f, k),
    ensures
        r matches Some(q) ==> pass_record(start, f, q.entries()),
        r is None ==> forall|i: int| 0 <= i < start.len() ==> reported_deleted(f, #[trigger] start[i].0),
{
    reveal(pass_record);
    let e = s.entries();
    let p = s.selection()->Some_0 as int;
    match r {
        Some(q) => {
            let g = q.entries();
            assert forall|j: int| 0 <= j < g.len() implies kept_from(start, f, #[trigger] g[j]) by {
                if j < p {
                    assert(g[j] == e[j]);
                } else {
                    assert(g[j] == e[j + 1]);
                }
            }
            assert forall|i: int|
                0 <= i < start.len() && !has_key(g, #[trigger] start[i].0) implies reported_deleted(
                f,
                start[i].0,
            ) by {
                let x = start[i].0;
                if x != k && has_key(e, x) {
                    let m = choose|m: int| 0 <= m < e.len() && e[m].0 == x;
                    if m < p {
                        assert(g[m] == e[m]);
                    } else {
                        assert(m != p);
                        assert(g[m - 1] == e[m]);
                    }
                }
            }
        },
        None => {
            assert forall|i: int| 0 <= i < start.len() implies reported_deleted(
                f,
                #[trigger] start[i].0,
            ) by {
                let x = start[i].0;
                if has_key(e, x) {
                    let m = choose|m: int| 0 <= m < e.len() && e[m].0 == x;
                    assert(m == 0 && p == 0);
                }
            }
        },
    }
}

/// Recording `n` reported failures on the selected entry `k` keeps the pass's
/// record.
proof fn lemma_failure_keeps_record<F: Fn(MarkPane, TreeIndex) -> Result<MarkPane, (MarkPane, usize)>>(
    start: Seq<(TreeIndex, EntryMark)>,
    f: F,
    s: MarkPane,
    k: TreeIndex,
    n: usize,
    q: MarkPane,
)
    requires
        s.wf(),
        pass_record(start, f, s.entries()),
        s.selection() matches Some(p) && p < s.entries().len() && s.entries()[p as int].0 == k,
        q.entries() == s.entries().update(
            s.selection()->Some_0 as int,
            with_errors(s.entries()[s.selection()->Some_0 as int], n),
        ),
        reported_failed(f, k, n),
    ensures
        pass_record(start, f, q.entries()),
{
    reveal(pass_record);
    let e = s.entries();
    let g = q.entries();
    let p = s.selection()->Some_0 as int;
    assert forall|j: int| 0 <= j < g.len() implies kept_from(start, f, #[trigger] g[j]) by {
        if j != p {
            assert(g[j] == e[j]);
        } else {
            assert(kept_from(start, f, e[p]));
            let i = choose|i: int|
                0 <= i < start.len() && e[p] == with_errors(
                    #[trigger] start[i],
                    e[p].1.num_errors_during_deletion,
                ) && (e[p].1.num_errors_during_deletion == start[i].1.num_errors_during_deletion
                    || reported_failed(f, e[p].0, e[p].1.num_errors_during_deletion));
            assert(g[j] == with_errors(start[i], n));
        }
    }
    assert forall|i: int|
        0 <= i < start.len() && !has_key(g, #[trigger] start[i].0) implies reported_deleted(
        f,
        start[i].0,
    ) by {
        let x = start[i].0;
        if has_key(e, x) {
            let m = choose|m: int| 0 <= m < e.len() && e[m].0 == x;
            assert(g[m].0 == x);
        }
    }
}

/// Each entry's tree index paired with its rank.
pub open spec fn rank_pairs(s: Seq<(TreeIndex, EntryMark)>) -> Seq<(TreeIndex, usize)> {
    s.map_values(|e: (TreeIndex, EntryMark)| (e.0, e.1.index))
}

/// The order by rank does not depend on how the items were arranged before: a
/// sequence whose ranks strictly increase equals every arrangement of the same
/// items that is ordered by rank. Sorting the same entries twice therefore
/// gives the same sequence.
pub proof fn lemma_rank_order_unique(a: Seq<(TreeIndex, usize)>, b: Seq<(TreeIndex, usize)>)
    requires
        forall|i: int, j: int| 0 <= i < j < a.len() ==> a[i].1 < a[j].1,
        forall|i: int, j: int| 0 <= i < j < b.len() ==> b[i].1 <= b[j].1,
        a.to_multiset() == b.to_multiset(),
    ensures
        a == b,
    decreases a.len(),
{
    broadcast use vstd::seq_lib::group_to_multiset_ensures;

    a.to_multiset_ensures();
    b.to_multiset_ensures();
    assert(a.len() == b.len());
    if a.len() > 0 {
        let n = a.len() - 1;
        let x = a[n];
        let y = b[n];
        assert(a.contains(x));
        assert(a.to_multiset().count(x) > 0);
        assert(b.to_multiset().count(x) > 0);
        assert(b.contains(x));
        let j = choose|j: int| 0 <= j < b.len() && b[j] == x;
        assert(b.contains(y));
        assert(b.to_multiset().count(y) > 0);
        assert(a.contains(y));
        let i = choose|i: int| 0 <= i < a.len() && a[i] == y;
        if i < n {
            assert(a[i].1 < a[n].1);
            assert(b[j].1 <= b[n].1);
        }
        assert(x == y);
        let a2 = a.drop_last();
        let b2 = b.drop_last();
        assert(a.remove(n) =~= a2);
        assert(b.remove(n) =~= b2);
        lemma_rank_order_unique(a2, b2);
        assert(a =~= a2.push(x));
        assert(b =~= b2.push(y));
    }
}

/// Relies on itertools' `sorted_by_key`, which collects the items and sorts them
/// with std's `sort_by_key`: the result holds the same pairs, ordered by their
/// second component.
#[verifier::external_body]
fn sorted_by_rank(pairs: Vec<(TreeIndex, usize)>) -> (r: Vec<(TreeIndex, usize)>)
    ensures
        r@.to_multiset() == pairs@.to_multiset(),
        forall|i: int, j: int| 0 <= i < j < r@.len() ==> r@[i].1 <= r@[j].1,
{
    pairs.into_iter().sorted_by_key(|p| p.1).collect()
}

/// The sum of the sizes of the entries in `s`.
pub open spec fn total_size(s: Seq<(TreeIndex, EntryMark)>) -> int
    decreases s.len(),
{
    if s.len() == 0 {
        0
    } else {
        total_size(s.drop_last()) + s.last().1.size
    }
}

proof fn lemma_total_size_nonneg(s: Seq<(TreeIndex, EntryMark)>)
    ensures
        total_size(s) >= 0,
    decreases s.len(),
{
    if s.len() > 0 {
        lemma_total_size_nonneg(s.drop_last());
    }
}

impl MarkPane {
    /// The marked entries in ascending order of rank.
    pub closed spec fn entries(self) -> Seq<(TreeIndex, EntryMark)> {
        self.marked@
    }

    /// The selected position in `entries()`, if any.
    pub closed spec fn selection(self) -> Option<usize> {
        self.selected
    }

    pub closed spec fn focused(self) -> bool {
        self.has_focus
    }

    /// The rank handed out most recently.
    pub closed spec fn last_rank(self) -> usize {
        self.last_sorting_index
    }

    /// Well-formedness: the entries fit a `Vec`, ranks strictly increase along the entries and never
    /// exceed the last rank handed out, tree indices are unique, a selection
    /// points at an entry (or at 0 in an empty set), and focus implies a
    /// selection.
    pub open spec fn wf(self) -> bool {
        let s = self.entries();
        &&& s.len() <= usize::MAX
        &&& rank_sorted(s)
        &&& keys_unique(s)
        &&& forall|i: int| 0 <= i < s.len() ==> s[i].1.index <= self.last_rank()
        &&& match self.selection() {
            Some(p) => p < s.len() || p == 0,
            None => true,
        }
        &&& self.focused() && s.len() > 0 ==> self.selection() is Some
    }

    /// The next deletion candidate and the selection that goes with it.
    pub open spec fn next_candidate(self) -> (Option<usize>, Option<TreeIndex>) {
        let s = self.entries();
        match self.selection() {
            Some(p) => if p < s.len() {
                if s[p as int].1.num_errors_during_deletion == 0 {
                    (Some(p), Some(s[p as int].0))
                } else if p + 1 < s.len() {
                    (Some((p + 1) as usize), Some(s[p + 1].0))
                } else {
                    (Some(p), None)
                }
            } else {
                (self.selection(), None)
            },
            None => (None, None),
        }
    }

    pub fn new() -> (r: Self)
        ensures
            r.wf(),
            r.entries().len() == 0,
            r.selection() is None,
            !r.focused(),
            r.last_rank() == 0,
    {
        MarkPane { selected: None, marked: Vec::new(), has_focus: false, last_sorting_index: 0 }
    }

    pub fn has_focus(&self) -> (r: bool)
        ensures
            r == self.focused(),
    {
        self.has_focus
    }

    pub fn selected(&self) -> (r: Option<usize>)
        ensures
            r == self.selection(),
    {
        self.selected
    }

    pub fn last_rank_assigned(&self) -> (r: usize)
        ensures
            r == self.last_rank(),
    {
        self.last_sorting_index
    }

    /// Gaining focus selects the last entry; losing it, or holding no entry,
    /// leaves nothing selected.
    pub fn set_focus(&mut self, has_focus: bool)
        requires
            old(self).wf(),
        ensures
            final(self).wf(),
            final(self).focused() == has_focus,
            final(self).entries() == old(self).entries(),
            final(self).last_rank() == old(self).last_rank(),
            final(self).selection() == if has_focus && old(self).entries().len() > 0 {
                Some((old(self).entries().len() - 1) as usize)
            } else {
                None::<usize>
            },
    {
        self.has_focus = has_focus;
        if has_focus && self.marked.len() > 0 {
            self.selected = Some(self.marked.len() - 1);
        } else {
            self.selected = None
        }
    }

    /// The position of tree index `index` among the entries.
    fn find(&self, index: TreeIndex) -> (r: Option<usize>)
        ensures
            match r {
                Some(i) => i < self.marked@.len() && self.marked@[i as int].0 == index,
                None => !has_key(self.marked@, index),
            },
    {
        let mut i: usize = 0;
        while i < self.marked.len()
            invariant
                i <= self.marked@.len(),
                forall|j: int| 0 <= j < i ==> self.marked@[j].0 != index,
            decreases self.marked@.len() - i,
        {
            if self.marked[i].0 == index {
                return Some(i);
            }
            i = i + 1;
        }
        None
    }

    /// Marks tree index `index` if it is unmarked and the tree still holds the
    /// node (`node` is its size and path), giving it the next rank; un-marks it
    /// if it is marked and `toggle` holds. Returns `None` when no entry is left.
    pub fn toggle_index(
        self,
        index: TreeIndex,
        node: Option<(u128, String)>,
        is_dir: bool,
        toggle: bool,
    ) -> (r: Option<Self>)
        requires
            self.wf(),
            self.last_rank() < usize::MAX,
        ensures
            r is None <==> toggled(
                self.entries(),
                self.last_rank(),
                index,
                node,
                is_dir,
                toggle,
            ).len() == 0,
            r matches Some(p) ==> {
                &&& p.wf()
                &&& p.entries() == toggled(
                    self.entries(),
                    self.last_rank(),
                    index,
                    node,
                    is_dir,
                    toggle,
                )
                &&& p.focused() == self.focused()
                &&& p.selection() == if self.focused() && self.selection() is None {
                    Some((p.entries().len() - 1) as usize)
                } else {
                    clamped(self.selection(), p.entries().len())
                }
                &&& p.last_rank() == if !has_key(self.entries(), index) && node is Some {
                    (self.last_rank() + 1) as usize
                } else {
                    self.last_rank()
                }
            },
            !has_key(self.entries(), index) && node is Some ==> (r matches Some(p) && p.last_rank()
                > self.last_rank() && p.entries().last().1.index == p.last_rank() && forall|i: int|
                0 <= i < self.entries().len() ==> #[trigger] self.entries()[i].1.index
                < p.entries().last().1.index),
    {
        let mut pane = self;
        let ghost s = pane.marked@;
        match pane.find(index) {
            None => {
                if let Some(n) = node {
                    let sorting_index = pane.last_sorting_index + 1;
                    pane.last_sorting_index = sorting_index;
                    pane.marked.push(
                        (
                            index,
                            EntryMark {
                                size: n.0,
                                path: n.1,
                                index: sorting_index,
                                num_errors_during_deletion: 0,
                                is_dir,
                            },
                        ),
                    );
                }
            },
            Some(i) => {
                proof {
                    let j = position_of(s, index);
                    assert(0 <= j < s.len() && s[j].0 == index);
                    assert(j == i as int);
                }
                if toggle {
                    pane.marked.remove(i);
                    let len = pane.marked.len();
                    if let Some(p) = pane.selected {
                        if p >= len && len > 0 {
                            pane.selected = Some(len - 1);
                        }
                    }
                }
            },
        }
        if pane.marked.len() == 0 {
            None
        } else {
            if pane.has_focus && pane.selected.is_none() {
                pane.selected = Some(pane.marked.len() - 1);
            }
            Some(pane)
        }
    }

    /// The marked entries in ascending order of rank.
    pub fn marked(&self) -> (r: &Vec<(TreeIndex, EntryMark)>)
        ensures
            r@ == self.entries(),
    {
        &self.marked
    }

    /// The tree index at position `position` of the rank order, looked up in
    /// the order sorted afresh from the entries' ranks.
    pub fn tree_index_by_list_position(&self, position: usize) -> (r: Option<TreeIndex>)
        requires
            self.wf(),
        ensures
            r == if position < self.entries().len() {
                Some(self.entries()[position as int].0)
            } else {
                None::<TreeIndex>
            },
    {
        let sorted = self.marked_sorted_by_index();
        if position < sorted.len() {
            Some(sorted[position])
        } else {
            None
        }
    }

    /// The tree indices of all entries in ascending order of rank, sorted
    /// afresh from the entries and their ranks.
    pub fn marked_sorted_by_index(&self) -> (r: Vec<TreeIndex>)
        requires
            self.wf(),
        ensures
            r@ == keys_of(self.entries()),
    {
        let mut pairs: Vec<(TreeIndex, usize)> = Vec::new();
        let mut i: usize = 0;
        while i < self.marked.len()
            invariant
                i <= self.marked@.len(),
                pairs@ == rank_pairs(self.marked@.subrange(0, i as int)),
            decreases self.marked@.len() - i,
        {
            pairs.push((self.marked[i].0, self.marked[i].1.index));
            proof {
                assert(rank_pairs(self.marked@.subrange(0, i + 1)) =~= rank_pairs(
                    self.marked@.subrange(0, i as int),
                ).push((self.marked@[i as int].0, self.marked@[i as int].1.index)));
            }
            i = i + 1;
        }
        proof {
            assert(self.marked@.subrange(0, i as int) =~= self.marked@);
        }
        let ghost expected = pairs@;
        let sorted = sorted_by_rank(pairs);
        proof {
            lemma_rank_order_unique(expected, sorted@);
        }
        let mut r: Vec<TreeIndex> = Vec::new();
        let mut i: usize = 0;
        while i < sorted.len()
            invariant
                i <= sorted@.len(),
                sorted@ == rank_pairs(self.marked@),
                r@ == keys_of(self.marked@.subrange(0, i as int)),
            decreases sorted@.len() - i,
        {
            r.push(sorted[i].0);
            proof {
                assert(keys_of(self.marked@.subrange(0, i + 1)) =~= keys_of(
                    self.marked@.subrange(0, i as int),
                ).push(self.marked@[i as int].0));
            }
            i = i + 1;
        }
        proof {
            assert(self.marked@.subrange(0, i as int) =~= self.marked@);
        }
        r
    }

    /// Moves the selection, if any, and keeps it on an entry.
    pub fn change_selection(&mut self, direction: CursorDirection)
        requires
            old(self).wf(),
        ensures
            final(self).wf(),
            final(self).entries() == old(self).entries(),
            final(self).focused() == old(self).focused(),
            final(self).last_rank() == old(self).last_rank(),
            final(self).selection() == moved_selection(
                old(self).selection(),
                direction,
                old(self).entries().len(),
            ),
    {
        if let Some(selected) = self.selected {
            let m = direction.move_cursor(selected);
            let last = self.marked.len().saturating_sub(1);
            self.selected = Some(if m < last { m } else { last });
        }
    }

    /// Removes the selected entry from the set (nothing is deleted on disk) and
    /// keeps the selection near where it was. Returns `None` when no entry is left.
    pub fn remove_selected(self) -> (r: Option<Self>)
        requires
            self.wf(),
        ensures
            removal(self, r),
    {
        let mut pane = self;
        if let Some(selected) = pane.selected {
            if selected < pane.marked.len() {
                let se_len = pane.marked.len();
                pane.marked.remove(selected);
                let new_len = se_len - 1;
                if new_len == 0 {
                    return None;
                }
                if new_len == selected {
                    pane.selected = Some(selected - 1);
                }
                return Some(pane);
            }
        }
        Some(pane)
    }

    /// Picks the next entry a deletion pass hands to the callback. An entry
    /// without failures at the selection is the candidate; past one with
    /// failures the selection moves on by one and the entry there is the
    /// candidate; with nothing selected, or nothing left, there is none.
    pub fn next_entry_for_deletion(&mut self) -> (r: Option<TreeIndex>)
        requires
            old(self).wf(),
        ensures
            final(self).wf(),
            final(self).entries() == old(self).entries(),
            final(self).focused() == old(self).focused(),
            final(self).last_rank() == old(self).last_rank(),
            (final(self).selection(), r) == old(self).next_candidate(),
            r is None ==> *final(self) == *old(self),
    {
        if let Some(position) = self.selected {
            if position < self.marked.len() {
                if self.marked[position].1.num_errors_during_deletion == 0 {
                    return self.tree_index_by_list_position(position);
                }
                if position + 1 < self.marked.len() {
                    self.selected = Some(position + 1);
                    return self.tree_index_by_list_position(position + 1);
                }
                return None;
            }
        }
        None
    }

    /// Removes the selected entry once its deletion succeeded.
    pub fn delete_entry(self) -> (r: Option<Self>)
        requires
            self.wf(),
        ensures
            removal(self, r),
    {
        self.remove_selected()
    }

    /// Records `num_errors` failures on the selected entry.
    pub fn set_error_on_marked_item(&mut self, num_errors: usize)
        requires
            old(self).wf(),
        ensures
            final(self).wf(),
            final(self).selection() == old(self).selection(),
            final(self).focused() == old(self).focused(),
            final(self).last_rank() == old(self).last_rank(),
            final(self).entries() == match old(self).selection() {
                Some(p) => if p < old(self).entries().len() {
                    old(self).entries().update(
                        p as int,
                        with_errors(old(self).entries()[p as int], num_errors),
                    )
                } else {
                    old(self).entries()
                },
                None => old(self).entries(),
            },
    {
        if let Some(p) = self.selected {
            if p < self.marked.len() {
                let (k, mut e) = self.marked.remove(p);
                e.num_errors_during_deletion = num_errors;
                self.marked.insert(p, (k, e));
                proof {
                    let o = old(self).marked@;
                    assert(self.marked@ =~= o.update(p as int, with_errors(o[p as int], num_errors)));
                }
            }
        }
    }

    /// Clears every failure count and selects the first entry, so that a pass
    /// starts afresh.
    pub fn prepare_deletion(self) -> (r: Option<(Self, Option<MarkMode>)>)
        requires
            self.wf(),
        ensures
            r matches Some((q, m)) && m == Some(MarkMode::Delete) && reset_for_deletion(self, q),
    {
        let ghost start = self;
        let mut pane = self;
        let ghost o = pane.marked@;
        let n = pane.marked.len();
        let mut i: usize = 0;
        while i < n
            invariant
                n == o.len(),
                i <= n,
                pane.marked@.len() == n,
                forall|j: int| 0 <= j < i ==> pane.marked@[j] == with_errors(o[j], 0),
                forall|j: int| i <= j < n ==> pane.marked@[j] == o[j],
                pane.has_focus == start.has_focus,
                pane.last_sorting_index == start.last_sorting_index,
            decreases n - i,
        {
            let ghost before = pane.marked@;
            let (k, mut e) = pane.marked.remove(i);
            e.num_errors_during_deletion = 0;
            pane.marked.insert(i, (k, e));
            proof {
                assert(pane.marked@ =~= before.update(i as int, with_errors(before[i as int], 0)));
            }
            i = i + 1;
        }
        pane.selected = Some(0);
        proof {
            let s = pane.marked@;
            assert forall|a: int, b: int| 0 <= a < b < s.len() implies s[a].1.index
                < s[b].1.index && s[a].0 != s[b].0 by {
                assert(s[a] == with_errors(o[a], 0));
                assert(s[b] == with_errors(o[b], 0));
            }
            assert forall|a: int| 0 <= a < s.len() implies s[a].1.index
                <= pane.last_sorting_index by {
                assert(s[a] == with_errors(o[a], 0));
            }
        }
        Some((pane, Some(MarkMode::Delete)))
    }

    /// Handles a key press: the commit key starts a deletion pass, the removal
    /// keys take the selected entry out of the set, the movement keys move the
    /// selection; other keys change nothing. `None` comes back once the set is
    /// empty.
    pub fn key(self, key: Key) -> (r: Option<(Self, Option<MarkMode>)>)
        requires
            self.wf(),
        ensures
            is_commit_key(key) ==> (r matches Some((q, m)) && m == Some(MarkMode::Delete)
                && reset_for_deletion(self, q)),
            is_remove_key(key) ==> match r {
                Some((q, m)) => m is None && removal(self, Some(q)),
                None => removal(self, None),
            },
            !is_commit_key(key) && !is_remove_key(key) ==> (r matches Some((q, m)) && m is None
                && q.wf() && q.entries() == self.entries() && q.focused() == self.focused()
                && q.last_rank() == self.last_rank() && q.selection() == match key_direction(
                key,
            ) {
                Some(d) => moved_selection(self.selection(), d, self.entries().len()),
                None => self.selection(),
            }),
    {
        let mut pane = self;
        match key {
            Key::Ctrl('r') => return pane.prepare_deletion(),
            Key::Char('x') | Key::Char('d') | Key::Char(' ') => {
                return match pane.remove_selected() {
                    Some(s) => Some((s, None)),
                    None => None,
                };
            },
            Key::Ctrl('u') | Key::PageUp => pane.change_selection(CursorDirection::PageUp),
            Key::Char('k') | Key::Up => pane.change_selection(CursorDirection::Up),
            Key::Char('j') | Key::Down => pane.change_selection(CursorDirection::Down),
            Key::Ctrl('d') | Key::PageDown => pane.change_selection(CursorDirection::PageDown),
            _ => {},
        }
        Some((pane, None))
    }

    /// Runs a deletion pass: each candidate (see `next_entry_for_deletion`)
    /// is handed to `delete_fn`; on success it leaves the set, on failure the
    /// reported count is recorded on it and the pass moves past it. The pass
    /// ends when there is no candidate, with the remaining set, or with `None`
    /// once the set is empty.
    #[verifier::rlimit(60)]
    #[verifier::spinoff_prover]
    pub fn iterate_deletable_items<F>(self, delete_fn: F) -> (r: Option<Self>) where
        F: Fn(MarkPane, TreeIndex) -> Result<MarkPane, (MarkPane, usize)>,

        requires
            self.wf(),
            forall|p: MarkPane, i: TreeIndex| delete_fn.requires((p, i)),
            forall|p: MarkPane, i: TreeIndex, o: Result<MarkPane, (MarkPane, usize)>|
                delete_fn.ensures((p, i), o) ==> passes_through(p, o),
        ensures
            self.next_candidate().1 is None ==> r == Some(self),
            r is None ==> self.next_candidate().1 is Some,
            r is None ==> forall|i: int|
                0 <= i < self.entries().len() ==> reported_deleted(
                    delete_fn,
                    #[trigger] self.entries()[i].0,
                ),
            r matches Some(q) ==> {
                &&& q.wf()
                &&& q.next_candidate().1 is None
                &&& q.entries().len() > 0 || self.entries().len() == 0
                &&& self.selection() is Some ==> q.selection() is Some
                &&& pass_record(self.entries(), delete_fn, q.entries())
                &&& key_set(q).subset_of(key_set(self))
                &&& q.focused() == self.focused()
                &&& q.last_rank() == self.last_rank()
                &&& failed_before_selection(self) ==> forall|j: int|
                    0 <= j < q.entries().len()
                        ==> #[trigger] q.entries()[j].1.num_errors_during_deletion > 0
                &&& failed_before_selection(self) && q.entries().len() > 0 ==> q.selection()
                    == Some((q.entries().len() - 1) as usize)
            },
    {
        let ghost start = self;
        let ghost keys0 = key_set(self);
        let ghost mut called: Set<TreeIndex> = Set::empty();
        proof {
            lemma_calls_bounded(self, called);
            lemma_record_start(self.entries(), delete_fn);
        }
        let mut pane = self;
        loop
            invariant
                pane.wf(),
                pass_inv(pane, called),
                start == self,
                start.wf(),
                pass_record(start.entries(), delete_fn, pane.entries()),
                pane.entries().len() > 0 || start.entries().len() == 0,
                start.selection() is Some ==> pane.selection() is Some,
                pane == start || start.next_candidate().1 is Some,
                keys0 == key_set(start),
                called.finite(),
                called.len() <= start.entries().len(),
                called.subset_of(keys0),
                key_set(pane).subset_of(keys0),
                pane.focused() == start.focused(),
                pane.last_rank() == start.last_rank(),
                failed_before_selection(start) ==> failed_before_selection(pane),
                forall|p: MarkPane, i: TreeIndex| delete_fn.requires((p, i)),
                forall|p: MarkPane, i: TreeIndex, o: Result<MarkPane, (MarkPane, usize)>|
                    delete_fn.ensures((p, i), o) ==> passes_through(p, o),
            decreases start.entries().len() - called.len(),
        {
            let ghost s0 = pane;
            proof {
                lemma_candidate_is_fresh(s0, called);
                lemma_calls_bounded(start, called);
            }
            match pane.next_entry_for_deletion() {
                None => {
                    proof {
                        lemma_candidate_keeps_pass(s0, called, pane);
                    }
                    return Some(pane);
                },
                Some(k) => {
                    let ghost s1 = pane;
                    proof {
                        lemma_candidate_keeps_pass(s0, called, s1);
                    }
                    match delete_fn(pane, k) {
                        Ok(p) => {
                            proof {
                                assert(delete_fn.ensures((s1, k), Ok::<MarkPane, (MarkPane, usize)>(s1)));
                            }
                            pane = p;
                            let next = pane.delete_entry();
                            proof {
                                lemma_success_keeps_pass(s1, called, k, next);
                                lemma_success_keeps_record(start.entries(), delete_fn, s1, k, next);
                            }
                            match next {
                                Some(p) => pane = p,
                                None => return None,
                            }
                        },
                        Err((p, num_errors)) => {
                            proof {
                                assert(delete_fn.ensures(
                                    (s1, k),
                                    Err::<MarkPane, (MarkPane, usize)>((s1, num_errors)),
                                ));
                            }
                            pane = p;
                            pane.set_error_on_marked_item(num_errors);
                            proof {
                                lemma_failure_keeps_record(start.entries(), delete_fn, s1, k, num_errors, pane);
                                lemma_failure_keeps_pass(s1, called, k, num_errors, pane);
                            }
                        },
                    }
                    proof {
                        called = called.insert(k);
                        lemma_calls_bounded(start, called);
                    }
                },
            }
        }
    }

    /// The total size of the marked entries, saturating at `u128::MAX`.
    pub fn marked_size(&self) -> (r: u128)
        ensures
            r == if total_size(self.entries()) <= u128::MAX {
                total_size(self.entries())
            } else {
                u128::MAX as int
            },
    {
        let mut sum: u128 = 0;
        let mut i: usize = 0;
        while i < self.marked.len()
            invariant
                i <= self.marked@.len(),
                sum == if total_size(self.marked@.subrange(0, i as int)) <= u128::MAX {
                    total_size(self.marked@.subrange(0, i as int))
                } else {
                    u128::MAX as int
                },
            decreases self.marked@.len() - i,
        {
            proof {
                let a = self.marked@.subrange(0, i as int);
                let b = self.marked@.subrange(0, i + 1);
                assert(b.drop_last() =~= a);
                lemma_total_size_nonneg(a);
            }
            sum = sum.saturating_add(self.marked[i].1.size);
            i = i + 1;
        }
        proof {
            assert(self.marked@.subrange(0, i as int) =~= self.marked@);
        }
        sum
    }
}

impl Default for MarkPane {
    fn default() -> (r: Self)
        ensures
            r.wf(),
            r.entries().len() == 0,
            r.selection() is None,
            !r.focused(),
            r.last_rank() == 0,
    {
        MarkPane::new()
    }
}

} // verus!
