//! The state of the downloads panel: the listed files, which of them the
//! search shows and in what order, the selection, and the texts shown.
use vstd::prelude::*;
use crate::text::{chars_of, string_of, append_str, push_decimal, decimal, lemma_text_order_facts,
    text_order, compare_text, Order, lowercase, to_lowercase, contains_text, contains_chars, trim, trim_spec};
use crate::pathing::{same_path, same_path_spec, opt_view, display_name, file_name};
use crate::sort::{stable_sort, lemma_insert_by_at, total_preorder};
use crate::types::AppConfig;
use crate::memory::{Memory, top_destination, top_destination_spec};
use crate::file_ops::{should_ignore_path, should_ignore_spec};
use crate::queues::unknown_source;

verus! {

/// A file listed in the panel.
pub struct RowItem {
    pub path: String,
    pub name: String,
    pub domain: String,
    pub suggestion: Option<String>,
    pub size_bytes: u64,
    pub modified_ms: u128,
}

/// The abstract value of a listed file.
pub struct RowView {
    pub path: Seq<char>,
    pub name: Seq<char>,
    pub domain: Seq<char>,
    pub suggestion: Option<Seq<char>>,
    pub size_bytes: u64,
    pub modified_ms: u128,
}

pub open spec fn row_view(r: RowItem) -> RowView {
    RowView {
        path: r.path@,
        name: r.name@,
        domain: r.domain@,
        suggestion: opt_view(r.suggestion),
        size_bytes: r.size_bytes,
        modified_ms: r.modified_ms,
    }
}

pub open spec fn rows_view(v: Seq<RowItem>) -> Seq<RowView> {
    Seq::new(v.len(), |i: int| row_view(v[i]))
}

impl RowItem {
    /// A copy of this row.
    pub fn copy(&self) -> (r: RowItem)
        ensures
            row_view(r) == row_view(*self),
    {
        RowItem {
            path: self.path.clone(),
            name: self.name.clone(),
            domain: self.domain.clone(),
            suggestion: match &self.suggestion {
                Some(s) => Some(s.clone()),
                None => None,
            },
            size_bytes: self.size_bytes,
            modified_ms: self.modified_ms,
        }
    }
}

/// The column and direction the list is sorted by.
#[derive(PartialEq, Eq, Structural, Clone, Copy, Debug)]
pub enum SortBy {
    NameAsc,
    NameDesc,
    DomainAsc,
    DomainDesc,
    SizeAsc,
    SizeDesc,
    TimeAsc,
    TimeDesc,
}

pub open spec fn num_order(a: int, b: int) -> Order {
    if a < b { Order::Less } else if a == b { Order::Equal } else { Order::Greater }
}

/// `Ordering::then`: the second comparison decides only ties of the first.
pub open spec fn then_order(first: Order, second: Order) -> Order {
    if first == Order::Equal { second } else { first }
}

/// How two rows compare in the given sort: by the sort's column, ties broken
/// by the name (or, for names, by the time), both in the sort's direction.
pub open spec fn row_order(l: RowView, r: RowView, sort_by: SortBy) -> Order {
    match sort_by {
        SortBy::NameAsc => then_order(text_order(l.name, r.name), num_order(l.modified_ms as int, r.modified_ms as int)),
        SortBy::NameDesc => then_order(text_order(r.name, l.name), num_order(r.modified_ms as int, l.modified_ms as int)),
        SortBy::DomainAsc => then_order(text_order(l.domain, r.domain), text_order(l.name, r.name)),
        SortBy::DomainDesc => then_order(text_order(r.domain, l.domain), text_order(r.name, l.name)),
        SortBy::SizeAsc => then_order(num_order(l.size_bytes as int, r.size_bytes as int), text_order(l.name, r.name)),
        SortBy::SizeDesc => then_order(num_order(r.size_bytes as int, l.size_bytes as int), text_order(r.name, l.name)),
        SortBy::TimeAsc => then_order(num_order(l.modified_ms as int, r.modified_ms as int), text_order(l.name, r.name)),
        SortBy::TimeDesc => then_order(num_order(r.modified_ms as int, l.modified_ms as int), text_order(r.name, l.name)),
    }
}

pub(crate) fn order_u128(a: u128, b: u128) -> (r: Order)
    ensures
        r == num_order(a as int, b as int),
{
    if a < b { Order::Less } else if a == b { Order::Equal } else { Order::Greater }
}

pub(crate) fn order_u64(a: u64, b: u64) -> (r: Order)
    ensures
        r == num_order(a as int, b as int),
{
    if a < b { Order::Less } else if a == b { Order::Equal } else { Order::Greater }
}

pub(crate) fn order_text(a: &str, b: &str) -> (r: Order)
    ensures
        r == text_order(a@, b@),
{
    compare_text(chars_of(a).as_slice(), chars_of(b).as_slice())
}

pub(crate) fn then(first: Order, second: Order) -> (r: Order)
    ensures
        r == then_order(first, second),
{
    match first {
        Order::Equal => second,
        _ => first,
    }
}

/// How two rows compare in the given sort.
pub fn compare_rows(left: &RowItem, right: &RowItem, sort_by: SortBy) -> (r: Order)
    ensures
        r == row_order(row_view(*left), row_view(*right), sort_by),
{
    match sort_by {
        SortBy::NameAsc => then(order_text(left.name.as_str(), right.name.as_str()), order_u128(left.modified_ms, right.modified_ms)),
        SortBy::NameDesc => then(order_text(right.name.as_str(), left.name.as_str()), order_u128(right.modified_ms, left.modified_ms)),
        SortBy::DomainAsc => then(order_text(left.domain.as_str(), right.domain.as_str()), order_text(left.name.as_str(), right.name.as_str())),
        SortBy::DomainDesc => then(order_text(right.domain.as_str(), left.domain.as_str()), order_text(right.name.as_str(), left.name.as_str())),
        SortBy::SizeAsc => then(order_u64(left.size_bytes, right.size_bytes), order_text(left.name.as_str(), right.name.as_str())),
        SortBy::SizeDesc => then(order_u64(right.size_bytes, left.size_bytes), order_text(right.name.as_str(), left.name.as_str())),
        SortBy::TimeAsc => then(order_u128(left.modified_ms, right.modified_ms), order_text(left.name.as_str(), right.name.as_str())),
        SortBy::TimeDesc => then(order_u128(right.modified_ms, left.modified_ms), order_text(right.name.as_str(), left.name.as_str())),
    }
}

/// The search keyword: the search text trimmed and lowercased.
pub open spec fn keyword_of(search: Seq<char>) -> Seq<char> {
    lowercase(trim_spec(search))
}

/// Whether the search shows a row: an empty keyword shows every row; otherwise
/// the lowercased name or domain must contain the keyword.
pub open spec fn row_matches(row: RowView, keyword: Seq<char>) -> bool {
    keyword.len() == 0 || contains_text(lowercase(row.name), keyword) || contains_text(lowercase(row.domain), keyword)
}

/// The indices below `n` of the rows the search shows, in order.
pub open spec fn matching_indices(items: Seq<RowView>, keyword: Seq<char>, n: nat) -> Seq<usize>
    decreases n,
{
    if n == 0 {
        Seq::empty()
    } else {
        let prev = matching_indices(items, keyword, (n - 1) as nat);
        if row_matches(items[n - 1], keyword) { prev.push((n - 1) as usize) } else { prev }
    }
}

/// Row indices ordered by how their rows compare.
pub open spec fn index_order(items: Seq<RowView>, sort_by: SortBy) -> spec_fn(usize, usize) -> bool {
    |a: usize, b: usize| row_order(items[a as int], items[b as int], sort_by) != Order::Greater
}

/// The rows shown, as indices: those the search shows, sorted stably.
pub open spec fn visible_spec(items: Seq<RowView>, search: Seq<char>, sort_by: SortBy) -> Seq<usize> {
    stable_sort(matching_indices(items, keyword_of(search), items.len()), index_order(items, sort_by))
}

/// Whether the selection holds `p`, by `Path`'s equality.
pub open spec fn in_selection(selected: Seq<Seq<char>>, p: Seq<char>) -> bool {
    exists|i: int| 0 <= i < selected.len() && same_path_spec(#[trigger] selected[i], p)
}

/// No path is selected twice.
pub open spec fn selection_unique(selected: Seq<Seq<char>>) -> bool {
    forall|i: int, j: int| 0 <= i < j < selected.len() ==> !same_path_spec(#[trigger] selected[i], #[trigger] selected[j])
}

/// The panel's state.
pub struct PanelState {
    pub config: AppConfig,
    pub items: Vec<RowItem>,
    /// The shown rows, as indices into `items`, in display order.
    pub visible: Vec<usize>,
    pub selected: Vec<String>,
    pub focus_path: Option<String>,
    pub anchor_path: Option<String>,
    pub search: String,
    pub sort_by: SortBy,
    pub status: String,
    pub monitoring_running: Option<bool>,
}

pub open spec fn strings_of(v: Seq<String>) -> Seq<Seq<char>> {
    Seq::new(v.len(), |i: int| v[i]@)
}

impl PanelState {
    pub open spec fn rows(&self) -> Seq<RowView> {
        rows_view(self.items@)
    }

    pub open spec fn selection(&self) -> Seq<Seq<char>> {
        strings_of(self.selected@)
    }

    /// The path of the row shown at position `k`.
    pub open spec fn visible_path(&self, k: int) -> Seq<char> {
        self.rows()[self.visible@[k] as int].path
    }

    /// Shown rows point into the list, and nothing is selected twice.
    pub open spec fn wf(&self) -> bool {
        &&& forall|k: int| 0 <= k < self.visible@.len() ==> (#[trigger] self.visible@[k]) < self.items@.len()
        &&& selection_unique(self.selection())
    }

    /// Whether some shown row has the path `p`.
    pub open spec fn path_visible(&self, p: Seq<char>) -> bool {
        exists|k: int| 0 <= k < self.visible@.len() && same_path_spec(#[trigger] self.visible_path(k), p)
    }
}

/// The first position at or after `from` in the shown rows whose path is
/// selected, or -1.
pub open spec fn first_selected_from(items: Seq<RowView>, visible: Seq<usize>, selected: Seq<Seq<char>>, from: int) -> int
    decreases visible.len() - from,
{
    if from >= visible.len() || from < 0 {
        -1
    } else if in_selection(selected, items[visible[from] as int].path) {
        from
    } else {
        first_selected_from(items, visible, selected, from + 1)
    }
}

} // verus!

verus! {

/// Whether the selection holds `p`.
pub(crate) fn selection_has(selected: &Vec<String>, p: &str) -> (r: bool)
    ensures
        r == in_selection(strings_of(selected@), p@),
{
    let mut i: usize = 0;
    while i < selected.len()
        invariant
            i <= selected@.len(),
            forall|k: int| 0 <= k < i ==> !same_path_spec(#[trigger] strings_of(selected@)[k], p@),
        decreases selected.len() - i,
    {
        if same_path(selected[i].as_str(), p) {
            assert(same_path_spec(strings_of(selected@)[i as int], p@));
            return true;
        }
        i = i + 1;
    }
    false
}

/// Adds `p` to the selection unless it is there; says whether it was added,
/// as `HashSet::insert` does.
pub(crate) fn selection_insert(selected: &mut Vec<String>, p: &str) -> (added: bool)
    requires
        selection_unique(strings_of(old(selected)@)),
    ensures
        selection_unique(strings_of(final(selected)@)),
        added == !in_selection(strings_of(old(selected)@), p@),
        forall|q: Seq<char>| #[trigger] in_selection(strings_of(final(selected)@), q) ==
            (in_selection(strings_of(old(selected)@), q) || same_path_spec(q, p@)),
        final(selected)@.len() == old(selected)@.len() + if added { 1int } else { 0int },
{
    if selection_has(selected, p) {
        proof {
            let s = strings_of(selected@);
            assert forall|q: Seq<char>| #[trigger] in_selection(s, q) == (in_selection(s, q) || same_path_spec(q, p@)) by {
                if same_path_spec(q, p@) {
                    let i = choose|i: int| 0 <= i < s.len() && same_path_spec(#[trigger] s[i], p@);
                    assert(same_path_spec(s[i], q));
                }
            }
        }
        return false;
    }
    let ghost s = strings_of(selected@);
    selected.push(p.to_owned());
    let ghost t = strings_of(selected@);
    assert(t =~= s.push(p@));
    proof {
        assert forall|i: int, j: int| 0 <= i < j < t.len() implies !same_path_spec(#[trigger] t[i], #[trigger] t[j]) by {
            if j == s.len() {
                assert(t[i] == s[i]);
            } else {
                assert(t[i] == s[i] && t[j] == s[j]);
            }
        }
        assert forall|q: Seq<char>| #[trigger] in_selection(t, q) == (in_selection(s, q) || same_path_spec(q, p@)) by {
            if in_selection(s, q) {
                let i = choose|i: int| 0 <= i < s.len() && same_path_spec(#[trigger] s[i], q);
                assert(t[i] == s[i]);
            }
            if same_path_spec(q, p@) {
                assert(same_path_spec(t[s.len() as int], q));
            }
            if in_selection(t, q) {
                let i = choose|i: int| 0 <= i < t.len() && same_path_spec(#[trigger] t[i], q);
                if i < s.len() {
                    assert(t[i] == s[i]);
                }
            }
        }
    }
    true
}

/// Takes `p` out of the selection.
pub(crate) fn selection_remove(selected: &mut Vec<String>, p: &str)
    requires
        selection_unique(strings_of(old(selected)@)),
    ensures
        selection_unique(strings_of(final(selected)@)),
        forall|q: Seq<char>| #[trigger] in_selection(strings_of(final(selected)@), q) ==
            (in_selection(strings_of(old(selected)@), q) && !same_path_spec(q, p@)),
        in_selection(strings_of(old(selected)@), p@) ==> final(selected)@.len() == old(selected)@.len() - 1,
        !in_selection(strings_of(old(selected)@), p@) ==> final(selected)@.len() == old(selected)@.len(),
{
    let ghost s = strings_of(selected@);
    let mut i: usize = 0;
    while i < selected.len()
        invariant
            i <= selected@.len(),
            s == strings_of(selected@),
            s == strings_of(old(selected)@),
            selection_unique(s),
            forall|k: int| 0 <= k < i ==> !same_path_spec(#[trigger] s[k], p@),
        decreases selected.len() - i,
    {
        if same_path(selected[i].as_str(), p) {
            assert(same_path_spec(s[i as int], p@));
            selected.remove(i);
            let ghost t = strings_of(selected@);
            assert(t =~= s.remove(i as int));
            proof {
                assert forall|a: int, b: int| 0 <= a < b < t.len() implies !same_path_spec(#[trigger] t[a], #[trigger] t[b]) by {
                    let a2 = if a < i { a } else { a + 1 };
                    let b2 = if b < i { b } else { b + 1 };
                    assert(t[a] == s[a2] && t[b] == s[b2]);
                }
                assert forall|q: Seq<char>| #[trigger] in_selection(t, q) == (in_selection(s, q) && !same_path_spec(q, p@)) by {
                    if in_selection(t, q) {
                        let a = choose|a: int| 0 <= a < t.len() && same_path_spec(#[trigger] t[a], q);
                        let a2 = if a < i { a } else { a + 1 };
                        assert(t[a] == s[a2]);
                        if same_path_spec(q, p@) {
                            assert(same_path_spec(s[a2], s[i as int]));
                        }
                    }
                    if in_selection(s, q) && !same_path_spec(q, p@) {
                        let a = choose|a: int| 0 <= a < s.len() && same_path_spec(#[trigger] s[a], q);
                        assert(a != i);
                        let a2 = if a < i { a } else { a - 1 };
                        assert(t[a2] == s[a]);
                    }
                }
            }
            return;
        }
        i = i + 1;
    }
    proof {
        assert forall|q: Seq<char>| #[trigger] in_selection(s, q) == (in_selection(s, q) && !same_path_spec(q, p@)) by {
            if in_selection(s, q) && same_path_spec(q, p@) {
                let a = choose|a: int| 0 <= a < s.len() && same_path_spec(#[trigger] s[a], q);
                assert(same_path_spec(s[a], p@));
            }
        }
    }
}

impl PanelState {
    /// Whether some shown row has the path `p`.
    pub fn path_is_visible(&self, p: &str) -> (r: bool)
        requires
            self.wf(),
        ensures
            r == self.path_visible(p@),
    {
        let mut k: usize = 0;
        while k < self.visible.len()
            invariant
                self.wf(),
                k <= self.visible@.len(),
                forall|j: int| 0 <= j < k ==> !same_path_spec(#[trigger] self.visible_path(j), p@),
            decreases self.visible.len() - k,
        {
            let idx = self.visible[k];
            assert(self.visible@[k as int] < self.items@.len());
            if same_path(self.items[idx].path.as_str(), p) {
                assert(same_path_spec(self.visible_path(k as int), p@));
                return true;
            }
            k = k + 1;
        }
        false
    }

    /// The path of the first shown row that is selected.
    pub fn selected_path_in_visible_order(&self) -> (r: Option<String>)
        requires
            self.wf(),
        ensures
            ({
                let k = first_selected_from(self.rows(), self.visible@, self.selection(), 0);
                &&& k < self.visible@.len()
                &&& match r {
                    Some(p) => k >= 0 && p@ == self.visible_path(k),
                    None => k == -1,
                }
            }),
    {
        let ghost rows = self.rows();
        let ghost sel = self.selection();
        let mut k: usize = 0;
        while k < self.visible.len()
            invariant
                self.wf(),
                rows == self.rows(),
                sel == self.selection(),
                k <= self.visible@.len(),
                first_selected_from(rows, self.visible@, sel, 0) == first_selected_from(rows, self.visible@, sel, k as int),
            decreases self.visible.len() - k,
        {
            let idx = self.visible[k];
            assert(self.visible@[k as int] < self.items@.len());
            if selection_has(&self.selected, self.items[idx].path.as_str()) {
                return Some(self.items[idx].path.clone());
            }
            k = k + 1;
        }
        None
    }
}

} // verus!

verus! {

/// The fields that neither the shown rows nor the focus change.
pub open spec fn same_listing(a: PanelState, b: PanelState) -> bool {
    &&& a.config == b.config
    &&& a.items == b.items
    &&& a.search == b.search
    &&& a.sort_by == b.sort_by
    &&& a.status == b.status
    &&& a.monitoring_running == b.monitoring_running
}

fn row_after(left: &RowItem, right: &RowItem, sort_by: SortBy) -> (r: bool)
    ensures
        r == (row_order(row_view(*left), row_view(*right), sort_by) == Order::Greater),
{
    match compare_rows(left, right, sort_by) {
        Order::Greater => true,
        _ => false,
    }
}

impl PanelState {
    /// Recomputes the shown rows from the search and the sort.
    pub fn recompute_visible(&mut self)
        requires
            old(self).wf(),
        ensures
            final(self).wf(),
            final(self).visible@ == visible_spec(old(self).rows(), old(self).search@, old(self).sort_by),
            forall|i: int| 0 <= i < old(self).items@.len() ==> (#[trigger] final(self).visible@.contains(i as usize) <==> (
                lowercase(trim_spec(old(self).search@)).len() == 0
                || contains_text(lowercase(old(self).items@[i].name@), lowercase(trim_spec(old(self).search@)))
                || contains_text(lowercase(old(self).items@[i].domain@), lowercase(trim_spec(old(self).search@))))),
            same_listing(*final(self), *old(self)),
            final(self).selected == old(self).selected,
            final(self).focus_path == old(self).focus_path,
            final(self).anchor_path == old(self).anchor_path,
    {
        let ghost rows = self.rows();
        let trimmed = trim(self.search.as_str());
        let kw_s = to_lowercase(trimmed.as_str());
        let kw = chars_of(kw_s.as_str());
        let ghost keyword = keyword_of(self.search@);
        assert(kw@ == keyword);
        let n = self.items.len();
        let mut filtered: Vec<usize> = Vec::new();
        let mut i: usize = 0;
        while i < n
            invariant
                i <= n == self.items@.len(),
                rows == self.rows(),
                kw@ == keyword,
                filtered@ == matching_indices(rows, keyword, i as nat),
                forall|k: int| 0 <= k < filtered@.len() ==> (#[trigger] filtered@[k]) < n,
            decreases n - i,
        {
            assert(rows[i as int] == row_view(self.items@[i as int]));
            let name_l = to_lowercase(self.items[i].name.as_str());
            let domain_l = to_lowercase(self.items[i].domain.as_str());
            let shown = kw.len() == 0
                || contains_chars(chars_of(name_l.as_str()).as_slice(), kw.as_slice())
                || contains_chars(chars_of(domain_l.as_str()).as_slice(), kw.as_slice());
            if shown {
                filtered.push(i);
            }
            i = i + 1;
        }
        let ghost fs = filtered@;
        let ghost le = index_order(rows, self.sort_by);
        let mut r: Vec<usize> = Vec::new();
        let mut i: usize = 0;
        assert(fs.take(0) =~= Seq::<usize>::empty());
        while i < filtered.len()
            invariant
                i <= filtered@.len(),
                fs == filtered@,
                n == self.items@.len(),
                rows == self.rows(),
                le == index_order(rows, self.sort_by),
                forall|k: int| 0 <= k < filtered@.len() ==> (#[trigger] filtered@[k]) < n,
                forall|k: int| 0 <= k < r@.len() ==> (#[trigger] r@[k]) < n,
                r@ == stable_sort(fs.take(i as int), le),
            decreases filtered.len() - i,
        {
            let x = filtered[i];
            let mut j = r.len();
            while j > 0 && row_after(&self.items[r[j - 1]], &self.items[x], self.sort_by)
                invariant
                    j <= r@.len(),
                    x < n,
                    n == self.items@.len(),
                    rows == self.rows(),
                    le == index_order(rows, self.sort_by),
                    forall|k: int| 0 <= k < r@.len() ==> (#[trigger] r@[k]) < n,
                    forall|k: int| j <= k < r@.len() ==> !le(#[trigger] r@[k], x),
                decreases j,
            {
                assert(rows[r@[j - 1] as int] == row_view(self.items@[r@[j - 1] as int]));
                assert(rows[x as int] == row_view(self.items@[x as int]));
                j = j - 1;
            }
            proof {
                if j > 0 {
                    assert(rows[r@[j - 1] as int] == row_view(self.items@[r@[j - 1] as int]));
                    assert(rows[x as int] == row_view(self.items@[x as int]));
                }
                lemma_insert_by_at(r@, x, le, j as int);
                assert(fs.take(i as int + 1).drop_last() == fs.take(i as int));
                assert(fs.take(i as int + 1).last() == x);
            }
            r.insert(j, x);
            i = i + 1;
        }
        assert(fs.take(fs.len() as int) == fs);
        self.visible = r;
        proof {
            lemma_search_matches_name_or_source(rows, self.search@, self.sort_by);
            assert forall|i: int| 0 <= i < self.items@.len() implies (#[trigger] self.visible@.contains(i as usize) <==> (
                lowercase(trim_spec(self.search@)).len() == 0
                || contains_text(lowercase(self.items@[i].name@), lowercase(trim_spec(self.search@)))
                || contains_text(lowercase(self.items@[i].domain@), lowercase(trim_spec(self.search@))))) by {
                assert(rows[i] == row_view(self.items@[i]));
                assert(visible_spec(rows, self.search@, self.sort_by).contains(i as usize) == self.visible@.contains(i as usize));
            }
        }
    }
}

} // verus!

verus! {

/// The focus after reconciling: nothing when no row is shown; else the
/// preferred path if shown, else the current focus if shown, else the first
/// shown selected row, else the first shown row.
pub open spec fn reconciled_focus(s: PanelState, preferred: Option<Seq<char>>) -> Option<Seq<char>> {
    if s.visible@.len() == 0 {
        None
    } else if preferred is Some && s.path_visible(preferred->0) {
        preferred
    } else if s.focus_path is Some && s.path_visible(s.focus_path->0@) {
        Some(s.focus_path->0@)
    } else {
        let k = first_selected_from(s.rows(), s.visible@, s.selection(), 0);
        if k >= 0 { Some(s.visible_path(k)) } else { Some(s.visible_path(0)) }
    }
}

/// The path of the row the details refer to: the first shown selected row,
/// else the focus if shown, else the first shown row.
pub open spec fn current_path(s: PanelState) -> Option<Seq<char>> {
    let k = first_selected_from(s.rows(), s.visible@, s.selection(), 0);
    if k >= 0 {
        Some(s.visible_path(k))
    } else if s.focus_path is Some && s.path_visible(s.focus_path->0@) {
        Some(s.focus_path->0@)
    } else if s.visible@.len() > 0 {
        Some(s.visible_path(0))
    } else {
        None
    }
}

/// The first row at or after `from` with the path `p`, or -1.
pub open spec fn first_row_with_path(rows: Seq<RowView>, p: Seq<char>, from: int) -> int
    decreases rows.len() - from,
{
    if from < 0 || from >= rows.len() {
        -1
    } else if same_path_spec(rows[from].path, p) {
        from
    } else {
        first_row_with_path(rows, p, from + 1)
    }
}

/// The row the details refer to.
pub open spec fn current_row(s: PanelState) -> Option<RowView> {
    match current_path(s) {
        Some(p) => {
            let i = first_row_with_path(s.rows(), p, 0);
            if i >= 0 { Some(s.rows()[i]) } else { None }
        },
        None => None,
    }
}

pub open spec fn opt_row_view(r: Option<RowItem>) -> Option<RowView> {
    match r {
        Some(x) => Some(row_view(x)),
        None => None,
    }
}

impl PanelState {
    /// Moves the focus to a shown row (see `reconciled_focus`); when no row is
    /// shown, the focus and the anchor are cleared.
    pub fn reconcile_focus(&mut self, preferred_path: Option<String>)
        requires
            old(self).wf(),
        ensures
            final(self).wf(),
            opt_view(final(self).focus_path) == reconciled_focus(*old(self), opt_view(preferred_path)),
            final(self).anchor_path == (if old(self).visible@.len() == 0 { None } else { old(self).anchor_path }),
            same_listing(*final(self), *old(self)),
            final(self).selected == old(self).selected,
            final(self).visible == old(self).visible,
    {
        if self.visible.len() == 0 {
            self.focus_path = None;
            self.anchor_path = None;
            return;
        }
        if let Some(p) = &preferred_path {
            if self.path_is_visible(p.as_str()) {
                self.focus_path = preferred_path;
                return;
            }
        }
        let keep = match &self.focus_path {
            Some(f) => self.path_is_visible(f.as_str()),
            None => false,
        };
        if keep {
            return;
        }
        match self.selected_path_in_visible_order() {
            Some(p) => {
                self.focus_path = Some(p);
            },
            None => {
                let idx = self.visible[0];
                assert(self.visible@[0] < self.items@.len());
                self.focus_path = Some(self.items[idx].path.clone());
            },
        }
    }

    /// Sets the search text, recomputes the shown rows and reconciles the focus.
    pub fn set_search(&mut self, search: String)
        requires
            old(self).wf(),
        ensures
            final(self).wf(),
            final(self).search == search,
            final(self).visible@ == visible_spec(old(self).rows(), search@, old(self).sort_by),
            forall|i: int| 0 <= i < old(self).items@.len() ==> (#[trigger] final(self).visible@.contains(i as usize) <==> (
                lowercase(trim_spec(search@)).len() == 0
                || contains_text(lowercase(old(self).items@[i].name@), lowercase(trim_spec(search@)))
                || contains_text(lowercase(old(self).items@[i].domain@), lowercase(trim_spec(search@))))),
            opt_view(final(self).focus_path) == reconciled_focus(
                PanelState { search, visible: final(self).visible, ..*old(self) }, None),
            final(self).items == old(self).items,
            final(self).selected == old(self).selected,
    {
        self.search = search;
        self.recompute_visible();
        let ghost mid = *self;
        self.reconcile_focus(None);
        assert(mid == PanelState { search, visible: self.visible, ..*old(self) });
    }

    /// The row the details refer to (see `current_row`).
    pub fn current(&self) -> (r: Option<RowItem>)
        requires
            self.wf(),
        ensures
            opt_row_view(r) == current_row(*self),
    {
        let ghost rows = self.rows();
        let path: String = match self.selected_path_in_visible_order() {
            Some(p) => p,
            None => {
                let from_focus = match &self.focus_path {
                    Some(f) => if self.path_is_visible(f.as_str()) { Some(f.clone()) } else { None },
                    None => None,
                };
                match from_focus {
                    Some(f) => f,
                    None => {
                        if self.visible.len() == 0 {
                            return None;
                        }
                        let idx = self.visible[0];
                        assert(self.visible@[0] < self.items@.len());
                        self.items[idx].path.clone()
                    },
                }
            },
        };
        assert(current_path(*self) == Some(path@));
        let mut i: usize = 0;
        while i < self.items.len()
            invariant
                i <= self.items@.len(),
                rows == self.rows(),
                current_path(*self) == Some(path@),
                first_row_with_path(rows, path@, 0) == first_row_with_path(rows, path@, i as int),
            decreases self.items.len() - i,
        {
            assert(rows[i as int] == row_view(self.items@[i as int]));
            if same_path(self.items[i].path.as_str(), path.as_str()) {
                return Some(self.items[i].copy());
            }
            i = i + 1;
        }
        None
    }

    /// Forgets the selection, the anchor and the focus.
    pub fn clear_selection(&mut self)
        ensures
            final(self).selected@.len() == 0,
            final(self).anchor_path is None,
            final(self).focus_path is None,
            same_listing(*final(self), *old(self)),
            final(self).visible == old(self).visible,
    {
        self.selected = Vec::new();
        self.anchor_path = None;
        self.focus_path = None;
    }
}

} // verus!

verus! {

/// Whether a shown row at a position in `lo..=hi` has the path `q`.
pub open spec fn shown_in_range(s: PanelState, lo: int, hi: int, q: Seq<char>) -> bool {
    exists|k: int| lo <= k <= hi && 0 <= k < s.visible@.len() && same_path_spec(#[trigger] s.visible_path(k), q)
}

/// Whether `q` is selected after the selection `sel` had `p` toggled: taken
/// out when it was there, added when it was not.
pub open spec fn toggled(sel: Seq<Seq<char>>, p: Seq<char>, q: Seq<char>) -> bool {
    if in_selection(sel, p) {
        in_selection(sel, q) && !same_path_spec(q, p)
    } else {
        in_selection(sel, q) || same_path_spec(q, p)
    }
}

/// The first shown position at or after `from` whose path is `p`, or -1.
pub open spec fn first_shown_with_path(s: PanelState, p: Seq<char>, from: int) -> int
    decreases s.visible@.len() - from,
{
    if from < 0 || from >= s.visible@.len() {
        -1
    } else if same_path_spec(s.visible_path(from), p) {
        from
    } else {
        first_shown_with_path(s, p, from + 1)
    }
}

/// The shown position of the anchor, or -1 when there is no anchor or it is
/// not shown.
pub open spec fn anchor_position(s: PanelState) -> int {
    match s.anchor_path {
        Some(a) => first_shown_with_path(s, a@, 0),
        None => -1,
    }
}

/// Toggling the same path twice gives back the selection it started from.
pub proof fn lemma_toggle_twice_restores(sel0: Seq<Seq<char>>, sel1: Seq<Seq<char>>, sel2: Seq<Seq<char>>, p: Seq<char>)
    requires
        forall|q: Seq<char>| #[trigger] in_selection(sel1, q) == toggled(sel0, p, q),
        forall|q: Seq<char>| #[trigger] in_selection(sel2, q) == toggled(sel1, p, q),
    ensures
        forall|q: Seq<char>| #[trigger] in_selection(sel2, q) == in_selection(sel0, q),
{
    assert(in_selection(sel1, p) == toggled(sel0, p, p));
    assert forall|q: Seq<char>| #[trigger] in_selection(sel2, q) == in_selection(sel0, q) by {
        assert(in_selection(sel1, q) == toggled(sel0, p, q));
        assert(in_selection(sel2, q) == toggled(sel1, p, q));
        if same_path_spec(q, p) {
            if in_selection(sel0, p) {
                let i = choose|i: int| 0 <= i < sel0.len() && same_path_spec(#[trigger] sel0[i], p);
                assert(same_path_spec(sel0[i], q));
            }
            if in_selection(sel0, q) {
                let i = choose|i: int| 0 <= i < sel0.len() && same_path_spec(#[trigger] sel0[i], q);
                assert(same_path_spec(sel0[i], p));
            }
        }
    }
}

impl PanelState {
    /// Adds the shown rows at positions `start..=end` to the selection.
    fn select_range(&mut self, start: usize, end: usize)
        requires
            old(self).wf(),
            start <= end < old(self).visible@.len(),
        ensures
            final(self).wf(),
            forall|q: Seq<char>| #[trigger] in_selection(final(self).selection(), q) ==
                (in_selection(old(self).selection(), q) || shown_in_range(*old(self), start as int, end as int, q)),
            same_listing(*final(self), *old(self)),
            final(self).visible == old(self).visible,
            final(self).focus_path == old(self).focus_path,
            final(self).anchor_path == old(self).anchor_path,
    {
        let ghost s0 = *self;
        let n = self.visible.len();
        let mut row: usize = start;
        assert forall|q: Seq<char>| #[trigger] in_selection(self.selection(), q) ==
            (in_selection(s0.selection(), q) || shown_in_range(s0, start as int, row as int - 1, q)) by {}
        while row <= end
            invariant
                self.wf(),
                start <= row <= end + 1,
                end < n == self.visible@.len(),
                same_listing(*self, s0),
                self.visible == s0.visible,
                self.focus_path == s0.focus_path,
                self.anchor_path == s0.anchor_path,
                forall|q: Seq<char>| #[trigger] in_selection(self.selection(), q) ==
                    (in_selection(s0.selection(), q) || shown_in_range(s0, start as int, row as int - 1, q)),
            decreases end + 1 - row,
        {
            let idx = self.visible[row];
            assert(self.visible@[row as int] < self.items@.len());
            let ghost before = self.selection();
            let ghost p = s0.visible_path(row as int);
            assert(self.items@[idx as int].path@ == p);
            selection_insert(&mut self.selected, self.items[idx].path.as_str());
            proof {
                assert forall|q: Seq<char>| #[trigger] in_selection(self.selection(), q) ==
                    (in_selection(s0.selection(), q) || shown_in_range(s0, start as int, row as int, q)) by {
                    assert(in_selection(self.selection(), q) == (in_selection(before, q) || same_path_spec(q, p)));
                    assert(in_selection(before, q) == (in_selection(s0.selection(), q) || shown_in_range(s0, start as int, row as int - 1, q)));
                    if shown_in_range(s0, start as int, row as int, q) {
                        let k = choose|k: int| start <= k <= row && 0 <= k < s0.visible@.len() && same_path_spec(#[trigger] s0.visible_path(k), q);
                        if k < row {
                            assert(shown_in_range(s0, start as int, row as int - 1, q));
                        }
                    }
                    if shown_in_range(s0, start as int, row as int - 1, q) {
                        let k = choose|k: int| start <= k <= row - 1 && 0 <= k < s0.visible@.len() && same_path_spec(#[trigger] s0.visible_path(k), q);
                        assert(shown_in_range(s0, start as int, row as int, q));
                    }
                    if same_path_spec(q, p) {
                        assert(same_path_spec(s0.visible_path(row as int), q));
                        assert(shown_in_range(s0, start as int, row as int, q));
                    }
                }
            }
            row = row + 1;
        }
    }

    /// Selects every shown row; the anchor becomes the first shown row, and
    /// the focus is reconciled.
    pub fn select_all_visible(&mut self)
        requires
            old(self).wf(),
        ensures
            final(self).wf(),
            forall|q: Seq<char>| #[trigger] in_selection(final(self).selection(), q) ==
                (in_selection(old(self).selection(), q) || old(self).path_visible(q)),
            forall|k: int| 0 <= k < final(self).visible@.len() ==> in_selection(final(self).selection(), #[trigger] final(self).visible_path(k)),
            opt_view(final(self).anchor_path) == (if old(self).visible@.len() == 0 { None } else { Some(old(self).visible_path(0)) }),
            opt_view(final(self).focus_path) == reconciled_focus(
                PanelState { selected: final(self).selected, anchor_path: final(self).anchor_path, ..*old(self) }, None),
            same_listing(*final(self), *old(self)),
            final(self).visible == old(self).visible,
    {
        let ghost s0 = *self;
        if self.visible.len() > 0 {
            let last = self.visible.len() - 1;
            self.select_range(0, last);
            assert forall|q: Seq<char>| #[trigger] in_selection(self.selection(), q) ==
                (in_selection(s0.selection(), q) || s0.path_visible(q)) by {
                assert(in_selection(self.selection(), q) == (in_selection(s0.selection(), q) || shown_in_range(s0, 0, last as int, q)));
                if s0.path_visible(q) {
                    let k = choose|k: int| 0 <= k < s0.visible@.len() && same_path_spec(#[trigger] s0.visible_path(k), q);
                    assert(shown_in_range(s0, 0, last as int, q));
                }
            }
        }
        let ghost s1 = *self;
        assert forall|k: int| 0 <= k < s1.visible@.len() implies in_selection(s1.selection(), #[trigger] s1.visible_path(k)) by {
            assert(s0.visible_path(k) == s1.visible_path(k));
            assert(s0.path_visible(s1.visible_path(k)));
        }
        let anchor = match self.selected_path_in_visible_order() {
            Some(p) => Some(p),
            None => {
                if self.visible.len() > 0 {
                    let idx = self.visible[0];
                    assert(self.visible@[0] < self.items@.len());
                    Some(self.items[idx].path.clone())
                } else {
                    None
                }
            },
        };
        proof {
            if s1.visible@.len() > 0 {
                assert(in_selection(s1.selection(), s1.visible_path(0)));
                assert(first_selected_from(s1.rows(), s1.visible@, s1.selection(), 0) == 0);
            }
        }
        self.anchor_path = anchor;
        let ghost s2 = *self;
        self.reconcile_focus(None);
        assert(s2 == PanelState { selected: self.selected, anchor_path: s2.anchor_path, ..s0 });
        assert forall|k: int| 0 <= k < self.visible@.len() implies in_selection(self.selection(), #[trigger] self.visible_path(k)) by {
            assert(self.visible_path(k) == s1.visible_path(k));
            assert(self.selection() == s1.selection());
        }
    }

    /// Toggles whether the shown row at `visible_row` is selected and focuses
    /// it; a position past the shown rows changes nothing.
    pub fn toggle_row(&mut self, visible_row: usize)
        requires
            old(self).wf(),
        ensures
            final(self).wf(),
            visible_row >= old(self).visible@.len() ==> *final(self) == *old(self),
            visible_row < old(self).visible@.len() ==> {
                let p = old(self).visible_path(visible_row as int);
                &&& forall|q: Seq<char>| #[trigger] in_selection(final(self).selection(), q) == toggled(old(self).selection(), p, q)
                &&& opt_view(final(self).focus_path) == Some(p)
            },
            final(self).anchor_path == old(self).anchor_path,
            same_listing(*final(self), *old(self)),
            final(self).visible == old(self).visible,
    {
        if visible_row >= self.visible.len() {
            return;
        }
        let ghost s0 = *self;
        let idx = self.visible[visible_row];
        assert(self.visible@[visible_row as int] < self.items@.len());
        let path = self.items[idx].path.clone();
        let ghost p = s0.visible_path(visible_row as int);
        assert(path@ == p);
        let added = selection_insert(&mut self.selected, path.as_str());
        if !added {
            let ghost mid = self.selection();
            selection_remove(&mut self.selected, path.as_str());
            assert forall|q: Seq<char>| #[trigger] in_selection(self.selection(), q) == toggled(s0.selection(), p, q) by {
                assert(in_selection(mid, q) == (in_selection(s0.selection(), q) || same_path_spec(q, p)));
                if same_path_spec(q, p) {
                    let i = choose|i: int| 0 <= i < s0.selection().len() && same_path_spec(#[trigger] s0.selection()[i], p);
                    assert(same_path_spec(s0.selection()[i], q));
                }
            }
        }
        self.focus_path = Some(path);
    }

    /// The shown position of the anchor (see `anchor_position`).
    pub fn anchor_visible_index(&self) -> (r: Option<usize>)
        requires
            self.wf(),
        ensures
            match r {
                Some(k) => k as int == anchor_position(*self) && k < self.visible@.len(),
                None => anchor_position(*self) == -1,
            },
    {
        let anchor = match &self.anchor_path {
            Some(a) => a,
            None => return None,
        };
        let mut k: usize = 0;
        while k < self.visible.len()
            invariant
                self.wf(),
                k <= self.visible@.len(),
                self.anchor_path == Some(*anchor),
                first_shown_with_path(*self, anchor@, 0) == first_shown_with_path(*self, anchor@, k as int),
            decreases self.visible.len() - k,
        {
            let idx = self.visible[k];
            assert(self.visible@[k as int] < self.items@.len());
            if same_path(self.items[idx].path.as_str(), anchor.as_str()) {
                return Some(k);
            }
            k = k + 1;
        }
        None
    }

    /// A click on the shown row at `visible_row`. With shift held and the
    /// anchor shown, every row between the anchor and the clicked one is
    /// selected; otherwise the clicked row is toggled and becomes the anchor.
    /// Either way it gets the focus. A position past the shown rows changes
    /// nothing.
    pub fn row_click(&mut self, visible_row: usize, shift: bool)
        requires
            old(self).wf(),
        ensures
            final(self).wf(),
            visible_row >= old(self).visible@.len() ==> *final(self) == *old(self),
            visible_row < old(self).visible@.len() ==> {
                let p = old(self).visible_path(visible_row as int);
                let a = anchor_position(*old(self));
                let row = visible_row as int;
                &&& opt_view(final(self).focus_path) == Some(p)
                &&& if shift && a >= 0 {
                    &&& forall|q: Seq<char>| #[trigger] in_selection(final(self).selection(), q) ==
                        (in_selection(old(self).selection(), q)
                            || shown_in_range(*old(self), if a <= row { a } else { row }, if a <= row { row } else { a }, q))
                    &&& final(self).anchor_path == old(self).anchor_path
                } else {
                    &&& forall|q: Seq<char>| #[trigger] in_selection(final(self).selection(), q) == toggled(old(self).selection(), p, q)
                    &&& opt_view(final(self).anchor_path) == Some(p)
                }
            },
            same_listing(*final(self), *old(self)),
            final(self).visible == old(self).visible,
    {
        if visible_row >= self.visible.len() {
            return;
        }
        let idx = self.visible[visible_row];
        assert(self.visible@[visible_row as int] < self.items@.len());
        let clicked = self.items[idx].path.clone();
        let anchor_row = if shift { self.anchor_visible_index() } else { None };
        match anchor_row {
            Some(a) => {
                if a <= visible_row {
                    self.select_range(a, visible_row);
                } else {
                    self.select_range(visible_row, a);
                }
            },
            None => {
                self.toggle_row(visible_row);
                self.anchor_path = Some(clicked.clone());
            },
        }
        self.focus_path = Some(clicked);
    }
}

} // verus!

verus! {

/// The shown rows among the first `n` positions whose path is selected, in
/// display order.
pub open spec fn selected_rows_upto(s: PanelState, n: nat) -> Seq<RowView>
    decreases n,
{
    if n == 0 {
        Seq::empty()
    } else {
        let prev = selected_rows_upto(s, (n - 1) as nat);
        if in_selection(s.selection(), s.visible_path(n - 1)) {
            prev.push(s.rows()[s.visible@[n - 1] as int])
        } else {
            prev
        }
    }
}

/// The counter above the list: how many paths are selected and how many rows
/// are shown.
pub open spec fn counter_label(selected: nat, shown: nat) -> Seq<char> {
    "已选 "@ + decimal(selected) + " / "@ + decimal(shown)
}

/// What the panel says of the monitoring service.
pub open spec fn monitoring_label(running: Option<bool>) -> Seq<char> {
    match running {
        Some(true) => "监控：运行中"@,
        Some(false) => "监控：已停止"@,
        None => "监控：未知"@,
    }
}

/// The line naming the suggested folder of the row the details refer to.
pub open spec fn suggestion_label(row: Option<RowView>) -> Seq<char> {
    match row {
        None => "建议目录：-"@,
        Some(r) => match r.suggestion {
            Some(p) => "建议目录："@ + display_name(p),
            None => "建议目录：暂无"@,
        },
    }
}

/// The line giving the path of the row the details refer to.
pub open spec fn path_label(row: Option<RowView>) -> Seq<char> {
    match row {
        None => "路径：-"@,
        Some(r) => "路径："@ + r.path,
    }
}

/// A column header: the label, with an arrow when the list is sorted by that
/// column.
pub open spec fn header_label(label: Seq<char>, current: SortBy, asc: SortBy, desc: SortBy) -> Seq<char> {
    if current == asc {
        label + " ↑"@
    } else if current == desc {
        label + " ↓"@
    } else {
        label
    }
}

/// A column of the list that can be clicked to sort by it.
#[derive(PartialEq, Eq, Structural, Clone, Copy, Debug)]
pub enum SortColumn {
    Name,
    Domain,
    Size,
    Time,
}

/// The sort after a click on a column's header: the column's second direction
/// when the list is sorted by the column's first one, else its first (ascending
/// for name, source and size; newest first for time).
pub open spec fn next_sort_spec(current: SortBy, column: SortColumn) -> SortBy {
    match column {
        SortColumn::Name => if current == SortBy::NameAsc { SortBy::NameDesc } else { SortBy::NameAsc },
        SortColumn::Domain => if current == SortBy::DomainAsc { SortBy::DomainDesc } else { SortBy::DomainAsc },
        SortColumn::Size => if current == SortBy::SizeAsc { SortBy::SizeDesc } else { SortBy::SizeAsc },
        SortColumn::Time => if current == SortBy::TimeDesc { SortBy::TimeAsc } else { SortBy::TimeDesc },
    }
}

/// Whole seconds since `modified_ms`, as a `u64` keeps them; a time in the
/// future counts as now.
pub open spec fn age_secs(modified_ms: u128, now_ms: u128) -> nat {
    let delta: nat = if now_ms >= modified_ms { (now_ms - modified_ms) as nat } else { 0 };
    (delta / 1000) % 0x1_0000_0000_0000_0000
}

/// How long ago a file changed, in the largest unit under which it is below
/// the next one: seconds, minutes, hours or days, rounded down.
pub open spec fn age_label(secs: nat) -> Seq<char> {
    if secs < 60 {
        decimal(secs) + " 秒前"@
    } else if secs < 3600 {
        decimal(secs / 60) + " 分钟前"@
    } else if secs < 86400 {
        decimal(secs / 3600) + " 小时前"@
    } else {
        decimal(secs / 86400) + " 天前"@
    }
}

/// A column header with the arrow of the current sort (see `header_label`).
pub fn sort_header(label: &str, current: SortBy, asc: SortBy, desc: SortBy) -> (r: String)
    ensures
        r@ == header_label(label@, current, asc, desc),
{
    let mut out = chars_of(label);
    if current == asc {
        append_str(&mut out, " ↑");
    } else if current == desc {
        append_str(&mut out, " ↓");
    }
    string_of(out.as_slice())
}

/// The sort after a click on a column's header (see `next_sort_spec`).
pub fn next_sort(current: SortBy, column: SortColumn) -> (r: SortBy)
    ensures
        r == next_sort_spec(current, column),
{
    match column {
        SortColumn::Name => if current == SortBy::NameAsc { SortBy::NameDesc } else { SortBy::NameAsc },
        SortColumn::Domain => if current == SortBy::DomainAsc { SortBy::DomainDesc } else { SortBy::DomainAsc },
        SortColumn::Size => if current == SortBy::SizeAsc { SortBy::SizeDesc } else { SortBy::SizeAsc },
        SortColumn::Time => if current == SortBy::TimeDesc { SortBy::TimeAsc } else { SortBy::TimeDesc },
    }
}

/// How long ago a file changed, from its time and the current time, both in
/// milliseconds since the epoch (see `age_label`).
pub fn relative_time(modified_ms: u128, now_ms: u128) -> (r: String)
    ensures
        r@ == age_label(age_secs(modified_ms, now_ms)),
{
    let delta = now_ms.saturating_sub(modified_ms);
    let q = delta / 1000;
    let secs: u64 = (q % 0x1_0000_0000_0000_0000u128) as u64;
    assert(secs as nat == age_secs(modified_ms, now_ms));
    let mut out: Vec<char> = Vec::new();
    if secs < 60 {
        push_decimal(&mut out, secs);
        append_str(&mut out, " 秒前");
    } else if secs < 3600 {
        push_decimal(&mut out, secs / 60);
        append_str(&mut out, " 分钟前");
    } else if secs < 86400 {
        push_decimal(&mut out, secs / 3600);
        append_str(&mut out, " 小时前");
    } else {
        push_decimal(&mut out, secs / 86400);
        append_str(&mut out, " 天前");
    }
    string_of(out.as_slice())
}

impl PanelState {
    /// The shown rows whose path is selected, in display order.
    pub fn selected_items_in_order(&self) -> (r: Vec<RowItem>)
        requires
            self.wf(),
        ensures
            rows_view(r@) == selected_rows_upto(*self, self.visible@.len()),
    {
        let mut out: Vec<RowItem> = Vec::new();
        let mut k: usize = 0;
        while k < self.visible.len()
            invariant
                self.wf(),
                k <= self.visible@.len(),
                rows_view(out@) == selected_rows_upto(*self, k as nat),
            decreases self.visible.len() - k,
        {
            let idx = self.visible[k];
            assert(self.visible@[k as int] < self.items@.len());
            if selection_has(&self.selected, self.items[idx].path.as_str()) {
                let ghost before = out@;
                out.push(self.items[idx].copy());
                assert(rows_view(out@) =~= rows_view(before).push(row_view(self.items@[idx as int])));
            }
            k = k + 1;
        }
        out
    }

    /// The counter above the list (see `counter_label`).
    pub fn counter_text(&self) -> (r: String)
        ensures
            r@ == counter_label(self.selected@.len(), self.visible@.len()),
    {
        let mut out = chars_of("已选 ");
        push_decimal(&mut out, self.selected.len() as u64);
        append_str(&mut out, " / ");
        push_decimal(&mut out, self.visible.len() as u64);
        string_of(out.as_slice())
    }

    /// What the panel says of the monitoring service (see `monitoring_label`).
    pub fn monitoring_text(&self) -> (r: String)
        ensures
            r@ == monitoring_label(self.monitoring_running),
    {
        let label = match self.monitoring_running {
            Some(true) => "监控：运行中",
            Some(false) => "监控：已停止",
            None => "监控：未知",
        };
        string_of(chars_of(label).as_slice())
    }

    /// The suggested folder of the row the details refer to (see
    /// `suggestion_label` and `current_row`).
    pub fn suggestion_text(&self) -> (r: String)
        requires
            self.wf(),
        ensures
            r@ == suggestion_label(current_row(*self)),
    {
        let out = match self.current() {
            None => chars_of("建议目录：-"),
            Some(item) => match &item.suggestion {
                Some(p) => {
                    let mut out = chars_of("建议目录：");
                    append_str(&mut out, file_name(p.as_str()).as_str());
                    out
                },
                None => chars_of("建议目录：暂无"),
            },
        };
        string_of(out.as_slice())
    }

    /// The path of the row the details refer to (see `path_label` and
    /// `current_row`).
    pub fn selected_path_text(&self) -> (r: String)
        requires
            self.wf(),
        ensures
            r@ == path_label(current_row(*self)),
    {
        let out = match self.current() {
            None => chars_of("路径：-"),
            Some(item) => {
                let mut out = chars_of("路径：");
                append_str(&mut out, item.path.as_str());
                out
            },
        };
        string_of(out.as_slice())
    }

    /// A click on a column's header: the sort changes (see `next_sort_spec`),
    /// the shown rows are sorted again and the focus is reconciled.
    pub fn sort_by_column(&mut self, column: SortColumn)
        requires
            old(self).wf(),
        ensures
            final(self).wf(),
            final(self).sort_by == next_sort_spec(old(self).sort_by, column),
            final(self).visible@ == visible_spec(old(self).rows(), old(self).search@, final(self).sort_by),
            opt_view(final(self).focus_path) == reconciled_focus(
                PanelState { sort_by: final(self).sort_by, visible: final(self).visible, ..*old(self) }, None),
            final(self).items == old(self).items,
            final(self).selected == old(self).selected,
            final(self).search == old(self).search,
    {
        self.sort_by = next_sort(self.sort_by, column);
        self.recompute_visible();
        let ghost mid = *self;
        self.reconcile_focus(None);
        assert(mid == PanelState { sort_by: self.sort_by, visible: self.visible, ..*old(self) });
    }
}

} // verus!

verus! {

/// Whether some row has a path that is `q`.
pub open spec fn path_listed(rows: Seq<RowView>, q: Seq<char>) -> bool {
    exists|i: int| 0 <= i < rows.len() && same_path_spec(#[trigger] rows[i].path, q)
}

/// The anchor kept over a reload: dropped when no row has its path.
pub open spec fn kept_anchor(anchor: Option<String>, rows: Seq<RowView>) -> Option<String> {
    match anchor {
        Some(a) => if path_listed(rows, a@) { Some(a) } else { None },
        None => None,
    }
}

proof fn lemma_listed_same(rows: Seq<RowView>, a: Seq<char>, b: Seq<char>)
    requires
        path_listed(rows, a),
        same_path_spec(a, b),
    ensures
        path_listed(rows, b),
{
    let i = choose|i: int| 0 <= i < rows.len() && same_path_spec(#[trigger] rows[i].path, a);
    assert(same_path_spec(rows[i].path, b));
}

proof fn lemma_selection_take_step(s: Seq<Seq<char>>, i: int, q: Seq<char>)
    requires
        0 <= i < s.len(),
    ensures
        in_selection(s.take(i + 1), q) == (in_selection(s.take(i), q) || same_path_spec(s[i], q)),
{
    let a = s.take(i);
    let b = s.take(i + 1);
    if in_selection(a, q) {
        let j = choose|j: int| 0 <= j < a.len() && same_path_spec(#[trigger] a[j], q);
        assert(b[j] == a[j]);
    }
    if same_path_spec(s[i], q) {
        assert(b[i] == s[i]);
    }
    if in_selection(b, q) {
        let j = choose|j: int| 0 <= j < b.len() && same_path_spec(#[trigger] b[j], q);
        if j < i {
            assert(a[j] == b[j]);
        }
    }
}

proof fn lemma_first_selected_none(items: Seq<RowView>, visible: Seq<usize>, selected: Seq<Seq<char>>, from: int)
    requires
        selected.len() == 0,
        0 <= from,
    ensures
        first_selected_from(items, visible, selected, from) == -1,
    decreases visible.len() - from,
{
    if from < visible.len() {
        assert(!in_selection(selected, items[visible[from] as int].path));
        lemma_first_selected_none(items, visible, selected, from + 1);
    }
}

/// Whether some item has the path `p`.
pub(crate) fn path_is_listed(items: &Vec<RowItem>, p: &str) -> (r: bool)
    ensures
        r == path_listed(rows_view(items@), p@),
{
    let ghost rows = rows_view(items@);
    let mut i: usize = 0;
    while i < items.len()
        invariant
            i <= items@.len(),
            rows == rows_view(items@),
            forall|j: int| 0 <= j < i ==> !same_path_spec(#[trigger] rows[j].path, p@),
        decreases items.len() - i,
    {
        if same_path(items[i].path.as_str(), p) {
            assert(same_path_spec(rows[i as int].path, p@));
            return true;
        }
        i = i + 1;
    }
    false
}

/// The paths of `selected` that some item has, as `HashSet::retain` keeps them.
pub(crate) fn retain_listed(selected: &Vec<String>, items: &Vec<RowItem>) -> (kept: Vec<String>)
    requires
        selection_unique(strings_of(selected@)),
    ensures
        selection_unique(strings_of(kept@)),
        forall|q: Seq<char>| #[trigger] in_selection(strings_of(kept@), q) ==
            (in_selection(strings_of(selected@), q) && path_listed(rows_view(items@), q)),
{
    let ghost rows = rows_view(items@);
    let ghost sel0 = strings_of(selected@);
    let mut kept: Vec<String> = Vec::new();
    let mut i: usize = 0;
    assert forall|q: Seq<char>| #[trigger] in_selection(strings_of(kept@), q) ==
        (in_selection(sel0.take(0), q) && path_listed(rows, q)) by {}
    while i < selected.len()
        invariant
            i <= selected@.len(),
            sel0 == strings_of(selected@),
            rows == rows_view(items@),
            selection_unique(strings_of(kept@)),
            forall|q: Seq<char>| #[trigger] in_selection(strings_of(kept@), q) ==
                (in_selection(sel0.take(i as int), q) && path_listed(rows, q)),
        decreases selected.len() - i,
    {
        let ghost before = strings_of(kept@);
        let listed = path_is_listed(items, selected[i].as_str());
        if listed {
            selection_insert(&mut kept, selected[i].as_str());
        }
        proof {
            assert(sel0[i as int] == selected@[i as int]@);
            assert forall|q: Seq<char>| #[trigger] in_selection(strings_of(kept@), q) ==
                (in_selection(sel0.take(i as int + 1), q) && path_listed(rows, q)) by {
                lemma_selection_take_step(sel0, i as int, q);
                if same_path_spec(sel0[i as int], q) {
                    if listed {
                        lemma_listed_same(rows, sel0[i as int], q);
                    } else if path_listed(rows, q) {
                        lemma_listed_same(rows, q, sel0[i as int]);
                    }
                }
                if listed {
                    assert(in_selection(strings_of(kept@), q) == (in_selection(before, q) || same_path_spec(q, sel0[i as int])));
                }
            }
        }
        i = i + 1;
    }
    assert(sel0.take(i as int) == sel0);
    kept
}

/// The row listed for a directory entry, or `None` when the entry is skipped:
/// when its name is ignored or it is not a file. Its source is `domain`, or
/// `未知来源` when the source could not be read; its suggestion is the top
/// destination that the memory holds for that source.
pub fn row_for_entry(
    path: &str,
    is_file: bool,
    size_bytes: u64,
    modified_ms: u128,
    domain: Option<String>,
    memory: &Memory,
    downloads_dir: &str,
) -> (r: Option<RowItem>)
    requires
        memory.wf(),
    ensures
        r is None <==> (should_ignore_spec(path@) || !is_file),
        r matches Some(row) ==> {
            let d = match domain { Some(d) => d@, None => unknown_source() };
            row_view(row) == (RowView {
                path: path@,
                name: display_name(path@),
                domain: d,
                suggestion: match top_destination_spec(memory@, d, downloads_dir@) {
                    Some(t) => Some(t.0),
                    None => None,
                },
                size_bytes,
                modified_ms,
            })
        },
{
    if should_ignore_path(path) || !is_file {
        return None;
    }
    let domain = match domain {
        Some(d) => d,
        None => string_of(chars_of("未知来源").as_slice()),
    };
    let suggestion = match top_destination(memory, domain.as_str(), downloads_dir) {
        Some(t) => Some(t.0),
        None => None,
    };
    Some(RowItem {
        path: string_of(chars_of(path).as_slice()),
        name: file_name(path),
        domain,
        suggestion,
        size_bytes,
        modified_ms,
    })
}

impl PanelState {
    /// Replaces the listed rows: the selection keeps the paths still listed,
    /// the anchor is dropped when its path is gone, the shown rows are
    /// recomputed and the focus reconciled, preferring `preferred_path`.
    pub fn reload(&mut self, items: Vec<RowItem>, preferred_path: Option<String>)
        requires
            old(self).wf(),
        ensures
            final(self).wf(),
            final(self).items@ == items@,
            forall|q: Seq<char>| #[trigger] in_selection(final(self).selection(), q) ==
                (in_selection(old(self).selection(), q) && path_listed(rows_view(items@), q)),
            final(self).anchor_path == (if final(self).visible@.len() == 0 { None } else {
                kept_anchor(old(self).anchor_path, rows_view(items@)) }),
            final(self).visible@ == visible_spec(rows_view(items@), old(self).search@, old(self).sort_by),
            opt_view(final(self).focus_path) == reconciled_focus(
                PanelState {
                    items: final(self).items,
                    selected: final(self).selected,
                    anchor_path: kept_anchor(old(self).anchor_path, rows_view(items@)),
                    visible: final(self).visible,
                    ..*old(self)
                },
                opt_view(preferred_path)),
            final(self).config == old(self).config,
            final(self).search == old(self).search,
            final(self).sort_by == old(self).sort_by,
            final(self).status == old(self).status,
            final(self).monitoring_running == old(self).monitoring_running,
    {
        let ghost rows = rows_view(items@);
        self.visible = Vec::new();
        self.items = items;
        let kept = retain_listed(&self.selected, &self.items);
        self.selected = kept;
        let drop_anchor = match &self.anchor_path {
            Some(a) => !path_is_listed(&self.items, a.as_str()),
            None => false,
        };
        if drop_anchor {
            self.anchor_path = None;
        }
        assert(self.anchor_path == kept_anchor(old(self).anchor_path, rows));
        self.recompute_visible();
        let ghost mid = *self;
        self.reconcile_focus(preferred_path);
        assert(mid == PanelState {
            items: self.items,
            selected: self.selected,
            anchor_path: kept_anchor(old(self).anchor_path, rows),
            visible: self.visible,
            ..*old(self)
        });
    }

    /// A panel listing `items`: nothing selected, no search, newest first,
    /// with the status `已加载` (see `reload` for the shown rows and the focus).
    pub fn new(config: AppConfig, items: Vec<RowItem>, monitoring_running: Option<bool>) -> (s: PanelState)
        ensures
            s.wf(),
            s.config == config,
            s.items@ == items@,
            s.selected@.len() == 0,
            s.anchor_path is None,
            s.search@ == Seq::<char>::empty(),
            s.sort_by == SortBy::TimeDesc,
            s.status@ == "已加载"@,
            s.monitoring_running == monitoring_running,
            s.visible@ == visible_spec(rows_view(items@), Seq::empty(), SortBy::TimeDesc),
            opt_view(s.focus_path) == (if s.visible@.len() == 0 { None } else { Some(s.visible_path(0)) }),
    {
        let mut state = PanelState {
            config,
            items: Vec::new(),
            visible: Vec::new(),
            selected: Vec::new(),
            focus_path: None,
            anchor_path: None,
            search: String::new(),
            sort_by: SortBy::TimeDesc,
            status: string_of(chars_of("已加载").as_slice()),
            monitoring_running,
        };
        assert(state.wf());
        state.reload(items, None);
        proof {
            assert forall|q: Seq<char>| !#[trigger] in_selection(state.selection(), q) by {}
            if state.selected@.len() > 0 {
                assert(in_selection(state.selection(), state.selection()[0]));
            }
            lemma_first_selected_none(state.rows(), state.visible@, state.selection(), 0);
        }
        state
    }
}

} // verus!

verus! {

/// A move to a suggested folder: the file's path, its source and the folder.
pub struct PlannedMove {
    pub path: String,
    pub domain: String,
    pub target: String,
}

pub open spec fn move_view(m: PlannedMove) -> (Seq<char>, Seq<char>, Seq<char>) {
    (m.path@, m.domain@, m.target@)
}

pub open spec fn moves_view(v: Seq<PlannedMove>) -> Seq<(Seq<char>, Seq<char>, Seq<char>)> {
    Seq::new(v.len(), |i: int| move_view(v[i]))
}

/// The moves to the suggested folders for `rows`, in order; rows with no
/// suggestion are skipped.
pub open spec fn suggested_moves(rows: Seq<RowView>) -> Seq<(Seq<char>, Seq<char>, Seq<char>)>
    decreases rows.len(),
{
    if rows.len() == 0 {
        Seq::empty()
    } else {
        let prev = suggested_moves(rows.drop_last());
        match rows.last().suggestion {
            Some(t) => prev.push((rows.last().path, rows.last().domain, t)),
            None => prev,
        }
    }
}

/// How many of `rows` have no suggestion.
pub open spec fn unsuggested_count(rows: Seq<RowView>) -> nat
    decreases rows.len(),
{
    if rows.len() == 0 {
        0
    } else {
        unsuggested_count(rows.drop_last()) + if rows.last().suggestion is None { 1nat } else { 0nat }
    }
}

/// The moves to the suggested folders for `items`, and how many items have
/// no suggestion and are skipped.
pub fn plan_suggested_moves(items: &Vec<RowItem>) -> (r: (Vec<PlannedMove>, usize))
    ensures
        moves_view(r.0@) == suggested_moves(rows_view(items@)),
        r.1 as nat == unsuggested_count(rows_view(items@)),
{
    let ghost rows = rows_view(items@);
    let mut moves: Vec<PlannedMove> = Vec::new();
    let mut skipped: usize = 0;
    let mut i: usize = 0;
    while i < items.len()
        invariant
            i <= items@.len(),
            rows == rows_view(items@),
            skipped <= i,
            moves_view(moves@) == suggested_moves(rows.take(i as int)),
            skipped as nat == unsuggested_count(rows.take(i as int)),
        decreases items.len() - i,
    {
        assert(rows.take(i as int + 1).drop_last() == rows.take(i as int));
        assert(rows.take(i as int + 1).last() == row_view(items@[i as int]));
        match &items[i].suggestion {
            Some(t) => {
                let ghost before = moves@;
                moves.push(PlannedMove {
                    path: items[i].path.clone(),
                    domain: items[i].domain.clone(),
                    target: t.clone(),
                });
                assert(moves_view(moves@) =~= moves_view(before).push((rows[i as int].path, rows[i as int].domain, t@)));
            },
            None => {
                skipped = skipped + 1;
            },
        }
        i = i + 1;
    }
    assert(rows.take(i as int) == rows);
    (moves, skipped)
}

/// The status after moving files to their suggested folders.
pub fn suggested_moves_status(success: usize, skipped: usize) -> (r: String)
    ensures
        r@ == "批量移动完成：成功 "@ + decimal(success as nat) + "，无建议跳过 "@ + decimal(skipped as nat),
{
    let mut out = chars_of("批量移动完成：成功 ");
    push_decimal(&mut out, success as u64);
    append_str(&mut out, "，无建议跳过 ");
    push_decimal(&mut out, skipped as u64);
    string_of(out.as_slice())
}

/// The status after moving files to a chosen folder.
pub fn folder_moves_status(success: usize) -> (r: String)
    ensures
        r@ == "批量移动完成："@ + decimal(success as nat) + " 个文件"@,
{
    let mut out = chars_of("批量移动完成：");
    push_decimal(&mut out, success as u64);
    append_str(&mut out, " 个文件");
    string_of(out.as_slice())
}

/// The status after moving files to the trash.
pub fn trash_status(success: usize) -> (r: String)
    ensures
        r@ == "批量删除完成："@ + decimal(success as nat) + " 个文件已进废纸篓"@,
{
    let mut out = chars_of("批量删除完成：");
    push_decimal(&mut out, success as u64);
    append_str(&mut out, " 个文件已进废纸篓");
    string_of(out.as_slice())
}

} // verus!

verus! {

proof fn lemma_row_order_facts(x: RowView, y: RowView, z: RowView, sort_by: SortBy)
    ensures
        row_order(x, y, sort_by) != Order::Greater || row_order(y, x, sort_by) != Order::Greater,
        row_order(x, y, sort_by) != Order::Greater && row_order(y, z, sort_by) != Order::Greater
            ==> row_order(x, z, sort_by) != Order::Greater,
{
    lemma_text_order_facts(x.name, y.name, z.name);
    lemma_text_order_facts(y.name, x.name, z.name);
    lemma_text_order_facts(z.name, y.name, x.name);
    lemma_text_order_facts(x.domain, y.domain, z.domain);
    lemma_text_order_facts(y.domain, x.domain, z.domain);
    lemma_text_order_facts(z.domain, y.domain, x.domain);
}

/// Row indices ordered by their rows form a total preorder.
proof fn lemma_index_order_total(items: Seq<RowView>, sort_by: SortBy)
    ensures
        total_preorder(index_order(items, sort_by)),
{
    let le = index_order(items, sort_by);
    assert forall|a: usize, b: usize| #[trigger] le(a, b) || le(b, a) by {
        lemma_row_order_facts(items[a as int], items[b as int], items[a as int], sort_by);
    }
    assert forall|a: usize, b: usize, c: usize| #[trigger] le(a, b) && #[trigger] le(b, c) implies le(a, c) by {
        lemma_row_order_facts(items[a as int], items[b as int], items[c as int], sort_by);
    }
}

proof fn lemma_matching_indices(items: Seq<RowView>, keyword: Seq<char>, n: nat)
    requires
        n <= items.len() <= usize::MAX,
    ensures
        forall|k: int| 0 <= k < matching_indices(items, keyword, n).len() ==>
            (#[trigger] matching_indices(items, keyword, n)[k]) < n
            && row_matches(items[matching_indices(items, keyword, n)[k] as int], keyword),
        forall|i: int, j: int| 0 <= i < j < matching_indices(items, keyword, n).len() ==>
            #[trigger] matching_indices(items, keyword, n)[i] < #[trigger] matching_indices(items, keyword, n)[j],
        forall|i: int| 0 <= i < n && row_matches(items[i], keyword) ==> matching_indices(items, keyword, n).contains(i as usize),
    decreases n,
{
    if n > 0 {
        lemma_matching_indices(items, keyword, (n - 1) as nat);
        let prev = matching_indices(items, keyword, (n - 1) as nat);
        let m = matching_indices(items, keyword, n);
        if row_matches(items[n - 1], keyword) {
            assert(m == prev.push((n - 1) as usize));
            assert(m[prev.len() as int] == (n - 1) as usize);
            assert forall|i: int| 0 <= i < n && row_matches(items[i], keyword) implies m.contains(i as usize) by {
                if i < n - 1 {
                    let k = choose|k: int| 0 <= k < prev.len() && prev[k] == i as usize;
                    assert(m[k] == prev[k]);
                }
            }
        } else {
            assert forall|i: int| 0 <= i < n && row_matches(items[i], keyword) implies m.contains(i as usize) by {
                assert(i < n - 1);
            }
        }
    }
}

/// The shown rows are exactly the rows the search shows, each once, in the
/// order of the sort.
pub proof fn lemma_visible_rows(items: Seq<RowView>, search: Seq<char>, sort_by: SortBy)
    requires
        items.len() <= usize::MAX,
    ensures
        ({
            let v = visible_spec(items, search, sort_by);
            let keyword = keyword_of(search);
            &&& forall|i: int, j: int| 0 <= i < j < v.len() ==>
                row_order(items[#[trigger] v[i] as int], items[#[trigger] v[j] as int], sort_by) != Order::Greater
            &&& forall|k: int| 0 <= k < v.len() ==> #[trigger] v[k] < items.len() && row_matches(items[v[k] as int], keyword)
            &&& forall|i: int| 0 <= i < items.len() && row_matches(items[i], keyword) ==> v.contains(i as usize)
            &&& v.no_duplicates()
        }),
{
    broadcast use vstd::seq_lib::group_to_multiset_ensures;
    let keyword = keyword_of(search);
    let m = matching_indices(items, keyword, items.len());
    let le = index_order(items, sort_by);
    let v = visible_spec(items, search, sort_by);
    lemma_matching_indices(items, keyword, items.len());
    lemma_index_order_total(items, sort_by);
    crate::sort::lemma_stable_sort_sorted(m, le);
    crate::sort::lemma_stable_sort_permutes(m, le);
    assert(v == stable_sort(m, le));
    assert forall|i: int, j: int| 0 <= i < j < v.len() implies
        row_order(items[#[trigger] v[i] as int], items[#[trigger] v[j] as int], sort_by) != Order::Greater by {
        assert(le(v[i], v[j]));
    }
    assert forall|k: int| 0 <= k < v.len() implies #[trigger] v[k] < items.len() && row_matches(items[v[k] as int], keyword) by {
        assert(v.contains(v[k]));
        assert(v.to_multiset().count(v[k]) > 0);
        assert(m.to_multiset().count(v[k]) > 0);
        assert(m.contains(v[k]));
        let j = choose|j: int| 0 <= j < m.len() && m[j] == v[k];
    }
    assert forall|i: int| 0 <= i < items.len() && row_matches(items[i], keyword) implies v.contains(i as usize) by {
        assert(m.contains(i as usize));
        assert(m.to_multiset().count(i as usize) > 0);
        assert(v.to_multiset().count(i as usize) > 0);
    }
    assert(m.no_duplicates()) by {
        assert forall|i: int, j: int| 0 <= i < m.len() && 0 <= j < m.len() && i != j implies m[i] != m[j] by {
            if i < j {
                assert(m[i] < m[j]);
            } else {
                assert(m[j] < m[i]);
            }
        }
    }
    m.lemma_multiset_has_no_duplicates();
    assert forall|x: usize| v.to_multiset().contains(x) implies v.to_multiset().count(x) == 1 by {
        assert(m.to_multiset().contains(x));
    }
    v.lemma_multiset_has_no_duplicates_conv();
}

} // verus!

verus! {

impl PanelState {
    /// The first step of moving the selected files to their suggested folders.
    /// With no shown row selected the status becomes `请先选择文件` and nothing
    /// is to be moved; otherwise the result is the moves for the shown selected
    /// rows, in display order, and how many of them are skipped for want of a
    /// suggestion. Only the status changes.
    pub fn plan_move_to_suggestions(&mut self) -> (r: Option<(Vec<PlannedMove>, usize)>)
        requires
            old(self).wf(),
        ensures
            final(self).wf(),
            ({
                let sel = selected_rows_upto(*old(self), old(self).visible@.len());
                match r {
                    None => sel.len() == 0 && final(self).status@ == "请先选择文件"@,
                    Some(p) => sel.len() > 0 && moves_view(p.0@) == suggested_moves(sel)
                        && p.1 as nat == unsuggested_count(sel) && final(self).status == old(self).status,
                }
            }),
            *final(self) == (PanelState { status: final(self).status, ..*old(self) }),
    {
        let items = self.selected_items_in_order();
        if items.len() == 0 {
            self.status = string_of(chars_of("请先选择文件").as_slice());
            return None;
        }
        Some(plan_suggested_moves(&items))
    }

    /// The first step of an action on the selected files (moving them to a
    /// chosen folder, or to the trash). With no shown row selected the status
    /// becomes `请先选择文件` and there is nothing to act on; otherwise the
    /// result is the shown selected rows, in display order. Only the status
    /// changes.
    pub fn selected_for_action(&mut self) -> (r: Option<Vec<RowItem>>)
        requires
            old(self).wf(),
        ensures
            final(self).wf(),
            ({
                let sel = selected_rows_upto(*old(self), old(self).visible@.len());
                match r {
                    None => sel.len() == 0 && final(self).status@ == "请先选择文件"@,
                    Some(v) => sel.len() > 0 && rows_view(v@) == sel && final(self).status == old(self).status,
                }
            }),
            *final(self) == (PanelState { status: final(self).status, ..*old(self) }),
    {
        let items = self.selected_items_in_order();
        if items.len() == 0 {
            self.status = string_of(chars_of("请先选择文件").as_slice());
            return None;
        }
        Some(items)
    }
}

} // verus!

verus! {

/// The search shows a row exactly when the search text, trimmed and
/// lowercased, is empty or occurs in the row's lowercased file name or in its
/// lowercased source; whichever of the two holds the text is enough.
pub proof fn lemma_search_matches_name_or_source(items: Seq<RowView>, search: Seq<char>, sort_by: SortBy)
    requires
        items.len() <= usize::MAX,
    ensures
        forall|i: int| 0 <= i < items.len() ==> (#[trigger] visible_spec(items, search, sort_by).contains(i as usize) <==> (
            lowercase(trim_spec(search)).len() == 0
            || contains_text(lowercase(items[i].name), lowercase(trim_spec(search)))
            || contains_text(lowercase(items[i].domain), lowercase(trim_spec(search))))),
{
    lemma_visible_rows(items, search, sort_by);
    let v = visible_spec(items, search, sort_by);
    assert forall|i: int| 0 <= i < items.len() implies (#[trigger] visible_spec(items, search, sort_by).contains(i as usize) <==> (
            lowercase(trim_spec(search)).len() == 0
            || contains_text(lowercase(items[i].name), lowercase(trim_spec(search)))
            || contains_text(lowercase(items[i].domain), lowercase(trim_spec(search))))) by {
        if v.contains(i as usize) {
            let k = choose|k: int| 0 <= k < v.len() && v[k] == i as usize;
            assert(row_matches(items[v[k] as int], keyword_of(search)));
        }
    }
}

} // verus!

verus! {

/// Reconciling leaves the focus on a shown row whenever a row is shown, and on
/// none otherwise; a shown preferred path wins, and otherwise a shown focus is
/// kept.
pub proof fn lemma_reconciled_focus_shown(s: PanelState, preferred: Option<Seq<char>>)
    requires
        s.wf(),
    ensures
        s.visible@.len() == 0 ==> reconciled_focus(s, preferred) is None,
        s.visible@.len() > 0 ==> (reconciled_focus(s, preferred) matches Some(p) && s.path_visible(p)),
        s.visible@.len() > 0 && preferred is Some && s.path_visible(preferred->0) ==> reconciled_focus(s, preferred) == preferred,
        s.visible@.len() > 0 && !(preferred is Some && s.path_visible(preferred->0))
            && s.focus_path is Some && s.path_visible(s.focus_path->0@) ==> reconciled_focus(s, preferred) == Some(s.focus_path->0@),
{
    if s.visible@.len() > 0 {
        let k = first_selected_from(s.rows(), s.visible@, s.selection(), 0);
        lemma_first_selected_bounds(s.rows(), s.visible@, s.selection(), 0);
        if k >= 0 {
            assert(same_path_spec(s.visible_path(k), s.visible_path(k)));
        } else {
            assert(same_path_spec(s.visible_path(0), s.visible_path(0)));
        }
    }
}

proof fn lemma_first_selected_bounds(items: Seq<RowView>, visible: Seq<usize>, selected: Seq<Seq<char>>, from: int)
    requires
        0 <= from,
    ensures
        first_selected_from(items, visible, selected, from) == -1
            || from <= first_selected_from(items, visible, selected, from) < visible.len(),
    decreases visible.len() - from,
{
    if from < visible.len() && !in_selection(selected, items[visible[from] as int].path) {
        lemma_first_selected_bounds(items, visible, selected, from + 1);
    }
}

} // verus!
