//! The downloads table of the desktop panel: the listed files in their sort
//! order, the search over them, the checked files and the anchor of a shift
//! click, with the texts the table shows.
use vstd::prelude::*;
use crate::text::{chars_of, string_of, append_str, push_decimal_u128, decimal, text_order, Order, lemma_text_order_facts,
    lowercase, to_lowercase, contains_text, contains_chars, trim};
use crate::pathing::{same_path_spec, file_name_of, path_file_name};
use crate::sort::{stable_sort, lemma_insert_by_at, total_preorder};
use crate::types::AppConfig;
use crate::panel_state::{RowItem, RowView, row_view, rows_view, SortBy, num_order, keyword_of,
    in_selection, selection_unique, strings_of, toggled, header_label, path_listed, sort_header,
    selection_has, selection_insert, selection_remove, retain_listed, order_text, order_u64, order_u128,
    PlannedMove, moves_view, suggested_moves, unsuggested_count, plan_suggested_moves};

verus! {

/// How two rows compare by the one column of a sort, in its direction.
pub open spec fn key_order(l: RowView, r: RowView, sort_by: SortBy) -> Order {
    match sort_by {
        SortBy::NameAsc => text_order(l.name, r.name),
        SortBy::NameDesc => text_order(r.name, l.name),
        SortBy::DomainAsc => text_order(l.domain, r.domain),
        SortBy::DomainDesc => text_order(r.domain, l.domain),
        SortBy::TimeDesc => num_order(r.modified_ms as int, l.modified_ms as int),
        SortBy::TimeAsc => num_order(l.modified_ms as int, r.modified_ms as int),
        SortBy::SizeDesc => num_order(r.size_bytes as int, l.size_bytes as int),
        SortBy::SizeAsc => num_order(l.size_bytes as int, r.size_bytes as int),
    }
}

/// Rows ordered by one column of a sort.
pub open spec fn key_le(sort_by: SortBy) -> spec_fn(RowView, RowView) -> bool {
    |a: RowView, b: RowView| key_order(a, b, sort_by) != Order::Greater
}

/// Whether the search shows a row: an empty keyword shows every row;
/// otherwise the lowercased name, a space and the lowercased source must
/// contain the keyword.
pub open spec fn table_row_matches(row: RowView, keyword: Seq<char>) -> bool {
    keyword.len() == 0 || contains_text(lowercase(row.name) + " "@ + lowercase(row.domain), keyword)
}

/// The indices below `n` of the rows the search shows, in order.
pub open spec fn table_matching(rows: Seq<RowView>, keyword: Seq<char>, n: nat) -> Seq<usize>
    decreases n,
{
    if n == 0 {
        Seq::empty()
    } else {
        let prev = table_matching(rows, keyword, (n - 1) as nat);
        if table_row_matches(rows[n - 1], keyword) { prev.push((n - 1) as usize) } else { prev }
    }
}

/// Whether a row at a position in `lo..=hi` of `shown` has the path `q`.
pub open spec fn listed_in_range(rows: Seq<RowView>, shown: Seq<usize>, lo: int, hi: int, q: Seq<char>) -> bool {
    exists|k: int| lo <= k <= hi && 0 <= k < shown.len() && same_path_spec(#[trigger] rows[shown[k] as int].path, q)
}

/// Whether some row the search shows has the path `q`.
pub open spec fn matching_path(rows: Seq<RowView>, keyword: Seq<char>, q: Seq<char>) -> bool {
    exists|i: int| 0 <= i < rows.len() && table_row_matches(rows[i], keyword) && same_path_spec(#[trigger] rows[i].path, q)
}

/// `name` cut to its first eight characters, with `...` after them when it
/// is longer.
pub open spec fn compact_spec(name: Seq<char>) -> Seq<char> {
    if name.len() > 8 { name.take(8) + "..."@ } else { name }
}

/// The short name of a row's suggested folder: the folder's file name,
/// compacted.
pub open spec fn suggestion_name_spec(row: RowView) -> Option<Seq<char>> {
    match row.suggestion {
        Some(p) => match path_file_name(p) {
            Some(n) => Some(compact_spec(n)),
            None => None,
        },
        None => None,
    }
}

/// How long ago a file changed, from the milliseconds since: `刚刚` under a
/// minute, else whole minutes, hours or days.
pub open spec fn age_text(delta: nat) -> Seq<char> {
    if delta < 60000 {
        "刚刚"@
    } else if delta < 3600000 {
        decimal(delta / 60000) + " 分钟前"@
    } else if delta < 86400000 {
        decimal(delta / 3600000) + " 小时前"@
    } else {
        decimal(delta / 86400000) + " 天前"@
    }
}

pub open spec fn is_ascii_char(c: char) -> bool {
    (c as u32) < 128
}

/// The lines a text takes when each line holds `per_line` width units, an
/// ASCII character taking one and any other two, and a newline or a full
/// line starting the next; the state is the line count and the units used
/// on the current line.
pub open spec fn wrap_state(s: Seq<char>, per_line: nat) -> (nat, nat)
    decreases s.len(),
{
    if s.len() == 0 {
        (1, 0)
    } else {
        let prev = wrap_state(s.drop_last(), per_line);
        let c = s.last();
        let used: nat = prev.1 + if is_ascii_char(c) { 1nat } else { 2nat };
        if c == '\n' || used >= per_line { (prev.0 + 1, 0) } else { (prev.0, used) }
    }
}

proof fn lemma_wrap_state_bounds(s: Seq<char>, per_line: nat)
    ensures
        wrap_state(s, per_line).0 <= s.len() + 1,
        wrap_state(s, per_line).1 <= 2 * s.len(),
    decreases s.len(),
{
    if s.len() > 0 {
        lemma_wrap_state_bounds(s.drop_last(), per_line);
    }
}

fn compare_key(left: &RowItem, right: &RowItem, sort_by: SortBy) -> (r: Order)
    ensures
        r == key_order(row_view(*left), row_view(*right), sort_by),
{
    match sort_by {
        SortBy::NameAsc => order_text(left.name.as_str(), right.name.as_str()),
        SortBy::NameDesc => order_text(right.name.as_str(), left.name.as_str()),
        SortBy::DomainAsc => order_text(left.domain.as_str(), right.domain.as_str()),
        SortBy::DomainDesc => order_text(right.domain.as_str(), left.domain.as_str()),
        SortBy::TimeDesc => order_u128(right.modified_ms, left.modified_ms),
        SortBy::TimeAsc => order_u128(left.modified_ms, right.modified_ms),
        SortBy::SizeDesc => order_u64(right.size_bytes, left.size_bytes),
        SortBy::SizeAsc => order_u64(left.size_bytes, right.size_bytes),
    }
}

fn key_after(left: &RowItem, right: &RowItem, sort_by: SortBy) -> (r: bool)
    ensures
        r == !key_le(sort_by)(row_view(*left), row_view(*right)),
{
    match compare_key(left, right, sort_by) {
        Order::Greater => true,
        _ => false,
    }
}

/// Sorts the rows stably by the one column of `sort_by`.
pub fn apply_sort_by(sort_by: SortBy, items: &mut Vec<RowItem>)
    ensures
        rows_view(final(items)@) == stable_sort(rows_view(old(items)@), key_le(sort_by)),
{
    let ghost rs = rows_view(items@);
    let ghost le = key_le(sort_by);
    let mut r: Vec<RowItem> = Vec::new();
    let mut i: usize = 0;
    assert(rows_view(r@) =~= stable_sort(rs.take(0), le));
    while i < items.len()
        invariant
            i <= items@.len(),
            rs == rows_view(items@),
            le == key_le(sort_by),
            rows_view(r@) == stable_sort(rs.take(i as int), le),
        decreases items.len() - i,
    {
        let ghost x = rs[i as int];
        assert(x == row_view(items@[i as int]));
        let mut j = r.len();
        while j > 0 && key_after(&r[j - 1], &items[i], sort_by)
            invariant
                j <= r@.len(),
                i < items@.len(),
                x == row_view(items@[i as int]),
                le == key_le(sort_by),
                forall|k: int| j <= k < r@.len() ==> !le(#[trigger] rows_view(r@)[k], x),
            decreases j,
        {
            j = j - 1;
        }
        let ghost before = rows_view(r@);
        proof {
            lemma_insert_by_at(before, x, le, j as int);
            assert(rs.take(i as int + 1).drop_last() == rs.take(i as int));
            assert(rs.take(i as int + 1).last() == x);
        }
        r.insert(j, items[i].copy());
        assert(rows_view(r@) =~= before.insert(j as int, x));
        i = i + 1;
    }
    assert(rs.take(i as int) == rs);
    *items = r;
}

/// The name cut to eight characters (see `compact_spec`).
pub fn compact_name(name: &str) -> (r: String)
    ensures
        r@ == compact_spec(name@),
{
    let cs = chars_of(name);
    if cs.len() > 8 {
        let mut out: Vec<char> = Vec::new();
        let mut i: usize = 0;
        while i < 8
            invariant
                i <= 8 < cs@.len(),
                out@ == cs@.take(i as int),
            decreases 8 - i,
        {
            out.push(cs[i]);
            assert(cs@.take(i as int + 1) == cs@.take(i as int).push(cs@[i as int]));
            i = i + 1;
        }
        append_str(&mut out, "...");
        string_of(out.as_slice())
    } else {
        string_of(cs.as_slice())
    }
}

/// The short name of a row's suggested folder (see `suggestion_name_spec`).
pub fn suggestion_name(item: &RowItem) -> (r: Option<String>)
    ensures
        crate::pathing::opt_view(r) == suggestion_name_spec(row_view(*item)),
{
    match &item.suggestion {
        Some(p) => match file_name_of(p.as_str()) {
            Some(n) => Some(compact_name(n.as_str())),
            None => None,
        },
        None => None,
    }
}

/// The label of a row's move button: `移到` and the suggested folder's short
/// name, or `移到建议` when it has none.
pub fn move_label(item: &RowItem) -> (r: String)
    ensures
        r@ == match suggestion_name_spec(row_view(*item)) {
            Some(n) => "移到"@ + n,
            None => "移到建议"@,
        },
{
    match suggestion_name(item) {
        Some(n) => {
            let mut out = chars_of("移到");
            append_str(&mut out, n.as_str());
            string_of(out.as_slice())
        },
        None => string_of(chars_of("移到建议").as_slice()),
    }
}

/// How long ago a file changed, from its time and the current time, both in
/// milliseconds since the epoch (see `age_text`); a time in the future
/// counts as now.
pub fn relative_time(modified_ms: u128, now_ms: u128) -> (r: String)
    ensures
        r@ == age_text(if now_ms >= modified_ms { (now_ms - modified_ms) as nat } else { 0 }),
{
    let delta = now_ms.saturating_sub(modified_ms);
    let minute: u128 = 60000;
    let hour: u128 = 60 * minute;
    let day: u128 = 24 * hour;
    let mut out: Vec<char> = Vec::new();
    if delta < minute {
        return string_of(chars_of("刚刚").as_slice());
    } else if delta < hour {
        push_decimal_u128(&mut out, delta / minute);
        append_str(&mut out, " 分钟前");
    } else if delta < day {
        push_decimal_u128(&mut out, delta / hour);
        append_str(&mut out, " 小时前");
    } else {
        push_decimal_u128(&mut out, delta / day);
        append_str(&mut out, " 天前");
    }
    string_of(out.as_slice())
}

/// How many lines a text wraps to at `chars_per_line` width units per line
/// (see `wrap_state`). A text never has more characters than `isize::MAX`,
/// the most bytes an allocation holds.
pub fn wrapped_line_count(text: &str, chars_per_line: usize) -> (r: usize)
    requires
        text@.len() <= isize::MAX,
    ensures
        r as nat == wrap_state(text@, chars_per_line as nat).0,
{
    let cs = chars_of(text);
    let ghost s = text@;
    let mut lines: usize = 1;
    let mut current: usize = 0;
    let mut i: usize = 0;
    while i < cs.len()
        invariant
            i <= cs@.len() == s.len() <= isize::MAX,
            cs@ == s,
            (lines as nat, current as nat) == wrap_state(s.take(i as int), chars_per_line as nat),
        decreases cs.len() - i,
    {
        proof {
            lemma_wrap_state_bounds(s.take(i as int), chars_per_line as nat);
            assert(s.take(i as int + 1).drop_last() == s.take(i as int));
            assert(s.take(i as int + 1).last() == cs@[i as int]);
        }
        let ch = cs[i];
        current = current + if (ch as u32) < 128 { 1 } else { 2 };
        if ch == '\n' || current >= chars_per_line {
            lines = lines + 1;
            current = 0;
        }
        i = i + 1;
    }
    assert(s.take(i as int) == s);
    lines
}

fn row_shown(item: &RowItem, keyword: &Vec<char>) -> (r: bool)
    ensures
        r == table_row_matches(row_view(*item), keyword@),
{
    if keyword.len() == 0 {
        return true;
    }
    let mut text = chars_of(to_lowercase(item.name.as_str()).as_str());
    append_str(&mut text, " ");
    append_str(&mut text, to_lowercase(item.domain.as_str()).as_str());
    contains_chars(text.as_slice(), keyword.as_slice())
}

/// The table's state.
pub struct PanelApp {
    pub config: AppConfig,
    /// The listed files, in the order of `sort_by`.
    pub items: Vec<RowItem>,
    pub status: String,
    pub search: String,
    pub sort_by: SortBy,
    /// The checked paths, none twice.
    pub selected: Vec<String>,
    /// The shown position last clicked or checked.
    pub anchor_idx: Option<usize>,
}

impl PanelApp {
    pub open spec fn rows(&self) -> Seq<RowView> {
        rows_view(self.items@)
    }

    pub open spec fn selection(&self) -> Seq<Seq<char>> {
        strings_of(self.selected@)
    }

    /// No path is checked twice.
    pub open spec fn wf(&self) -> bool {
        selection_unique(self.selection())
    }

    /// The indices of the rows the search shows, in order.
    pub fn filtered_indices(&self) -> (r: Vec<usize>)
        ensures
            r@ == table_matching(self.rows(), keyword_of(self.search@), self.items@.len()),
            forall|k: int| 0 <= k < r@.len() ==> (#[trigger] r@[k]) < self.items@.len(),
    {
        let ghost rows = self.rows();
        let ghost keyword = keyword_of(self.search@);
        let trimmed = trim(self.search.as_str());
        let kw = chars_of(to_lowercase(trimmed.as_str()).as_str());
        let mut out: Vec<usize> = Vec::new();
        let mut i: usize = 0;
        while i < self.items.len()
            invariant
                i <= self.items@.len(),
                rows == self.rows(),
                kw@ == keyword,
                out@ == table_matching(rows, keyword, i as nat),
                forall|k: int| 0 <= k < out@.len() ==> (#[trigger] out@[k]) < i,
            decreases self.items.len() - i,
        {
            assert(rows[i as int] == row_view(self.items@[i as int]));
            if row_shown(&self.items[i], &kw) {
                out.push(i);
            }
            i = i + 1;
        }
        out
    }

    /// Replaces the listed rows: they are sorted by the current sort, and
    /// the checked paths keep those still listed.
    pub fn reload(&mut self, items: Vec<RowItem>)
        requires
            old(self).wf(),
        ensures
            final(self).wf(),
            final(self).rows() == stable_sort(rows_view(items@), key_le(old(self).sort_by)),
            forall|q: Seq<char>| #[trigger] in_selection(final(self).selection(), q) ==
                (in_selection(old(self).selection(), q) && path_listed(rows_view(items@), q)),
            final(self).config == old(self).config,
            final(self).status == old(self).status,
            final(self).search == old(self).search,
            final(self).sort_by == old(self).sort_by,
            final(self).anchor_idx == old(self).anchor_idx,
    {
        let mut items = items;
        let ghost unsorted = rows_view(items@);
        apply_sort_by(self.sort_by, &mut items);
        let kept = retain_listed(&self.selected, &items);
        proof {
            broadcast use vstd::seq_lib::group_to_multiset_ensures;
            crate::sort::lemma_stable_sort_permutes(unsorted, key_le(self.sort_by));
            assert forall|q: Seq<char>| path_listed(rows_view(items@), q) == path_listed(unsorted, q) by {
                let sorted = rows_view(items@);
                assert(sorted.to_multiset() == unsorted.to_multiset());
                if path_listed(sorted, q) {
                    let i = choose|i: int| 0 <= i < sorted.len() && same_path_spec(#[trigger] sorted[i].path, q);
                    assert(sorted.contains(sorted[i]));
                    assert(sorted.to_multiset().count(sorted[i]) > 0);
                    assert(unsorted.to_multiset().count(sorted[i]) > 0);
                    assert(unsorted.contains(sorted[i]));
                    let j = choose|j: int| 0 <= j < unsorted.len() && unsorted[j] == sorted[i];
                    assert(same_path_spec(unsorted[j].path, q));
                }
                if path_listed(unsorted, q) {
                    let i = choose|i: int| 0 <= i < unsorted.len() && same_path_spec(#[trigger] unsorted[i].path, q);
                    assert(unsorted.contains(unsorted[i]));
                    assert(unsorted.to_multiset().count(unsorted[i]) > 0);
                    assert(sorted.to_multiset().count(unsorted[i]) > 0);
                    assert(sorted.contains(unsorted[i]));
                    let j = choose|j: int| 0 <= j < sorted.len() && sorted[j] == unsorted[i];
                    assert(same_path_spec(sorted[j].path, q));
                }
            }
        }
        self.items = items;
        self.selected = kept;
    }

    /// A table listing `items`: nothing checked, no search, sorted by name.
    pub fn new(config: AppConfig, items: Vec<RowItem>) -> (app: PanelApp)
        ensures
            app.wf(),
            app.config == config,
            app.rows() == stable_sort(rows_view(items@), key_le(SortBy::NameAsc)),
            app.selected@.len() == 0,
            app.status@ == "已加载"@,
            app.search@ == Seq::<char>::empty(),
            app.sort_by == SortBy::NameAsc,
            app.anchor_idx is None,
    {
        let mut app = PanelApp {
            config,
            items: Vec::new(),
            status: string_of(chars_of("已加载").as_slice()),
            search: String::new(),
            sort_by: SortBy::NameAsc,
            selected: Vec::new(),
            anchor_idx: None,
        };
        assert(app.wf());
        app.reload(items);
        proof {
            if app.selected@.len() > 0 {
                assert(in_selection(app.selection(), app.selection()[0]));
            }
        }
        app
    }
}

} // verus!

verus! {

/// The checked rows, in the table's order.
pub open spec fn checked_rows_upto(rows: Seq<RowView>, sel: Seq<Seq<char>>, n: nat) -> Seq<RowView>
    decreases n,
{
    if n == 0 {
        Seq::empty()
    } else {
        let prev = checked_rows_upto(rows, sel, (n - 1) as nat);
        if in_selection(sel, rows[n - 1].path) { prev.push(rows[n - 1]) } else { prev }
    }
}

/// The table with only its checked paths and anchor changed.
pub open spec fn same_table(a: PanelApp, b: PanelApp) -> bool {
    &&& a.config == b.config
    &&& a.items == b.items
    &&& a.status == b.status
    &&& a.search == b.search
    &&& a.sort_by == b.sort_by
}

impl PanelApp {
    /// Checks the rows at positions `start..=end` of `shown` that exist.
    fn check_range(&mut self, shown: &Vec<usize>, start: usize, end: usize)
        requires
            old(self).wf(),
            start <= end,
            forall|k: int| 0 <= k < shown@.len() ==> (#[trigger] shown@[k]) < old(self).items@.len(),
        ensures
            final(self).wf(),
            forall|q: Seq<char>| #[trigger] in_selection(final(self).selection(), q) ==
                (in_selection(old(self).selection(), q) || listed_in_range(old(self).rows(), shown@, start as int, end as int, q)),
            same_table(*final(self), *old(self)),
            final(self).anchor_idx == old(self).anchor_idx,
    {
        let ghost s0 = *self;
        let ghost rows = s0.rows();
        let mut pos: usize = start;
        assert forall|q: Seq<char>| #[trigger] in_selection(self.selection(), q) ==
            (in_selection(s0.selection(), q) || listed_in_range(rows, shown@, start as int, pos as int - 1, q)) by {}
        while pos <= end && pos < shown.len()
            invariant
                self.wf(),
                start <= pos,
                pos <= end + 1,
                same_table(*self, s0),
                self.anchor_idx == s0.anchor_idx,
                rows == s0.rows(),
                forall|k: int| 0 <= k < shown@.len() ==> (#[trigger] shown@[k]) < self.items@.len(),
                forall|q: Seq<char>| #[trigger] in_selection(self.selection(), q) ==
                    (in_selection(s0.selection(), q) || listed_in_range(rows, shown@, start as int, pos as int - 1, q)),
            decreases shown@.len() - pos,
        {
            let idx = shown[pos];
            let ghost before = self.selection();
            let ghost p = rows[idx as int].path;
            assert(self.items@[idx as int].path@ == p);
            selection_insert(&mut self.selected, self.items[idx].path.as_str());
            proof {
                assert forall|q: Seq<char>| #[trigger] in_selection(self.selection(), q) ==
                    (in_selection(s0.selection(), q) || listed_in_range(rows, shown@, start as int, pos as int, q)) by {
                    assert(in_selection(self.selection(), q) == (in_selection(before, q) || same_path_spec(q, p)));
                    if listed_in_range(rows, shown@, start as int, pos as int, q) {
                        let k = choose|k: int| start <= k <= pos && 0 <= k < shown@.len() && same_path_spec(#[trigger] rows[shown@[k] as int].path, q);
                        if k < pos {
                            assert(listed_in_range(rows, shown@, start as int, pos as int - 1, q));
                        }
                    }
                    if listed_in_range(rows, shown@, start as int, pos as int - 1, q) {
                        let k = choose|k: int| start <= k <= pos - 1 && 0 <= k < shown@.len() && same_path_spec(#[trigger] rows[shown@[k] as int].path, q);
                        assert(listed_in_range(rows, shown@, start as int, pos as int, q));
                    }
                    if same_path_spec(q, p) {
                        assert(same_path_spec(rows[shown@[pos as int] as int].path, q));
                        assert(listed_in_range(rows, shown@, start as int, pos as int, q));
                    }
                }
            }
            pos = pos + 1;
        }
        assert forall|q: Seq<char>| #[trigger] in_selection(self.selection(), q) ==
            (in_selection(s0.selection(), q) || listed_in_range(rows, shown@, start as int, end as int, q)) by {
            if listed_in_range(rows, shown@, start as int, end as int, q) {
                let k = choose|k: int| start <= k <= end && 0 <= k < shown@.len() && same_path_spec(#[trigger] rows[shown@[k] as int].path, q);
                assert(listed_in_range(rows, shown@, start as int, pos as int - 1, q));
            }
            if listed_in_range(rows, shown@, start as int, pos as int - 1, q) {
                let k = choose|k: int| start <= k <= pos - 1 && 0 <= k < shown@.len() && same_path_spec(#[trigger] rows[shown@[k] as int].path, q);
                assert(listed_in_range(rows, shown@, start as int, end as int, q));
            }
        }
    }

    /// A click on the row at position `visible_pos` of the shown rows
    /// `visible_indices`. With shift held: when there is an anchor, every
    /// shown row between it and the clicked one is checked; else the clicked
    /// row is checked and becomes the anchor. Without shift the clicked row's
    /// check is toggled and it becomes the anchor. A position past the shown
    /// rows changes nothing.
    pub fn apply_row_selection(&mut self, visible_indices: &Vec<usize>, visible_pos: usize, shift: bool)
        requires
            old(self).wf(),
            forall|k: int| 0 <= k < visible_indices@.len() ==> (#[trigger] visible_indices@[k]) < old(self).items@.len(),
        ensures
            final(self).wf(),
            same_table(*final(self), *old(self)),
            visible_pos >= visible_indices@.len() ==> *final(self) == *old(self),
            visible_pos < visible_indices@.len() ==> {
                let p = old(self).rows()[visible_indices@[visible_pos as int] as int].path;
                let pos = visible_pos as int;
                if shift {
                    match old(self).anchor_idx {
                        Some(a) => {
                            &&& forall|q: Seq<char>| #[trigger] in_selection(final(self).selection(), q) ==
                                (in_selection(old(self).selection(), q) || listed_in_range(old(self).rows(), visible_indices@,
                                    if a <= pos { a as int } else { pos }, if a <= pos { pos } else { a as int }, q))
                            &&& final(self).anchor_idx == old(self).anchor_idx
                        },
                        None => {
                            &&& forall|q: Seq<char>| #[trigger] in_selection(final(self).selection(), q) ==
                                (in_selection(old(self).selection(), q) || same_path_spec(q, p))
                            &&& final(self).anchor_idx == Some(visible_pos)
                        },
                    }
                } else {
                    &&& forall|q: Seq<char>| #[trigger] in_selection(final(self).selection(), q) == toggled(old(self).selection(), p, q)
                    &&& final(self).anchor_idx == Some(visible_pos)
                }
            },
    {
        if visible_pos >= visible_indices.len() {
            return;
        }
        let ghost s0 = *self;
        let idx = visible_indices[visible_pos];
        let path = self.items[idx].path.clone();
        let ghost p = s0.rows()[idx as int].path;
        assert(path@ == p);
        if shift {
            match self.anchor_idx {
                Some(anchor) => {
                    if anchor <= visible_pos {
                        self.check_range(visible_indices, anchor, visible_pos);
                    } else {
                        self.check_range(visible_indices, visible_pos, anchor);
                    }
                },
                None => {
                    selection_insert(&mut self.selected, path.as_str());
                    self.anchor_idx = Some(visible_pos);
                },
            }
            return;
        }
        let added = selection_insert(&mut self.selected, path.as_str());
        if !added {
            let ghost mid = self.selection();
            selection_remove(&mut self.selected, path.as_str());
            assert forall|q: Seq<char>| #[trigger] in_selection(self.selection(), q) == toggled(s0.selection(), p, q) by {
                assert(in_selection(mid, q) == (in_selection(s0.selection(), q) || same_path_spec(q, p)));
                if same_path_spec(q, p) {
                    let i = choose|i: int| 0 <= i < s0.selection().len() && same_path_spec(#[trigger] s0.selection()[i], p);
                    assert(same_path_spec(s0.selection()[i], q));
                }
            }
        }
        self.anchor_idx = Some(visible_pos);
    }

    /// The check box of the shown row at `row_pos` was set to `checked`: the
    /// row's path is checked or unchecked, and the row becomes the anchor.
    pub fn set_row_checked(&mut self, visible_indices: &Vec<usize>, row_pos: usize, checked: bool)
        requires
            old(self).wf(),
            row_pos < visible_indices@.len(),
            visible_indices@[row_pos as int] < old(self).items@.len(),
        ensures
            final(self).wf(),
            same_table(*final(self), *old(self)),
            ({
                let p = old(self).rows()[visible_indices@[row_pos as int] as int].path;
                forall|q: Seq<char>| #[trigger] in_selection(final(self).selection(), q) ==
                    if checked { in_selection(old(self).selection(), q) || same_path_spec(q, p) }
                    else { in_selection(old(self).selection(), q) && !same_path_spec(q, p) }
            }),
            final(self).anchor_idx == Some(row_pos),
    {
        let idx = visible_indices[row_pos];
        if checked {
            selection_insert(&mut self.selected, self.items[idx].path.as_str());
        } else {
            selection_remove(&mut self.selected, self.items[idx].path.as_str());
        }
        self.anchor_idx = Some(row_pos);
    }

    /// Checks every row the search shows.
    pub fn select_all_filtered(&mut self)
        requires
            old(self).wf(),
        ensures
            final(self).wf(),
            same_table(*final(self), *old(self)),
            final(self).anchor_idx == old(self).anchor_idx,
            forall|q: Seq<char>| #[trigger] in_selection(final(self).selection(), q) ==
                (in_selection(old(self).selection(), q) || matching_path(old(self).rows(), keyword_of(old(self).search@), q)),
    {
        let ghost s0 = *self;
        let ghost rows = s0.rows();
        let ghost keyword = keyword_of(s0.search@);
        let trimmed = trim(self.search.as_str());
        let kw = chars_of(to_lowercase(trimmed.as_str()).as_str());
        let mut i: usize = 0;
        assert forall|q: Seq<char>| #[trigger] in_selection(self.selection(), q) ==
            (in_selection(s0.selection(), q) || matching_path(rows.take(0), keyword, q)) by {}
        while i < self.items.len()
            invariant
                self.wf(),
                i <= self.items@.len(),
                same_table(*self, s0),
                self.anchor_idx == s0.anchor_idx,
                rows == self.rows(),
                kw@ == keyword,
                forall|q: Seq<char>| #[trigger] in_selection(self.selection(), q) ==
                    (in_selection(s0.selection(), q) || matching_path(rows.take(i as int), keyword, q)),
            decreases self.items.len() - i,
        {
            let ghost before = self.selection();
            let ghost r = rows[i as int];
            assert(r == row_view(self.items@[i as int]));
            let shown = row_shown(&self.items[i], &kw);
            if shown {
                selection_insert(&mut self.selected, self.items[i].path.as_str());
            }
            proof {
                let t0 = rows.take(i as int);
                let t1 = rows.take(i as int + 1);
                assert forall|q: Seq<char>| #[trigger] in_selection(self.selection(), q) ==
                    (in_selection(s0.selection(), q) || matching_path(t1, keyword, q)) by {
                    if matching_path(t1, keyword, q) {
                        let j = choose|j: int| 0 <= j < t1.len() && table_row_matches(t1[j], keyword) && same_path_spec(#[trigger] t1[j].path, q);
                        if j < i {
                            assert(t0[j] == t1[j]);
                            assert(matching_path(t0, keyword, q));
                        }
                    }
                    if matching_path(t0, keyword, q) {
                        let j = choose|j: int| 0 <= j < t0.len() && table_row_matches(t0[j], keyword) && same_path_spec(#[trigger] t0[j].path, q);
                        assert(t0[j] == t1[j]);
                        assert(matching_path(t1, keyword, q));
                    }
                    if shown && same_path_spec(q, r.path) {
                        assert(t1[i as int] == r);
                        assert(same_path_spec(t1[i as int].path, q));
                        assert(matching_path(t1, keyword, q));
                    }
                    if shown {
                        assert(in_selection(self.selection(), q) == (in_selection(before, q) || same_path_spec(q, r.path)));
                    }
                }
            }
            i = i + 1;
        }
        assert(rows.take(i as int) == rows);
    }

    /// Unchecks every row; the anchor stays.
    pub fn clear_selection(&mut self)
        ensures
            final(self).wf(),
            final(self).selected@.len() == 0,
            same_table(*final(self), *old(self)),
            final(self).anchor_idx == old(self).anchor_idx,
    {
        self.selected = Vec::new();
    }

    /// A click on a column's header whose two sorts are `asc` and `desc`:
    /// the sort becomes `desc` when it was `asc`, else `asc`, and the rows
    /// are sorted again.
    pub fn toggle_sort(&mut self, asc: SortBy, desc: SortBy)
        ensures
            final(self).sort_by == (if old(self).sort_by == asc { desc } else { asc }),
            final(self).rows() == stable_sort(old(self).rows(), key_le(final(self).sort_by)),
            final(self).selected == old(self).selected,
            final(self).anchor_idx == old(self).anchor_idx,
            final(self).config == old(self).config,
            final(self).status == old(self).status,
            final(self).search == old(self).search,
    {
        self.sort_by = if self.sort_by == asc { desc } else { asc };
        let sort_by = self.sort_by;
        apply_sort_by(sort_by, &mut self.items);
    }

    /// A column header with the arrow of the current sort (see `header_label`).
    pub fn sort_label(&self, label: &str, asc: SortBy, desc: SortBy) -> (r: String)
        ensures
            r@ == header_label(label@, self.sort_by, asc, desc),
    {
        sort_header(label, self.sort_by, asc, desc)
    }

    /// The checked rows, in the table's order.
    pub fn checked_items(&self) -> (r: Vec<RowItem>)
        ensures
            rows_view(r@) == checked_rows_upto(self.rows(), self.selection(), self.items@.len()),
    {
        let ghost rows = self.rows();
        let mut out: Vec<RowItem> = Vec::new();
        let mut i: usize = 0;
        while i < self.items.len()
            invariant
                i <= self.items@.len(),
                rows == self.rows(),
                rows_view(out@) == checked_rows_upto(rows, self.selection(), i as nat),
            decreases self.items.len() - i,
        {
            assert(rows[i as int] == row_view(self.items@[i as int]));
            if selection_has(&self.selected, self.items[i].path.as_str()) {
                let ghost before = out@;
                out.push(self.items[i].copy());
                assert(rows_view(out@) =~= rows_view(before).push(rows[i as int]));
            }
            i = i + 1;
        }
        out
    }
}

} // verus!

verus! {

proof fn lemma_key_order_facts(x: RowView, y: RowView, z: RowView, sort_by: SortBy)
    ensures
        key_order(x, y, sort_by) != Order::Greater || key_order(y, x, sort_by) != Order::Greater,
        key_order(x, y, sort_by) != Order::Greater && key_order(y, z, sort_by) != Order::Greater
            ==> key_order(x, z, sort_by) != Order::Greater,
{
    lemma_text_order_facts(x.name, y.name, z.name);
    lemma_text_order_facts(y.name, x.name, z.name);
    lemma_text_order_facts(z.name, y.name, x.name);
    lemma_text_order_facts(x.domain, y.domain, z.domain);
    lemma_text_order_facts(y.domain, x.domain, z.domain);
    lemma_text_order_facts(z.domain, y.domain, x.domain);
}

/// After sorting, the table holds the same rows, ordered by the sort's column.
pub proof fn lemma_table_sorted(rows: Seq<RowView>, sort_by: SortBy)
    ensures
        ({
            let sorted = stable_sort(rows, key_le(sort_by));
            &&& sorted.to_multiset() == rows.to_multiset()
            &&& forall|i: int, j: int| 0 <= i < j < sorted.len() ==>
                key_order(#[trigger] sorted[i], #[trigger] sorted[j], sort_by) != Order::Greater
        }),
{
    let le = key_le(sort_by);
    assert(total_preorder(le)) by {
        assert forall|a: RowView, b: RowView| #[trigger] le(a, b) || le(b, a) by {
            lemma_key_order_facts(a, b, a, sort_by);
        }
        assert forall|a: RowView, b: RowView, c: RowView| #[trigger] le(a, b) && #[trigger] le(b, c) implies le(a, c) by {
            lemma_key_order_facts(a, b, c, sort_by);
        }
    }
    crate::sort::lemma_stable_sort_sorted(rows, le);
    crate::sort::lemma_stable_sort_permutes(rows, le);
    let sorted = stable_sort(rows, le);
    assert forall|i: int, j: int| 0 <= i < j < sorted.len() implies
        key_order(#[trigger] sorted[i], #[trigger] sorted[j], sort_by) != Order::Greater by {
        assert(le(sorted[i], sorted[j]));
    }
}

/// The rows the table's search shows are exactly those that match, in table
/// order.
pub proof fn lemma_table_matching(rows: Seq<RowView>, keyword: Seq<char>, n: nat)
    requires
        n <= rows.len() <= usize::MAX,
    ensures
        forall|k: int| 0 <= k < table_matching(rows, keyword, n).len() ==>
            (#[trigger] table_matching(rows, keyword, n)[k]) < n
            && table_row_matches(rows[table_matching(rows, keyword, n)[k] as int], keyword),
        forall|i: int, j: int| 0 <= i < j < table_matching(rows, keyword, n).len() ==>
            #[trigger] table_matching(rows, keyword, n)[i] < #[trigger] table_matching(rows, keyword, n)[j],
        forall|i: int| 0 <= i < n && table_row_matches(rows[i], keyword) ==> table_matching(rows, keyword, n).contains(i as usize),
    decreases n,
{
    if n > 0 {
        lemma_table_matching(rows, keyword, (n - 1) as nat);
        let prev = table_matching(rows, keyword, (n - 1) as nat);
        let m = table_matching(rows, keyword, n);
        if table_row_matches(rows[n - 1], keyword) {
            assert(m == prev.push((n - 1) as usize));
            assert(m[prev.len() as int] == (n - 1) as usize);
            assert forall|i: int| 0 <= i < n && table_row_matches(rows[i], keyword) implies m.contains(i as usize) by {
                if i < n - 1 {
                    let k = choose|k: int| 0 <= k < prev.len() && prev[k] == i as usize;
                    assert(m[k] == prev[k]);
                }
            }
        } else {
            assert forall|i: int| 0 <= i < n && table_row_matches(rows[i], keyword) implies m.contains(i as usize) by {
                assert(i < n - 1);
            }
        }
    }
}

} // verus!

verus! {

impl PanelApp {
    /// The first step of moving the checked files to their suggested folders.
    /// With nothing checked the status becomes `请先勾选文件` and nothing is to
    /// be moved; otherwise the result is the moves for the checked rows, in
    /// table order, and how many of them are skipped for want of a suggestion.
    /// Only the status changes.
    pub fn plan_bulk_move(&mut self) -> (r: Option<(Vec<PlannedMove>, usize)>)
        ensures
            ({
                let rows = checked_rows_upto(old(self).rows(), old(self).selection(), old(self).items@.len());
                match r {
                    None => old(self).selected@.len() == 0 && final(self).status@ == "请先勾选文件"@,
                    Some(p) => old(self).selected@.len() > 0 && moves_view(p.0@) == suggested_moves(rows)
                        && p.1 as nat == unsuggested_count(rows) && final(self).status == old(self).status,
                }
            }),
            *final(self) == (PanelApp { status: final(self).status, ..*old(self) }),
    {
        if self.selected.len() == 0 {
            self.status = string_of(chars_of("请先勾选文件").as_slice());
            return None;
        }
        let items = self.checked_items();
        Some(plan_suggested_moves(&items))
    }

    /// The first step of moving the checked files to the trash. With nothing
    /// checked the status becomes `请先勾选文件` and there is nothing to move;
    /// otherwise the result is the checked paths. Only the status changes.
    pub fn bulk_trash_paths(&mut self) -> (r: Option<Vec<String>>)
        ensures
            match r {
                None => old(self).selected@.len() == 0 && final(self).status@ == "请先勾选文件"@,
                Some(v) => old(self).selected@.len() > 0 && strings_of(v@) == old(self).selection()
                    && final(self).status == old(self).status,
            },
            *final(self) == (PanelApp { status: final(self).status, ..*old(self) }),
    {
        if self.selected.len() == 0 {
            self.status = string_of(chars_of("请先勾选文件").as_slice());
            return None;
        }
        let mut out: Vec<String> = Vec::new();
        let mut i: usize = 0;
        while i < self.selected.len()
            invariant
                i <= self.selected@.len(),
                strings_of(out@) == strings_of(self.selected@).take(i as int),
            decreases self.selected.len() - i,
        {
            let ghost before = out@;
            out.push(self.selected[i].clone());
            assert(strings_of(out@) =~= strings_of(before).push(self.selected@[i as int]@));
            assert(strings_of(self.selected@).take(i as int + 1) =~= strings_of(self.selected@).take(i as int).push(self.selected@[i as int]@));
            i = i + 1;
        }
        assert(strings_of(self.selected@).take(i as int) =~= strings_of(self.selected@));
        Some(out)
    }
}

} // verus!
