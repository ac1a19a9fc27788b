//! The list manager: one entry per action on each download, and how a
//! picked entry is read back.
use vstd::prelude::*;
use crate::text::{chars_of, string_of, append_str, seq_eq, text_lt};
use crate::pathing::{file_name_of, path_file_name, opt_view};
use crate::sort::{stable_sort, lemma_insert_by_at};

verus! {

/// A download in the managed folder.
pub struct ManageItem {
    pub path: String,
    pub file_name: String,
    pub domain: String,
    pub suggestion: Option<String>,
}

/// An action on the item at an index.
#[derive(PartialEq, Eq, Structural, Clone, Copy, Debug)]
pub enum EntryAction {
    MoveSuggested(usize),
    ChooseOther(usize),
    Ignore(usize),
    DeleteTrash(usize),
    RevealInFinder(usize),
}

pub open spec fn item_view(i: ManageItem) -> (Seq<char>, Seq<char>, Seq<char>, Option<Seq<char>>) {
    (i.path@, i.file_name@, i.domain@, opt_view(i.suggestion))
}

pub open spec fn items_view(v: Seq<ManageItem>) -> Seq<(Seq<char>, Seq<char>, Seq<char>, Option<Seq<char>>)> {
    Seq::new(v.len(), |i: int| item_view(v[i]))
}

/// The common start of an item's entries: a stripe mark, the file name, the
/// domain and the suggested folder's name.
pub open spec fn entry_base(idx: int, item: (Seq<char>, Seq<char>, Seq<char>, Option<Seq<char>>)) -> Seq<char> {
    let tag = if idx % 2 == 0 { "[白]"@ } else { "[灰]"@ };
    let suggest = match item.3 {
        Some(p) => match path_file_name(p) {
            Some(n) => n,
            None => "无建议"@,
        },
        None => "无建议"@,
    };
    tag + " "@ + item.1 + " · "@ + item.2 + " · "@ + suggest
}

/// The five entries of the item at `idx`, with their actions.
pub open spec fn item_entries(idx: int, item: (Seq<char>, Seq<char>, Seq<char>, Option<Seq<char>>)) -> Seq<(Seq<char>, EntryAction)> {
    let base = entry_base(idx, item);
    seq![
        (base + " ｜移动到建议目录"@, EntryAction::MoveSuggested(idx as usize)),
        (base + " ｜选择其他目录..."@, EntryAction::ChooseOther(idx as usize)),
        (base + " ｜放着不管"@, EntryAction::Ignore(idx as usize)),
        (base + " ｜删除到废纸篓"@, EntryAction::DeleteTrash(idx as usize)),
        (base + " ｜在访达中显示"@, EntryAction::RevealInFinder(idx as usize)),
    ]
}

/// The entries of all items, in item order.
pub open spec fn all_entries(items: Seq<(Seq<char>, Seq<char>, Seq<char>, Option<Seq<char>>)>) -> Seq<(Seq<char>, EntryAction)>
    decreases items.len(),
{
    if items.len() == 0 {
        Seq::empty()
    } else {
        all_entries(items.drop_last()) + item_entries(items.len() - 1, items.last())
    }
}

pub open spec fn labels_and_actions(labels: Seq<String>, actions: Seq<EntryAction>) -> Seq<(Seq<char>, EntryAction)> {
    Seq::new(labels.len(), |i: int| (labels[i]@, actions[i]))
}

/// The entries for `items`: for each item, five labelled actions.
pub fn build_action_entries(items: &Vec<ManageItem>) -> (r: (Vec<String>, Vec<EntryAction>))
    ensures
        r.0@.len() == r.1@.len(),
        labels_and_actions(r.0@, r.1@) == all_entries(items_view(items@)),
{
    let ghost iv = items_view(items@);
    let mut labels: Vec<String> = Vec::new();
    let mut actions: Vec<EntryAction> = Vec::new();
    let mut idx: usize = 0;
    assert(iv.take(0) =~= Seq::<(Seq<char>, Seq<char>, Seq<char>, Option<Seq<char>>)>::empty());
    assert(labels_and_actions(labels@, actions@) =~= Seq::<(Seq<char>, EntryAction)>::empty());
    while idx < items.len()
        invariant
            idx <= items@.len(),
            iv == items_view(items@),
            labels@.len() == actions@.len(),
            labels_and_actions(labels@, actions@) == all_entries(iv.take(idx as int)),
        decreases items.len() - idx,
    {
        assert(iv.take(idx as int + 1).drop_last() == iv.take(idx as int));
        assert(iv.take(idx as int + 1).last() == iv[idx as int]);
        let item = &items[idx];
        let mut base = if idx % 2 == 0 { chars_of("[白]") } else { chars_of("[灰]") };
        append_str(&mut base, " ");
        append_str(&mut base, item.file_name.as_str());
        append_str(&mut base, " · ");
        append_str(&mut base, item.domain.as_str());
        append_str(&mut base, " · ");
        let suggest = match &item.suggestion {
            Some(p) => match file_name_of(p.as_str()) {
                Some(n) => n,
                None => string_of(chars_of("无建议").as_slice()),
            },
            None => string_of(chars_of("无建议").as_slice()),
        };
        append_str(&mut base, suggest.as_str());
        assert(base@ == entry_base(idx as int, iv[idx as int]));
        let ghost before = labels_and_actions(labels@, actions@);
        let mut l1 = crate::text::copy_chars(base.as_slice());
        append_str(&mut l1, " ｜移动到建议目录");
        labels.push(string_of(l1.as_slice()));
        actions.push(EntryAction::MoveSuggested(idx));
        let mut l2 = crate::text::copy_chars(base.as_slice());
        append_str(&mut l2, " ｜选择其他目录...");
        labels.push(string_of(l2.as_slice()));
        actions.push(EntryAction::ChooseOther(idx));
        let mut l3 = crate::text::copy_chars(base.as_slice());
        append_str(&mut l3, " ｜放着不管");
        labels.push(string_of(l3.as_slice()));
        actions.push(EntryAction::Ignore(idx));
        let mut l4 = crate::text::copy_chars(base.as_slice());
        append_str(&mut l4, " ｜删除到废纸篓");
        labels.push(string_of(l4.as_slice()));
        actions.push(EntryAction::DeleteTrash(idx));
        let mut l5 = crate::text::copy_chars(base.as_slice());
        append_str(&mut l5, " ｜在访达中显示");
        labels.push(string_of(l5.as_slice()));
        actions.push(EntryAction::RevealInFinder(idx));
        assert(labels_and_actions(labels@, actions@) =~= before + item_entries(idx as int, iv[idx as int]));
        idx = idx + 1;
    }
    assert(iv.take(items@.len() as int) == iv);
    (labels, actions)
}

/// What the list picker's output means: `__CANCEL__` is no choice.
pub fn chosen_entry(result: &str) -> (r: Option<String>)
    ensures
        r is None <==> result@ == "__CANCEL__"@,
        r matches Some(s) ==> s@ == result@,
{
    if seq_eq(chars_of(result).as_slice(), chars_of("__CANCEL__").as_slice()) {
        None
    } else {
        Some(string_of(chars_of(result).as_slice()))
    }
}

/// The index of the first label equal to `picked`.
pub open spec fn first_label_index(labels: Seq<Seq<char>>, picked: Seq<char>) -> int
    decreases labels.len(),
{
    if labels.len() == 0 {
        -1
    } else if labels[0] == picked {
        0
    } else {
        let rest = first_label_index(labels.drop_first(), picked);
        if rest < 0 { -1 } else { rest + 1 }
    }
}

/// The action of the first entry labelled `picked`, as `Iterator::position`
/// finds it; `None` when no entry has that label.
pub fn action_for_label(labels: &Vec<String>, actions: &Vec<EntryAction>, picked: &str) -> (r: Option<EntryAction>)
    requires
        labels@.len() == actions@.len(),
    ensures
        ({
            let k = first_label_index(Seq::new(labels@.len(), |i: int| labels@[i]@), picked@);
            match r {
                Some(a) => k >= 0 && a == actions@[k],
                None => k < 0,
            }
        }),
{
    let ghost ls = Seq::new(labels@.len(), |i: int| labels@[i]@);
    let p = chars_of(picked);
    let mut i: usize = 0;
    assert(ls.skip(0) == ls);
    while i < labels.len()
        invariant
            i <= labels@.len(),
            labels@.len() == actions@.len(),
            ls == Seq::new(labels@.len(), |i: int| labels@[i]@),
            p@ == picked@,
            first_label_index(ls, picked@) == (if first_label_index(ls.skip(i as int), picked@) < 0 { -1 }
                else { first_label_index(ls.skip(i as int), picked@) + i }),
        decreases labels.len() - i,
    {
        assert(ls.skip(i as int)[0] == labels@[i as int]@);
        assert(ls.skip(i as int).drop_first() == ls.skip(i as int + 1));
        if seq_eq(chars_of(labels[i].as_str()).as_slice(), p.as_slice()) {
            return Some(actions[i]);
        }
        i = i + 1;
    }
    assert(ls.skip(i as int) =~= Seq::<Seq<char>>::empty());
    None
}

/// What to do when there is nothing to manage.
#[derive(PartialEq, Eq, Structural, Clone, Copy, Debug)]
pub enum EmptyStateAction {
    OpenDownloads,
    OpenMemory,
    Quit,
}

/// What an answer to the empty-state picker asks for.
pub fn empty_state_choice(answer: &str) -> (r: EmptyStateAction)
    ensures
        r == (if answer@ == "打开下载文件夹"@ { EmptyStateAction::OpenDownloads }
            else if answer@ == "打开记忆库文件"@ { EmptyStateAction::OpenMemory }
            else { EmptyStateAction::Quit }),
{
    let a = chars_of(answer);
    if seq_eq(a.as_slice(), chars_of("打开下载文件夹").as_slice()) {
        EmptyStateAction::OpenDownloads
    } else if seq_eq(a.as_slice(), chars_of("打开记忆库文件").as_slice()) {
        EmptyStateAction::OpenMemory
    } else {
        EmptyStateAction::Quit
    }
}

/// Items ordered by file name.
pub open spec fn item_order() -> spec_fn((Seq<char>, Seq<char>, Seq<char>, Option<Seq<char>>), (Seq<char>, Seq<char>, Seq<char>, Option<Seq<char>>)) -> bool {
    |a: (Seq<char>, Seq<char>, Seq<char>, Option<Seq<char>>), b: (Seq<char>, Seq<char>, Seq<char>, Option<Seq<char>>)| !text_lt(b.1, a.1)
}

/// Sorts items by file name, keeping the order of equal names.
pub fn sort_items_by_name(items: Vec<ManageItem>) -> (r: Vec<ManageItem>)
    ensures
        items_view(r@) == stable_sort(items_view(items@), item_order()),
{
    let ghost vs = items_view(items@);
    let mut src = items;
    let mut rev: Vec<ManageItem> = Vec::new();
    while src.len() > 0
        invariant
            items_view(src@) + items_view(rev@).reverse() == vs,
        decreases src.len(),
    {
        let ghost s0 = src@;
        let ghost r0 = rev@;
        let x = src.pop().unwrap();
        let ghost xv = item_view(x);
        rev.push(x);
        assert(items_view(s0) =~= items_view(src@).push(xv));
        assert(items_view(rev@) =~= items_view(r0).push(xv));
        assert(items_view(rev@).reverse() =~= seq![xv] + items_view(r0).reverse());
        assert(items_view(src@).push(xv) + items_view(r0).reverse() =~= items_view(src@) + items_view(rev@).reverse());
    }
    assert(items_view(src@) =~= Seq::<(Seq<char>, Seq<char>, Seq<char>, Option<Seq<char>>)>::empty());
    assert(items_view(rev@).reverse() =~= vs);
    let n = rev.len();
    let mut r: Vec<ManageItem> = Vec::new();
    let mut i: usize = 0;
    assert(vs.take(0) =~= Seq::<(Seq<char>, Seq<char>, Seq<char>, Option<Seq<char>>)>::empty());
    assert(items_view(r@) =~= Seq::<(Seq<char>, Seq<char>, Seq<char>, Option<Seq<char>>)>::empty());
    while rev.len() > 0
        invariant
            i + rev@.len() == n,
            n == vs.len(),
            items_view(rev@).reverse() == vs.skip(i as int),
            items_view(r@) == stable_sort(vs.take(i as int), item_order()),
        decreases rev.len(),
    {
        let ghost r0 = rev@;
        let x = rev.pop().unwrap();
        let ghost xv = item_view(x);
        assert(items_view(r0) =~= items_view(rev@).push(xv));
        assert(items_view(r0).reverse() =~= seq![xv] + items_view(rev@).reverse());
        assert(vs.skip(i as int)[0] == vs[i as int]);
        assert(xv == vs[i as int]);
        assert(vs.skip(i as int).drop_first() =~= vs.skip(i as int + 1));
        assert((seq![xv] + items_view(rev@).reverse()).drop_first() =~= items_view(rev@).reverse());
        assert(items_view(rev@).reverse() =~= vs.skip(i as int + 1));
        let key = chars_of(x.file_name.as_str());
        let mut j = r.len();
        while j > 0 && text_before(key.as_slice(), r[j - 1].file_name.as_str())
            invariant
                j <= r@.len(),
                key@ == xv.1,
                forall|k: int| j <= k < r@.len() ==> !(item_order())(#[trigger] items_view(r@)[k], xv),
            decreases j,
        {
            assert(items_view(r@)[j - 1].1 == r@[j - 1].file_name@);
            j = j - 1;
        }
        proof {
            if j > 0 {
                assert(items_view(r@)[j - 1].1 == r@[j - 1].file_name@);
            }
            lemma_insert_by_at(items_view(r@), xv, item_order(), j as int);
            assert(vs.take(i as int + 1).drop_last() == vs.take(i as int));
            assert(vs.take(i as int + 1).last() == xv);
        }
        let ghost before = r@;
        r.insert(j, x);
        assert(items_view(r@) =~= items_view(before).insert(j as int, xv));
        i = i + 1;
    }
    assert(vs.take(n as int) == vs);
    r
}

fn text_before(a: &[char], b: &str) -> (r: bool)
    ensures
        r == text_lt(a@, b@),
{
    match crate::text::compare_text(a, chars_of(b).as_slice()) {
        crate::text::Order::Less => true,
        _ => false,
    }
}

/// The script of the list picker; the entries' labels are its arguments, and
/// it answers `__CANCEL__` when nothing is picked.
pub fn action_picker_script() -> (r: String)
    ensures
        r@ == "use scripting additions\non run argv\nset picked to choose from list argv with title \"Download Cleaner 管理\" with prompt \"选择动作并直接执行\" OK button name \"执行\" cancel button name \"退出\"\nif picked is false then return \"__CANCEL__\"\nreturn item 1 of picked\nend run"@,
{
    string_of(chars_of("use scripting additions\non run argv\nset picked to choose from list argv with title \"Download Cleaner 管理\" with prompt \"选择动作并直接执行\" OK button name \"执行\" cancel button name \"退出\"\nif picked is false then return \"__CANCEL__\"\nreturn item 1 of picked\nend run").as_slice())
}

/// The script of the picker shown when there is nothing to manage; the
/// memory file's path is its argument, and it answers `退出` when nothing is
/// picked.
pub fn empty_state_script() -> (r: String)
    ensures
        r@ == "use scripting additions\non run argv\nset m to item 1 of argv\nset msg to \"当前没有可管理的下载文件。\" & return & \"记忆库: \" & m\nset picked to choose from list {\"打开下载文件夹\", \"打开记忆库文件\", \"退出\"} with title \"Download Cleaner 管理\" with prompt msg OK button name \"执行\" cancel button name \"退出\"\nif picked is false then return \"退出\"\nreturn item 1 of picked\nend run"@,
{
    string_of(chars_of("use scripting additions\non run argv\nset m to item 1 of argv\nset msg to \"当前没有可管理的下载文件。\" & return & \"记忆库: \" & m\nset picked to choose from list {\"打开下载文件夹\", \"打开记忆库文件\", \"退出\"} with title \"Download Cleaner 管理\" with prompt msg OK button name \"执行\" cancel button name \"退出\"\nif picked is false then return \"退出\"\nreturn item 1 of picked\nend run").as_slice())
}

} // verus!

