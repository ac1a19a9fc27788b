//! The dialogs shown with AppleScript and how their answers are read.
use vstd::prelude::*;
use crate::text::{chars_of, string_of, append_str, append_chars, escape_spec, escape_applescript,
    push_decimal, decimal, join_with, join_chars, trim, trim_spec};
use crate::pathing::{display_name, file_name};
use crate::types::{UserChoice, BatchChoice, ReadyDownload};

verus! {

/// The abstract value of a choice about one download.
pub enum ChoiceView {
    Ignore,
    MoveTo(Seq<char>),
    ChooseOther,
}

pub open spec fn user_choice_view(c: UserChoice) -> ChoiceView {
    match c {
        UserChoice::Ignore => ChoiceView::Ignore,
        UserChoice::MoveTo(p) => ChoiceView::MoveTo(p@),
        UserChoice::ChooseOther => ChoiceView::ChooseOther,
    }
}

/// The abstract value of a choice about a batch.
pub enum BatchChoiceView {
    IgnoreAll,
    MoveAllTo(Seq<char>),
    ChooseOtherAll,
    OneByOne,
}

pub open spec fn batch_choice_view(c: BatchChoice) -> BatchChoiceView {
    match c {
        BatchChoice::IgnoreAll => BatchChoiceView::IgnoreAll,
        BatchChoice::MoveAllTo(p) => BatchChoiceView::MoveAllTo(p@),
        BatchChoice::ChooseOtherAll => BatchChoiceView::ChooseOtherAll,
        BatchChoice::OneByOne => BatchChoiceView::OneByOne,
    }
}

pub open spec fn script_head() -> Seq<char> {
    "use scripting additions\nset resultButton to button returned of (display dialog \""@
}

/// A dialog with the given body and title, the buttons listed (already
/// quoted and separated), and a default button.
pub open spec fn dialog_script(body: Seq<char>, title: Seq<char>, buttons: Seq<char>, default_button: Seq<char>) -> Seq<char> {
    script_head() + escape_spec(body) + "\" with title \""@ + escape_spec(title) + "\" buttons {"@ + buttons
        + "} default button \""@ + default_button + "\" with icon note)\nreturn resultButton"@
}

/// The dialog about one new download.
pub open spec fn prompt_user_script(file_name: Seq<char>, domain: Seq<char>, suggestion: Option<Seq<char>>) -> Seq<char> {
    let title = "检测到新下载: "@ + file_name;
    match suggestion {
        Some(target) => {
            let name = display_name(target);
            let move_button = "移动到 "@ + name;
            let body = "来源: "@ + domain + "。根据你的习惯，建议移至 "@ + name + "。"@;
            dialog_script(body, title,
                "\"放着不管\", \"选择其他...\", \""@ + escape_spec(move_button) + "\""@,
                escape_spec(move_button))
        },
        None => {
            let body = "来源: "@ + domain + "。暂无历史建议，可以选择一个归档目录。"@;
            dialog_script(body, title, "\"放着不管\", \"选择其他...\""@, "选择其他..."@)
        },
    }
}

/// What an answer to the dialog about one download means.
pub open spec fn prompt_user_choice(answer: Seq<char>, suggestion: Option<Seq<char>>) -> ChoiceView {
    if answer == "放着不管"@ {
        ChoiceView::Ignore
    } else if answer == "选择其他..."@ {
        ChoiceView::ChooseOther
    } else {
        match suggestion {
            Some(target) => ChoiceView::MoveTo(target),
            None => ChoiceView::ChooseOther,
        }
    }
}

/// A dialog to show, and the suggestion its answers refer to.
pub struct UserPrompt {
    pub script: String,
    pub suggestion: Option<String>,
}

/// The dialog about one download, and how its answer is read.
pub fn prompt_user(file_name: &str, domain: &str, suggestion: Option<&(String, u64)>) -> (p: UserPrompt)
    ensures
        p.script@ == prompt_user_script(file_name@, domain@, match suggestion { Some(s) => Some(s.0@), None => None }),
        crate::pathing::opt_view(p.suggestion) == match suggestion { Some(s) => Some(s.0@), None => None::<Seq<char>> },
{
    let mut title = chars_of("检测到新下载: ");
    append_str(&mut title, file_name);
    let title_s = string_of(title.as_slice());
    let mut out = chars_of("use scripting additions\nset resultButton to button returned of (display dialog \"");
    match suggestion {
        Some(s) => {
            let name = file_name_text(s.0.as_str());
            let mut move_button = chars_of("移动到 ");
            append_str(&mut move_button, name.as_str());
            let move_s = string_of(move_button.as_slice());
            let mut body = chars_of("来源: ");
            append_str(&mut body, domain);
            append_str(&mut body, "。根据你的习惯，建议移至 ");
            append_str(&mut body, name.as_str());
            append_str(&mut body, "。");
            let body_s = string_of(body.as_slice());
            let esc_move = escape_applescript(move_s.as_str());
            append_str(&mut out, escape_applescript(body_s.as_str()).as_str());
            append_str(&mut out, "\" with title \"");
            append_str(&mut out, escape_applescript(title_s.as_str()).as_str());
            append_str(&mut out, "\" buttons {");
            append_str(&mut out, "\"放着不管\", \"选择其他...\", \"");
            append_str(&mut out, esc_move.as_str());
            append_str(&mut out, "\"");
            append_str(&mut out, "} default button \"");
            append_str(&mut out, esc_move.as_str());
            append_str(&mut out, "\" with icon note)\nreturn resultButton");
            UserPrompt { script: string_of(out.as_slice()), suggestion: Some(s.0.clone()) }
        },
        None => {
            let mut body = chars_of("来源: ");
            append_str(&mut body, domain);
            append_str(&mut body, "。暂无历史建议，可以选择一个归档目录。");
            let body_s = string_of(body.as_slice());
            append_str(&mut out, escape_applescript(body_s.as_str()).as_str());
            append_str(&mut out, "\" with title \"");
            append_str(&mut out, escape_applescript(title_s.as_str()).as_str());
            append_str(&mut out, "\" buttons {");
            append_str(&mut out, "\"放着不管\", \"选择其他...\"");
            append_str(&mut out, "} default button \"");
            append_str(&mut out, "选择其他...");
            append_str(&mut out, "\" with icon note)\nreturn resultButton");
            UserPrompt { script: string_of(out.as_slice()), suggestion: None }
        },
    }
}

fn file_name_text(path: &str) -> (r: String)
    ensures
        r@ == display_name(path@),
{
    file_name(path)
}

fn text_is(s: &str, lit: &str) -> (r: bool)
    ensures
        r == (s@ == lit@),
{
    crate::text::seq_eq(chars_of(s).as_slice(), chars_of(lit).as_slice())
}

impl UserPrompt {
    /// What the answer means.
    pub fn choice(&self, answer: &str) -> (c: UserChoice)
        ensures
            user_choice_view(c) == prompt_user_choice(answer@, crate::pathing::opt_view(self.suggestion)),
    {
        if text_is(answer, "放着不管") {
            UserChoice::Ignore
        } else if text_is(answer, "选择其他...") {
            UserChoice::ChooseOther
        } else {
            match &self.suggestion {
                Some(t) => UserChoice::MoveTo(t.clone()),
                None => UserChoice::ChooseOther,
            }
        }
    }
}

} // verus!

verus! {

/// The names of the first three downloads, joined with `、`.
pub open spec fn sample_names(names: Seq<Seq<char>>) -> Seq<char> {
    join_with(names.take(if names.len() < 3 { names.len() as int } else { 3 }), "、"@)
}

/// The buttons of the dialog about several downloads, as they stand in the
/// script: with a suggestion 放着不管, 选择其他... and the move button; without
/// one 放着不管, 逐个处理 and 选择其他....
pub open spec fn batch_buttons(suggestion: Option<Seq<char>>) -> Seq<Seq<char>> {
    match suggestion {
        Some(target) => seq!["放着不管"@, "选择其他..."@, escape_spec("全部移到 "@ + display_name(target))],
        None => seq!["放着不管"@, "逐个处理"@, "选择其他..."@],
    }
}

/// The default button of that dialog: the move button with a suggestion,
/// 选择其他... without one.
pub open spec fn batch_default_button(suggestion: Option<Seq<char>>) -> Seq<char> {
    match suggestion {
        Some(target) => escape_spec("全部移到 "@ + display_name(target)),
        None => "选择其他..."@,
    }
}

/// Buttons as an AppleScript list's items: each quoted, separated by `, `.
pub open spec fn button_list(buttons: Seq<Seq<char>>) -> Seq<char> {
    join_with(Seq::new(buttons.len(), |i: int| "\""@ + buttons[i] + "\""@), ", "@)
}

/// The dialog about several downloads from one source.
pub open spec fn prompt_batch_script(domain: Seq<char>, names: Seq<Seq<char>>, suggestion: Option<Seq<char>>) -> Seq<char> {
    let count = decimal(names.len());
    let sample = sample_names(names);
    let more = if names.len() > 3 { " 等"@ } else { Seq::<char>::empty() };
    let title = "检测到同源下载: "@ + domain + "（"@ + count + " 个）"@;
    let body = match suggestion {
        Some(target) => "来源: "@ + domain + "。共 "@ + count + " 个文件："@ + sample + more + "。建议统一移至 "@
            + display_name(target) + "。"@,
        None => "来源: "@ + domain + "。共 "@ + count + " 个文件："@ + sample + more + "。当前没有历史建议。"@,
    };
    dialog_script(body, title, button_list(batch_buttons(suggestion)), batch_default_button(suggestion))
}

proof fn lemma_button_list_three(a: Seq<char>, b: Seq<char>, c: Seq<char>)
    ensures
        button_list(seq![a, b, c]) == "\""@ + a + "\", \""@ + b + "\", \""@ + c + "\""@,
{
    reveal_strlit("\"");
    reveal_strlit(", ");
    reveal_strlit("\", \"");
    let q = Seq::new(3, |i: int| "\""@ + seq![a, b, c][i] + "\""@);
    assert(q.drop_last().drop_last() =~= seq![q[0]]);
    assert(q.drop_last().len() == 2);
    assert(join_with(q.drop_last(), ", "@) == join_with(q.drop_last().drop_last(), ", "@) + ", "@ + q.drop_last().last());
    assert("\""@ + a + "\", \""@ + b + "\", \""@ + c + "\""@
        =~= ("\""@ + a + "\""@) + ", "@ + ("\""@ + b + "\""@) + ", "@ + ("\""@ + c + "\""@));
}

/// The dialog about several downloads has at most three buttons, as
/// `display dialog` allows, and its default button is one of them: the move
/// button when there is a suggestion.
pub proof fn lemma_batch_dialog_buttons(suggestion: Option<Seq<char>>)
    ensures
        batch_buttons(suggestion).len() <= 3,
        batch_buttons(suggestion).contains(batch_default_button(suggestion)),
        suggestion is Some ==> batch_default_button(suggestion) == batch_buttons(suggestion).last(),
{
    let b = batch_buttons(suggestion);
    assert(b[b.len() - 1] == b.last());
    if suggestion is None {
        assert(b[2] == batch_default_button(suggestion));
    }
}

/// What an answer to the dialog about several downloads means.
pub open spec fn prompt_batch_choice(answer: Seq<char>, suggestion: Option<Seq<char>>) -> BatchChoiceView {
    if answer == "放着不管"@ {
        BatchChoiceView::IgnoreAll
    } else if answer == "逐个处理"@ {
        BatchChoiceView::OneByOne
    } else if answer == "选择其他..."@ {
        BatchChoiceView::ChooseOtherAll
    } else {
        match suggestion {
            Some(target) => BatchChoiceView::MoveAllTo(target),
            None => BatchChoiceView::ChooseOtherAll,
        }
    }
}

/// A dialog about a batch, and the suggestion its answers refer to.
pub struct BatchPrompt {
    pub script: String,
    pub suggestion: Option<String>,
}

pub open spec fn download_names(v: Seq<ReadyDownload>) -> Seq<Seq<char>> {
    Seq::new(v.len(), |i: int| v[i].file_name@)
}

/// The dialog about several downloads from `domain`, and how its answer is read.
pub fn prompt_batch_user(domain: &str, downloads: &Vec<ReadyDownload>, suggestion: Option<&(String, u64)>) -> (p: BatchPrompt)
    ensures
        p.script@ == prompt_batch_script(domain@, download_names(downloads@), match suggestion { Some(s) => Some(s.0@), None => None }),
        crate::pathing::opt_view(p.suggestion) == match suggestion { Some(s) => Some(s.0@), None => None::<Seq<char>> },
{
    let ghost names = download_names(downloads@);
    let count = downloads.len();
    let limit: usize = if count < 3 { count } else { 3 };
    let mut firsts: Vec<Vec<char>> = Vec::new();
    let mut i: usize = 0;
    while i < limit
        invariant
            i <= limit <= downloads@.len(),
            limit == (if downloads@.len() < 3 { downloads@.len() } else { 3 }),
            names == download_names(downloads@),
            firsts@.len() == i,
            forall|k: int| 0 <= k < i ==> (#[trigger] firsts@[k])@ == names[k],
        decreases limit - i,
    {
        firsts.push(chars_of(downloads[i].file_name.as_str()));
        i = i + 1;
    }
    assert(Seq::new(firsts@.len(), |k: int| firsts@[k]@) =~= names.take(limit as int));
    let sample = join_chars(&firsts, chars_of("、").as_slice());
    let mut count_text: Vec<char> = Vec::new();
    push_decimal(&mut count_text, count as u64);
    assert(count_text@ == decimal(names.len()));
    let mut title = chars_of("检测到同源下载: ");
    append_str(&mut title, domain);
    append_str(&mut title, "（");
    append_chars(&mut title, count_text.as_slice());
    append_str(&mut title, " 个）");
    let title_s = string_of(title.as_slice());
    let mut body = chars_of("来源: ");
    append_str(&mut body, domain);
    append_str(&mut body, "。共 ");
    append_chars(&mut body, count_text.as_slice());
    append_str(&mut body, " 个文件：");
    append_chars(&mut body, sample.as_slice());
    if count > 3 {
        append_str(&mut body, " 等");
    } else {
        assert(body@ + Seq::<char>::empty() == body@);
    }
    let mut out = chars_of("use scripting additions\nset resultButton to button returned of (display dialog \"");
    match suggestion {
        Some(s) => {
            let name = file_name_text(s.0.as_str());
            let mut move_button = chars_of("全部移到 ");
            append_str(&mut move_button, name.as_str());
            let move_s = string_of(move_button.as_slice());
            append_str(&mut body, "。建议统一移至 ");
            append_str(&mut body, name.as_str());
            append_str(&mut body, "。");
            let body_s = string_of(body.as_slice());
            let esc_move = escape_applescript(move_s.as_str());
            append_str(&mut out, escape_applescript(body_s.as_str()).as_str());
            append_str(&mut out, "\" with title \"");
            append_str(&mut out, escape_applescript(title_s.as_str()).as_str());
            append_str(&mut out, "\" buttons {");
            let mut buttons = chars_of("\"放着不管\", \"选择其他...\", \"");
            append_str(&mut buttons, esc_move.as_str());
            append_str(&mut buttons, "\"");
            proof {
                lemma_button_list_three("放着不管"@, "选择其他..."@, esc_move@);
                reveal_strlit("\"放着不管\", \"选择其他...\", \"");
                reveal_strlit("\"");
                reveal_strlit("放着不管");
                reveal_strlit("选择其他...");
                reveal_strlit("\", \"");
                assert(buttons@ =~= button_list(batch_buttons(Some(s.0@))));
            }
            let ghost head = out@;
            append_chars(&mut out, buttons.as_slice());
            append_str(&mut out, "} default button \"");
            append_str(&mut out, esc_move.as_str());
            append_str(&mut out, "\" with icon note)\nreturn resultButton");
            assert(out@ =~= head + button_list(batch_buttons(Some(s.0@))) + "} default button \""@
                + batch_default_button(Some(s.0@)) + "\" with icon note)\nreturn resultButton"@);
            proof {
                let sug = Some(s.0@);
                let count_s = decimal(names.len());
                let sample_s = sample_names(names);
                let more = if names.len() > 3 { " 等"@ } else { Seq::<char>::empty() };
                let title_spec = "检测到同源下载: "@ + domain@ + "（"@ + count_s + " 个）"@;
                let body_spec = "来源: "@ + domain@ + "。共 "@ + count_s + " 个文件："@ + sample_s + more + "。建议统一移至 "@
                    + display_name(s.0@) + "。"@;
                assert(title_s@ == title_spec);
                assert(body_s@ =~= body_spec);
                assert(head =~= script_head() + escape_spec(body_spec) + "\" with title \""@ + escape_spec(title_spec) + "\" buttons {"@);
                assert(out@ =~= dialog_script(body_spec, title_spec, button_list(batch_buttons(sug)), batch_default_button(sug)));
            }
            BatchPrompt { script: string_of(out.as_slice()), suggestion: Some(s.0.clone()) }
        },
        None => {
            append_str(&mut body, "。当前没有历史建议。");
            let body_s = string_of(body.as_slice());
            append_str(&mut out, escape_applescript(body_s.as_str()).as_str());
            append_str(&mut out, "\" with title \"");
            append_str(&mut out, escape_applescript(title_s.as_str()).as_str());
            append_str(&mut out, "\" buttons {");
            proof {
                lemma_button_list_three("放着不管"@, "逐个处理"@, "选择其他..."@);
                reveal_strlit("\"放着不管\", \"逐个处理\", \"选择其他...\"");
                reveal_strlit("\"");
                reveal_strlit("放着不管");
                reveal_strlit("逐个处理");
                reveal_strlit("选择其他...");
                reveal_strlit("\", \"");
                assert("\"放着不管\", \"逐个处理\", \"选择其他...\""@ =~= button_list(batch_buttons(None)));
            }
            append_str(&mut out, "\"放着不管\", \"逐个处理\", \"选择其他...\"");
            append_str(&mut out, "} default button \"");
            append_str(&mut out, "选择其他...");
            append_str(&mut out, "\" with icon note)\nreturn resultButton");
            BatchPrompt { script: string_of(out.as_slice()), suggestion: None }
        },
    }
}

impl BatchPrompt {
    /// What the answer means.
    pub fn choice(&self, answer: &str) -> (c: BatchChoice)
        ensures
            batch_choice_view(c) == prompt_batch_choice(answer@, crate::pathing::opt_view(self.suggestion)),
    {
        if text_is(answer, "放着不管") {
            BatchChoice::IgnoreAll
        } else if text_is(answer, "逐个处理") {
            BatchChoice::OneByOne
        } else if text_is(answer, "选择其他...") {
            BatchChoice::ChooseOtherAll
        } else {
            match &self.suggestion {
                Some(t) => BatchChoice::MoveAllTo(t.clone()),
                None => BatchChoice::ChooseOtherAll,
            }
        }
    }
}

/// The script of a folder picker with the given prompt.
pub open spec fn folder_script(prompt: Seq<char>) -> Seq<char> {
    "use scripting additions\nset selectedPath to POSIX path of (choose folder with prompt \""@ + escape_spec(prompt)
        + "\")\nreturn selectedPath"@
}

/// A folder picker to show.
pub struct FolderPrompt {
    pub script: String,
}

fn folder_prompt(prompt: Vec<char>) -> (p: FolderPrompt)
    ensures
        p.script@ == folder_script(prompt@),
{
    let prompt_s = string_of(prompt.as_slice());
    let mut out = chars_of("use scripting additions\nset selectedPath to POSIX path of (choose folder with prompt \"");
    append_str(&mut out, escape_applescript(prompt_s.as_str()).as_str());
    append_str(&mut out, "\")\nreturn selectedPath");
    FolderPrompt { script: string_of(out.as_slice()) }
}

/// The folder picker for one download.
pub fn choose_folder(file_name: &str) -> (p: FolderPrompt)
    ensures
        p.script@ == folder_script("选择「"@ + file_name@ + "」的归档目录"@),
{
    let mut prompt = chars_of("选择「");
    append_str(&mut prompt, file_name);
    append_str(&mut prompt, "」的归档目录");
    folder_prompt(prompt)
}

/// The folder picker for `count` downloads from `domain`.
pub fn choose_batch_folder(domain: &str, count: usize) -> (p: FolderPrompt)
    ensures
        p.script@ == folder_script("为 "@ + domain@ + " 的 "@ + decimal(count as nat) + " 个文件选择目标目录"@),
{
    let mut prompt = chars_of("为 ");
    append_str(&mut prompt, domain);
    append_str(&mut prompt, " 的 ");
    push_decimal(&mut prompt, count as u64);
    append_str(&mut prompt, " 个文件选择目标目录");
    folder_prompt(prompt)
}

impl FolderPrompt {
    /// The folder that the picker's output names: the output without
    /// surrounding white space.
    pub fn folder(&self, output: &str) -> (r: String)
        ensures
            r@ == trim_spec(output@),
    {
        trim(output)
    }
}

/// What the summary panel does after its dialog.
#[derive(PartialEq, Eq, Structural, Clone, Copy, Debug)]
pub enum PanelAction {
    OpenMemoryFile,
    CopySummary,
    Exit,
}

/// The script of the summary panel; the summary is passed as its argument.
pub fn native_panel_script() -> (r: String)
    ensures
        r@ == "use scripting additions\non run argv\nset msg to item 1 of argv\nset resultButton to button returned of (display dialog msg with title \"Download Cleaner 管理\" buttons {\"退出\", \"打开记忆库文件\", \"复制摘要\"} default button \"复制摘要\" with icon note)\nreturn resultButton\nend run"@,
{
    string_of(chars_of("use scripting additions\non run argv\nset msg to item 1 of argv\nset resultButton to button returned of (display dialog msg with title \"Download Cleaner 管理\" buttons {\"退出\", \"打开记忆库文件\", \"复制摘要\"} default button \"复制摘要\" with icon note)\nreturn resultButton\nend run").as_slice())
}

/// What an answer to the summary panel asks for.
pub fn native_panel_action(answer: &str) -> (r: PanelAction)
    ensures
        r == (if answer@ == "打开记忆库文件"@ { PanelAction::OpenMemoryFile }
            else if answer@ == "复制摘要"@ { PanelAction::CopySummary }
            else { PanelAction::Exit }),
{
    if text_is(answer, "打开记忆库文件") {
        PanelAction::OpenMemoryFile
    } else if text_is(answer, "复制摘要") {
        PanelAction::CopySummary
    } else {
        PanelAction::Exit
    }
}

/// The script that puts `text` on the clipboard.
pub fn clipboard_script(text: &str) -> (r: String)
    ensures
        r@ == "use scripting additions\nset the clipboard to \""@ + escape_spec(text@) + "\""@,
{
    let mut out = chars_of("use scripting additions\nset the clipboard to \"");
    append_str(&mut out, escape_applescript(text).as_str());
    append_str(&mut out, "\"");
    string_of(out.as_slice())
}

/// What a finished `osascript` run yields: its output without surrounding
/// white space when it succeeded, else `osascript 失败: ` and its error
/// output without surrounding white space.
pub fn osascript_result(success: bool, stdout: &str, stderr: &str) -> (r: Result<String, String>)
    ensures
        match r {
            Ok(out) => success && out@ == trim_spec(stdout@),
            Err(msg) => !success && msg@ == "osascript 失败: "@ + trim_spec(stderr@),
        },
{
    if success {
        return Ok(trim(stdout));
    }
    let mut msg = chars_of("osascript 失败: ");
    append_str(&mut msg, trim(stderr).as_str());
    Err(string_of(msg.as_slice()))
}

} // verus!

