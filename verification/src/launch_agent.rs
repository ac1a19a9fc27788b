//! The LaunchAgent that keeps the watcher running: its label, its property
//! list, and what to ask `launchctl` to do.
use vstd::prelude::*;
use crate::text::{chars_of, string_of, append_str, push_decimal, decimal, trim, trim_spec};
use crate::config::{parse_u64, parse_u64_spec};

verus! {

/// The label of the LaunchAgent.
pub open spec fn label() -> Seq<char> {
    "com.yy.download-cleaner"@
}

/// The name of the LaunchAgent's service for the user `uid`.
pub fn service_name(uid: u32) -> (r: String)
    ensures
        r@ == "gui/"@ + decimal(uid as nat) + "/"@ + label(),
{
    let mut out = chars_of("gui/");
    push_decimal(&mut out, uid as u64);
    append_str(&mut out, "/");
    append_str(&mut out, "com.yy.download-cleaner");
    string_of(out.as_slice())
}

/// The domain of the user `uid`'s graphical session.
pub fn gui_domain(uid: u32) -> (r: String)
    ensures
        r@ == "gui/"@ + decimal(uid as nat),
{
    let mut out = chars_of("gui/");
    push_decimal(&mut out, uid as u64);
    string_of(out.as_slice())
}

/// `c` escaped for XML text.
pub open spec fn xml_escape_char(c: char) -> Seq<char> {
    if c == '&' {
        "&amp;"@
    } else if c == '<' {
        "&lt;"@
    } else if c == '>' {
        "&gt;"@
    } else if c == '"' {
        "&quot;"@
    } else if c == '\'' {
        "&apos;"@
    } else {
        seq![c]
    }
}

/// `s` escaped for XML text: `&`, `<`, `>`, `"` and `'` become entities.
pub open spec fn xml_escape_spec(s: Seq<char>) -> Seq<char>
    decreases s.len(),
{
    if s.len() == 0 {
        Seq::empty()
    } else {
        xml_escape_spec(s.drop_last()) + xml_escape_char(s.last())
    }
}

/// `s` escaped for XML text.
pub fn xml_escape(s: &str) -> (r: String)
    ensures
        r@ == xml_escape_spec(s@),
{
    let cs = chars_of(s);
    let mut out: Vec<char> = Vec::new();
    let mut i: usize = 0;
    assert(cs@.take(0) =~= Seq::<char>::empty());
    while i < cs.len()
        invariant
            i <= cs@.len(),
            out@ == xml_escape_spec(cs@.take(i as int)),
        decreases cs.len() - i,
    {
        let c = cs[i];
        assert(cs@.take(i as int + 1).drop_last() == cs@.take(i as int));
        assert(cs@.take(i as int + 1).last() == c);
        if c == '&' {
            append_str(&mut out, "&amp;");
        } else if c == '<' {
            append_str(&mut out, "&lt;");
        } else if c == '>' {
            append_str(&mut out, "&gt;");
        } else if c == '"' {
            append_str(&mut out, "&quot;");
        } else if c == '\'' {
            append_str(&mut out, "&apos;");
        } else {
            out.push(c);
        }
        i = i + 1;
    }
    assert(cs@.take(cs@.len() as int) == cs@);
    string_of(out.as_slice())
}

/// Escaped text holds no `<`, `>`, `"` or `'`, and every `&` starts an entity.
pub proof fn lemma_xml_escape_safe(s: Seq<char>)
    ensures
        forall|i: int| 0 <= i < xml_escape_spec(s).len() ==> {
            let c = #[trigger] xml_escape_spec(s)[i];
            c != '<' && c != '>' && c != '"' && c != '\''
        },
    decreases s.len(),
{
    if s.len() > 0 {
        lemma_xml_escape_safe(s.drop_last());
        let a = xml_escape_spec(s.drop_last());
        let b = xml_escape_char(s.last());
        reveal_strlit("&amp;");
        reveal_strlit("&lt;");
        reveal_strlit("&gt;");
        reveal_strlit("&quot;");
        reveal_strlit("&apos;");
        assert forall|i: int| 0 <= i < (a + b).len() implies {
            let c = #[trigger] (a + b)[i];
            c != '<' && c != '>' && c != '"' && c != '\''
        } by {
            if i < a.len() {
                assert((a + b)[i] == a[i]);
            } else {
                assert((a + b)[i] == b[i - a.len()]);
            }
        }
    }
}

pub open spec fn plist_head() -> Seq<char> {
    "<?xml version=\"1.0\" encoding=\"UTF-8\"?>\n<!DOCTYPE plist PUBLIC \"-//Apple//DTD PLIST 1.0//EN\" \"http://www.apple.com/DTDs/PropertyList-1.0.dtd\">\n<plist version=\"1.0\">\n<dict>\n  <key>Label</key>\n  <string>com.yy.download-cleaner</string>\n  <key>ProgramArguments</key>\n  <array>\n    <string>"@
}

pub open spec fn plist_tail() -> Seq<char> {
    "</string>\n  </array>\n  <key>RunAtLoad</key>\n  <true/>\n  <key>KeepAlive</key>\n  <true/>\n  <key>StandardOutPath</key>\n  <string>/tmp/download-cleaner.out.log</string>\n  <key>StandardErrorPath</key>\n  <string>/tmp/download-cleaner.err.log</string>\n  <key>EnvironmentVariables</key>\n  <dict>\n    <key>PATH</key>\n    <string>/opt/homebrew/bin:/usr/local/bin:/usr/bin:/bin:/usr/sbin:/sbin</string>\n  </dict>\n</dict>\n</plist>\n"@
}

/// The LaunchAgent's property list for the watcher binary at `daemon_binary`.
pub fn render_plist(daemon_binary: &str) -> (r: String)
    ensures
        r@ == plist_head() + xml_escape_spec(daemon_binary@) + plist_tail(),
{
    let mut out = chars_of("<?xml version=\"1.0\" encoding=\"UTF-8\"?>\n<!DOCTYPE plist PUBLIC \"-//Apple//DTD PLIST 1.0//EN\" \"http://www.apple.com/DTDs/PropertyList-1.0.dtd\">\n<plist version=\"1.0\">\n<dict>\n  <key>Label</key>\n  <string>com.yy.download-cleaner</string>\n  <key>ProgramArguments</key>\n  <array>\n    <string>");
    append_str(&mut out, xml_escape(daemon_binary).as_str());
    append_str(&mut out, "</string>\n  </array>\n  <key>RunAtLoad</key>\n  <true/>\n  <key>KeepAlive</key>\n  <true/>\n  <key>StandardOutPath</key>\n  <string>/tmp/download-cleaner.out.log</string>\n  <key>StandardErrorPath</key>\n  <string>/tmp/download-cleaner.err.log</string>\n  <key>EnvironmentVariables</key>\n  <dict>\n    <key>PATH</key>\n    <string>/opt/homebrew/bin:/usr/local/bin:/usr/bin:/bin:/usr/sbin:/sbin</string>\n  </dict>\n</dict>\n</plist>\n");
    string_of(out.as_slice())
}

/// The file name of the LaunchAgent's property list.
pub fn plist_file_name() -> (r: String)
    ensures
        r@ == label() + ".plist"@,
{
    let mut out = chars_of("com.yy.download-cleaner");
    append_str(&mut out, ".plist");
    string_of(out.as_slice())
}

/// What `str::parse::<u32>` gives.
pub open spec fn parse_u32_spec(s: Seq<char>) -> Option<u32> {
    match parse_u64_spec(s) {
        Some(n) => if n <= u32::MAX { Some(n as u32) } else { None },
        None => None,
    }
}

/// The user id printed by `id -u`: its output without surrounding white
/// space, read as a number.
pub fn parse_uid(output: &str) -> (r: Option<u32>)
    ensures
        r == parse_u32_spec(trim_spec(output@)),
{
    let t = trim(output);
    match parse_u64(t.as_str()) {
        Some(n) => if n <= 0xffff_ffff { Some(n as u32) } else { None },
        None => None,
    }
}

/// What to do with the LaunchAgent when the panel starts.
#[derive(PartialEq, Eq, Structural, Clone, Copy, Debug)]
pub enum InstallPlan {
    /// Unload the running service, load the new property list, and restart it.
    Reload,
    /// Load the property list and start the service.
    Start,
    /// Leave it as it is.
    Nothing,
}

/// The plan: a running service whose property list changed is reloaded; a
/// service that is not running and had no property list before is started.
pub fn install_plan(loaded: bool, needs_write: bool, existed_before: bool) -> (r: InstallPlan)
    ensures
        r == (if loaded && needs_write { InstallPlan::Reload }
            else if !loaded && !existed_before { InstallPlan::Start }
            else { InstallPlan::Nothing }),
{
    if loaded && needs_write {
        InstallPlan::Reload
    } else if !loaded && !existed_before {
        InstallPlan::Start
    } else {
        InstallPlan::Nothing
    }
}

/// Whether the property list must be written: when it could not be read, or
/// when it differs from the one wanted.
pub fn plist_needs_write(existing: Option<&str>, wanted: &str) -> (r: bool)
    ensures
        r == match existing { Some(e) => e@ != wanted@, None => true },
{
    match existing {
        Some(e) => !crate::text::seq_eq(chars_of(e).as_slice(), chars_of(wanted).as_slice()),
        None => true,
    }
}

} // verus!

verus! {

/// Why a change to the monitoring service did not take.
#[derive(PartialEq, Eq, Structural, Clone, Copy, Debug)]
pub enum MonitorError {
    /// The service still runs after it was booted out.
    StillRunning,
    /// The service does not run after it was bootstrapped and kicked.
    NotStarted,
}

impl MonitorError {
    /// The message shown for the error.
    pub fn message(&self) -> (r: String)
        ensures
            r@ == match *self {
                MonitorError::StillRunning => "监控仍在运行"@,
                MonitorError::NotStarted => "监控未成功启动"@,
            },
    {
        match self {
            MonitorError::StillRunning => string_of(chars_of("监控仍在运行").as_slice()),
            MonitorError::NotStarted => string_of(chars_of("监控未成功启动").as_slice()),
        }
    }
}

/// The outcome of stopping the service, from whether it still runs after
/// `launchctl bootout`: stopping fails exactly when it still runs.
pub fn stop_monitoring(still_running: bool) -> (r: Result<(), MonitorError>)
    ensures
        r == (if still_running { Err::<(), MonitorError>(MonitorError::StillRunning) } else { Ok(()) }),
{
    if still_running {
        return Err(MonitorError::StillRunning);
    }
    Ok(())
}

/// The outcome of restarting the service, from whether it runs after it was
/// bootstrapped and kicked: restarting fails exactly when it does not run.
pub fn restart_monitoring(running: bool) -> (r: Result<(), MonitorError>)
    ensures
        r == (if running { Ok(()) } else { Err::<(), MonitorError>(MonitorError::NotStarted) }),
{
    if !running {
        return Err(MonitorError::NotStarted);
    }
    Ok(())
}

} // verus!
