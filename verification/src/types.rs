//! The values that pass between the watcher, the prompts and the panels.
use vstd::prelude::*;

verus! {

/// Where downloads are watched and choices remembered, and the timings used.
#[derive(Clone, Debug)]
pub struct AppConfig {
    pub downloads_dir: String,
    pub memory_path: String,
    /// How long a file must stay unchanged before it counts as complete, in milliseconds.
    pub complete_delay_ms: u64,
    /// How long downloads from one source are gathered into one prompt, in milliseconds.
    pub batch_window_ms: u64,
    /// Whether files already present at start are offered too.
    pub scan_existing: bool,
}

/// What identifies one state of a file: its path, size and modification time.
pub struct FileSignature {
    pub path: String,
    pub size: u64,
    pub modified_ms: u128,
}

/// A finished download waiting for the user's decision.
pub struct ReadyDownload {
    pub path: String,
    pub file_name: String,
    pub domain: String,
    pub modified_ms: u128,
}

/// The answer to a prompt about one download.
pub enum UserChoice {
    Ignore,
    MoveTo(String),
    ChooseOther,
}

/// The answer to a prompt about several downloads from one source.
pub enum BatchChoice {
    IgnoreAll,
    MoveAllTo(String),
    ChooseOtherAll,
    OneByOne,
}

/// The abstract value of a signature.
pub open spec fn signature_view(s: FileSignature) -> (Seq<char>, u64, u128) {
    (s.path@, s.size, s.modified_ms)
}

/// The abstract value of a ready download.
pub open spec fn download_view(d: ReadyDownload) -> (Seq<char>, Seq<char>, Seq<char>, u128) {
    (d.path@, d.file_name@, d.domain@, d.modified_ms)
}

impl FileSignature {
    /// A copy of this signature.
    pub fn copy(&self) -> (r: FileSignature)
        ensures
            signature_view(r) == signature_view(*self),
    {
        FileSignature { path: self.path.clone(), size: self.size, modified_ms: self.modified_ms }
    }
}

impl ReadyDownload {
    /// A copy of this download.
    pub fn copy(&self) -> (r: ReadyDownload)
        ensures
            download_view(r) == download_view(*self),
    {
        ReadyDownload {
            path: self.path.clone(),
            file_name: self.file_name.clone(),
            domain: self.domain.clone(),
            modified_ms: self.modified_ms,
        }
    }
}

} // verus!
