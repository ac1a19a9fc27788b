//! Which files the cleaner leaves alone, and where a moved file lands.
use vstd::prelude::*;
use crate::text::{chars_of, string_of, to_lowercase, lowercase, ends_with, ends_with_chars,
    append_chars, push_decimal, decimal};
use crate::pathing::{path_file_name, file_name_of, path_join, join_path, path_file_stem,
    path_extension, stem_and_extension, expand_home, expand_home_spec, same_path, same_path_spec};

verus! {

/// The name endings of files that are still being downloaded.
pub open spec fn temp_suffixes() -> Seq<Seq<char>> {
    seq![".crdownload"@, ".part"@, ".download"@, ".tmp"@, ".opdownload"@]
}

pub open spec fn has_temp_suffix(lower: Seq<char>) -> bool {
    exists|i: int| 0 <= i < temp_suffixes().len() && ends_with(lower, #[trigger] temp_suffixes()[i])
}

/// A path is left alone when it has no file name, when the name is hidden
/// (starts with `.`), or when its lowercased name ends with a suffix of an
/// unfinished download.
pub open spec fn should_ignore_spec(path: Seq<char>) -> bool {
    match path_file_name(path) {
        None => true,
        Some(name) => (name.len() > 0 && name[0] == '.') || has_temp_suffix(lowercase(name)),
    }
}

/// Whether the cleaner leaves this path alone.
pub fn should_ignore_path(path: &str) -> (r: bool)
    ensures
        r == should_ignore_spec(path@),
{
    let name = match file_name_of(path) {
        None => return true,
        Some(n) => n,
    };
    let chars = chars_of(name.as_str());
    if chars.len() > 0 && chars[0] == '.' {
        return true;
    }
    let lower = to_lowercase(name.as_str());
    has_temp_ending(lower.as_str())
}

/// Whether a lowercased name ends with a suffix of an unfinished download.
pub fn has_temp_ending(lower: &str) -> (r: bool)
    ensures
        r == has_temp_suffix(lower@),
{
    let lower = chars_of(lower);
    let ghost sfx = temp_suffixes();
    let a = ends_with_chars(lower.as_slice(), chars_of(".crdownload").as_slice());
    let b = ends_with_chars(lower.as_slice(), chars_of(".part").as_slice());
    let c = ends_with_chars(lower.as_slice(), chars_of(".download").as_slice());
    let d = ends_with_chars(lower.as_slice(), chars_of(".tmp").as_slice());
    let e = ends_with_chars(lower.as_slice(), chars_of(".opdownload").as_slice());
    proof {
        assert(sfx[0] == ".crdownload"@);
        assert(sfx[1] == ".part"@);
        assert(sfx[2] == ".download"@);
        assert(sfx[3] == ".tmp"@);
        assert(sfx[4] == ".opdownload"@);
        if has_temp_suffix(lower@) {
            let i = choose|i: int| 0 <= i < sfx.len() && ends_with(lower@, #[trigger] sfx[i]);
            assert(i == 0 || i == 1 || i == 2 || i == 3 || i == 4);
        }
    }
    a || b || c || d || e
}

/// The extension as it is written after the stem in a new name: `.ext`, or
/// nothing when the name has none.
pub open spec fn dotted_extension(name: Seq<char>) -> Seq<char> {
    match path_extension(name) {
        Some(ext) => seq!['.'] + ext,
        None => Seq::empty(),
    }
}

/// The stem of a name, or the whole name when it has none.
pub open spec fn stem_or_name(name: Seq<char>) -> Seq<char> {
    match path_file_stem(name) {
        Some(stem) => stem,
        None => name,
    }
}

/// The `attempt`-th place tried for `file_name` in `target_dir`: first the
/// name itself, then `stem 2.ext`, `stem 3.ext`, and so on.
pub open spec fn destination_candidate_spec(target_dir: Seq<char>, file_name: Seq<char>, attempt: nat) -> Seq<char> {
    if attempt == 0 {
        path_join(target_dir, file_name)
    } else {
        path_join(target_dir, stem_or_name(file_name) + " "@ + decimal(attempt + 1) + dotted_extension(file_name))
    }
}

/// The `attempt`-th place tried for a file moved into `target_dir`; the
/// caller takes the first one that does not exist yet.
pub fn destination_candidate(target_dir: &str, file_name: &str, attempt: u64) -> (r: String)
    requires
        attempt < 0x7fff_ffff,
    ensures
        r@ == destination_candidate_spec(target_dir@, file_name@, attempt as nat),
{
    if attempt == 0 {
        return join_path(target_dir, file_name);
    }
    let (stem, ext) = stem_and_extension(file_name);
    let mut name = match stem {
        Some(s) => chars_of(s.as_str()),
        None => chars_of(file_name),
    };
    append_chars(&mut name, chars_of(" ").as_slice());
    push_decimal(&mut name, attempt + 1);
    match ext {
        Some(e) => {
            let mut dotted: Vec<char> = Vec::new();
            dotted.push('.');
            append_chars(&mut dotted, chars_of(e.as_str()).as_slice());
            assert(dotted@ == seq!['.'] + e@);
            append_chars(&mut name, dotted.as_slice());
        },
        None => {
            assert(name@ + Seq::<char>::empty() == name@);
        },
    }
    let name_s = string_of(name.as_slice());
    join_path(target_dir, name_s.as_str())
}

/// Whether an OS error code is the one for a move across file systems (`EXDEV`).
pub fn is_cross_device_error(raw_os_error: Option<i32>) -> (r: bool)
    ensures
        r == (raw_os_error == Some(18i32)),
{
    match raw_os_error {
        Some(code) => code == 18,
        None => false,
    }
}

/// Where a file chosen for `target_dir` goes: the folder with a leading `~`
/// taken as `home`, or `None` when that is the downloads folder itself and
/// the file stays where it is.
pub fn move_target(target_dir: &str, home: &str, downloads_dir: &str) -> (r: Option<String>)
    ensures
        match r {
            Some(t) => t@ == expand_home_spec(target_dir@, home@) && !same_path_spec(t@, downloads_dir@),
            None => same_path_spec(expand_home_spec(target_dir@, home@), downloads_dir@),
        },
{
    let target = expand_home(target_dir, home);
    if same_path(target.as_str(), downloads_dir) {
        return None;
    }
    Some(target)
}

} // verus!

