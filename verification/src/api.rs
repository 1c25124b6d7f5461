use vstd::prelude::*;
use vstd::string::StringExecFns;
use crate::strutil::{parent_dir, parent_of_path, str_starts_with, trim_both_char, trim_end_char,
    trimmed_both, trimmed_end};

verus! {

/// One subsystem known to the remote service.
pub struct SystemInfo {
    pub id: i32,
    pub name: String,
}

/// The remote manifest's locator for one language: a path prefix (or a
/// full URL) and the file names to fetch under it.
pub struct FileGroup {
    pub path_prefix: String,
    pub language_code: String,
    pub file_names: Vec<String>,
}

/// The URL one translation file is downloaded from: the group's prefix
/// when it is already a full URL, else the host followed by the
/// prefix; extra slashes at the joins are dropped either way.
pub fn download_url(host: &str, file_group: &FileGroup, file_name: &str) -> (r: String)
    ensures
        ("http://"@.is_prefix_of(file_group.path_prefix@) || "https://"@.is_prefix_of(
            file_group.path_prefix@,
        )) ==> r@ == trimmed_end(file_group.path_prefix@, '/') + seq!['/'] + file_name@,
        !("http://"@.is_prefix_of(file_group.path_prefix@) || "https://"@.is_prefix_of(
            file_group.path_prefix@,
        )) ==> r@ == trimmed_end(host@, '/') + seq!['/'] + trimmed_both(
            file_group.path_prefix@,
            '/',
        ) + seq!['/'] + file_name@,
{
    let prefix = file_group.path_prefix.as_str();
    if str_starts_with(prefix, "http://") || str_starts_with(prefix, "https://") {
        let mut out = trim_end_char(prefix, '/');
        out.append("/");
        out.append(file_name);
        proof {
            reveal_strlit("/");
            assert(out@ =~= trimmed_end(file_group.path_prefix@, '/') + seq!['/'] + file_name@);
        }
        out
    } else {
        let mut out = trim_end_char(host, '/');
        out.append("/");
        let mid = trim_both_char(prefix, '/');
        out.append(mid.as_str());
        out.append("/");
        out.append(file_name);
        proof {
            reveal_strlit("/");
            assert(out@ =~= trimmed_end(host@, '/') + seq!['/'] + trimmed_both(
                file_group.path_prefix@,
                '/',
            ) + seq!['/'] + file_name@);
        }
        out
    }
}

/// The remote path a delta is uploaded under: the configured path
/// prefix followed by the directory part of the file's relative path.
pub fn upload_terms_path(path_prefix: &str, relative_path: &str) -> (r: String)
    ensures
        r@ == path_prefix@ + seq!['/'] + parent_dir(relative_path@),
{
    let parent = parent_of_path(relative_path);
    let mut out = String::from_str(path_prefix);
    out.append("/");
    out.append(parent.as_str());
    proof {
        reveal_strlit("/");
        assert(out@ =~= path_prefix@ + seq!['/'] + parent_dir(relative_path@));
    }
    out
}

} // verus!
