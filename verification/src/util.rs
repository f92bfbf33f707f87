//! Paths and diffs.

use vstd::prelude::*;
use vstd::string::*;

verus! {

/// A path with a file name added: a separator goes between the two unless the
/// path is empty or ends in one.
pub open spec fn joined_path(dir: Seq<char>, file: Seq<char>) -> Seq<char> {
    if dir.len() == 0 || dir.last() == '/' {
        dir + file
    } else {
        dir + seq!['/'] + file
    }
}

/// The manifest that `path` stands for: `path` itself where it names a file,
/// else the `Cargo.toml` in the directory it names.
pub open spec fn spec_manifest_path_of(path: Seq<char>, is_file: bool) -> Seq<char> {
    if is_file {
        path
    } else {
        joined_path(path, "Cargo.toml"@)
    }
}

/// The path of the manifest that `path` stands for. `is_file` says whether
/// `path` names an existing file.
pub fn manifest_path_of(path: &str, is_file: bool) -> (r: String)
    ensures
        r@ == spec_manifest_path_of(path@, is_file),
{
    if is_file {
        return path.to_owned();
    }
    let n = path.unicode_len();
    let mut r = path.to_owned();
    if n > 0 && path.get_char(n - 1) != '/' {
        proof {
            reveal_strlit("/");
        }
        r.append("/");
    }
    r.append("Cargo.toml");
    r
}

/// The unified diff between two texts, taken line by line.
pub uninterp spec fn unified_diff(before: Seq<char>, after: Seq<char>) -> Seq<char>;

/// The longest text that can be diffed, in bytes.
pub const MAX_DIFF_BYTES: usize = 0x7fff_fffe;

/// `imara_diff::diff` with the histogram algorithm and a
/// `UnifiedDiffBuilder`: the unified diff that turns `a` into `b`. It depends
/// on the two texts alone. Texts of `i32::MAX` lines or more are not taken.
#[verifier::external_body]
pub fn diff(a: &str, b: &str) -> (r: String)
    requires
        a.spec_bytes().len() <= MAX_DIFF_BYTES,
        b.spec_bytes().len() <= MAX_DIFF_BYTES,
    ensures
        r@ == unified_diff(a@, b@),
{
    let input = imara_diff::intern::InternedInput::new(a, b);
    let sink = imara_diff::UnifiedDiffBuilder::new(&input);
    imara_diff::diff(imara_diff::Algorithm::Histogram, &input, sink)
}

} // verus!
