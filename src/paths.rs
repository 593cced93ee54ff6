//! File names, parents and normal forms of local paths and object addresses.

use vstd::prelude::*;
use crate::uri::{is_azure_uri, opt_view, parse_azure_uri, parse_uri_spec, scheme};
use crate::text::{chars_of, starts_with, substring};

verus! {

/// What `std::path::Path::file_name` gives for a path: its last normal
/// component, if it has one.
pub uninterp spec fn path_file_name(s: Seq<char>) -> Option<Seq<char>>;

/// What `std::path::Path::parent` gives for a path: the path without its
/// last component, if it has one.
pub uninterp spec fn path_parent(s: Seq<char>) -> Option<Seq<char>>;

/// Relies on `std::path::Path::file_name`, read back as UTF-8 (lossless for a
/// path made from a `&str`).
#[verifier::external_body]
fn file_name_of(s: &str) -> (r: Option<String>)
    ensures
        opt_view(r) == path_file_name(s@),
{
    match std::path::Path::new(s).file_name() {
        Some(n) => Some(n.to_string_lossy().into_owned()),
        None => None,
    }
}

/// Relies on `std::path::Path::parent`, read back as UTF-8 (lossless for a
/// path made from a `&str`).
#[verifier::external_body]
fn parent_of(s: &str) -> (r: Option<String>)
    ensures
        opt_view(r) == path_parent(s@),
{
    match std::path::Path::new(s).parent() {
        Some(p) => Some(p.to_string_lossy().into_owned()),
        None => None,
    }
}

/// `s` without its trailing `/`s.
pub open spec fn trim_trailing_slashes(s: Seq<char>) -> Seq<char>
    decreases s.len(),
{
    if s.len() > 0 && s.last() == '/' {
        trim_trailing_slashes(s.drop_last())
    } else {
        s
    }
}

/// `"/"` stays as it is; any other path loses its trailing `/`s.
pub open spec fn normalize_path_spec(s: Seq<char>) -> Seq<char> {
    if s == seq!['/'] {
        s
    } else {
        trim_trailing_slashes(s)
    }
}

/// The file name of a path, or the path itself when it has none.
pub open spec fn file_name_or_self(s: Seq<char>) -> Seq<char> {
    match path_file_name(s) {
        Some(n) => n,
        None => s,
    }
}

/// For an address, the file name of its object path (empty when it has no
/// path or does not resolve); for a local path, its file name; in both cases
/// the whole path where it has no file name.
pub open spec fn filename_spec(path: Seq<char>) -> Seq<char> {
    if starts_with(path, scheme()) {
        match parse_uri_spec(path) {
            Ok((_, _, Some(blob))) => file_name_or_self(blob),
            _ => Seq::empty(),
        }
    } else {
        file_name_or_self(path)
    }
}

/// Removes trailing slashes, except from the root path `/`.
pub fn normalize_path(path: &str) -> (r: String)
    ensures
        r@ == normalize_path_spec(path@),
{
    let cs = chars_of(path);
    if cs.len() == 1 && cs[0] == '/' {
        assert(path@ =~= seq!['/']);
        return String::from_str(path);
    }
    let mut k: usize = cs.len();
    assert(cs@.take(k as int) =~= cs@);
    while k > 0 && cs[k - 1] == '/'
        invariant
            cs@ == path@,
            k <= cs@.len(),
            trim_trailing_slashes(cs@.take(k as int)) == trim_trailing_slashes(path@),
        decreases k,
    {
        assert(cs@.take(k as int).drop_last() =~= cs@.take(k - 1));
        k = k - 1;
    }
    proof {
        if path@ == seq!['/'] {
            assert(cs@.len() == 1 && cs@[0] == '/');
        }
    }
    substring(path, 0, k)
}

/// The parent directory of a local path, if it has one.
pub fn get_parent_dir(path: &str) -> (r: Option<String>)
    ensures
        opt_view(r) == path_parent(path@),
{
    parent_of(path)
}

/// The last component of a local path or of an address's object path.
pub fn get_filename(path: &str) -> (r: String)
    ensures
        r@ == filename_spec(path@),
{
    if is_azure_uri(path) {
        match parse_azure_uri(path) {
            Ok((_, _, Some(blob_path))) => match file_name_of(blob_path.as_str()) {
                Some(n) => n,
                None => blob_path,
            },
            _ => String::new(),
        }
    } else {
        match file_name_of(path) {
            Some(n) => n,
            None => String::from_str(path),
        }
    }
}

} // verus!
