//! Parsing of `az://` addresses into account, container and path.

use vstd::prelude::*;
use crate::text::{
    after_first_slash, chars_of, find_char, first_index_of, has_char, head_segment,
    lemma_first_index_at, lemma_first_index_bound, starts_with, substring,
};

verus! {

/// Why an address could not be resolved.
#[derive(Debug, PartialEq, Eq, Structural, Clone, Copy)]
pub enum UriError {
    /// The address does not begin with `az://`.
    MissingScheme,
    /// Nothing names an account or a container after the scheme.
    MissingName,
    /// An account is given without a container (but with a path, or where a
    /// container is needed).
    MissingContainer,
}

/// The scheme prefix `az://`.
pub open spec fn scheme() -> Seq<char> {
    seq!['a', 'z', ':', '/', '/']
}

/// Characters allowed in a storage-account name.
pub open spec fn is_account_char(c: char) -> bool {
    ('a' <= c && c <= 'z') || ('0' <= c && c <= '9')
}

/// 3 to 24 characters, each a lowercase ASCII letter or a digit.
pub open spec fn is_account_name_spec(s: Seq<char>) -> bool {
    3 <= s.len() <= 24 && forall|i: int| 0 <= i < s.len() ==> is_account_char(#[trigger] s[i])
}

pub open spec fn nonempty(s: Seq<char>) -> Option<Seq<char>> {
    if s.len() > 0 {
        Some(s)
    } else {
        None
    }
}

pub open spec fn has_slash(s: Seq<char>) -> bool {
    first_index_of(s, '/') < s.len()
}

/// Resolved parts of an address: account, container and path, as character sequences.
pub type UriModel = (Option<Seq<char>>, Seq<char>, Option<Seq<char>>);

/// The resolution of an address.
///
/// After the scheme, the first `/`-delimited segment is an account when it
/// looks like one; then the next segment is the container and the remainder,
/// if non-empty, the path. Otherwise the first segment is the container and all
/// that follows its `/`, if non-empty, the path. An account with an empty
/// container may not be followed by a path (`az://account//x`).
pub open spec fn parse_uri_spec(uri: Seq<char>) -> Result<UriModel, UriError> {
    if !starts_with(uri, scheme()) {
        Err(UriError::MissingScheme)
    } else {
        let rest = uri.skip(5);
        let first = head_segment(rest);
        if first.len() == 0 {
            Err(UriError::MissingName)
        } else if is_account_name_spec(first) {
            if !has_slash(rest) {
                Ok((Some(first), Seq::empty(), None))
            } else {
                let tail = after_first_slash(rest);
                let path = if has_slash(tail) {
                    nonempty(after_first_slash(tail))
                } else {
                    None
                };
                if head_segment(tail).len() == 0 && path is Some {
                    Err(UriError::MissingContainer)
                } else {
                    Ok((Some(first), head_segment(tail), path))
                }
            }
        } else {
            let path = if has_slash(rest) {
                nonempty(after_first_slash(rest))
            } else {
                None
            };
            Ok((None, first, path))
        }
    }
}

pub open spec fn opt_view(o: Option<String>) -> Option<Seq<char>> {
    match o {
        Some(s) => Some(s@),
        None => None,
    }
}

pub open spec fn parts_view(p: (Option<String>, String, Option<String>)) -> UriModel {
    (opt_view(p.0), p.1@, opt_view(p.2))
}

/// Whether `s` looks like a storage-account name: 3 to 24 characters, all
/// lowercase ASCII letters or digits.
pub fn is_storage_account_name(s: &str) -> (r: bool)
    ensures
        r == is_account_name_spec(s@),
{
    let cs = chars_of(s);
    if cs.len() < 3 || cs.len() > 24 {
        return false;
    }
    let mut i: usize = 0;
    while i < cs.len()
        invariant
            cs@ == s@,
            i <= cs@.len(),
            forall|j: int| 0 <= j < i ==> is_account_char(#[trigger] cs@[j]),
        decreases cs@.len() - i,
    {
        let c = cs[i];
        if !(('a' <= c && c <= 'z') || ('0' <= c && c <= '9')) {
            return false;
        }
        i = i + 1;
    }
    true
}

fn has_scheme(cs: &Vec<char>) -> (r: bool)
    ensures
        r == starts_with(cs@, scheme()),
{
    if cs.len() < 5 {
        return false;
    }
    let r = cs[0] == 'a' && cs[1] == 'z' && cs[2] == ':' && cs[3] == '/' && cs[4] == '/';
    proof {
        if r {
            assert(cs@.take(5) =~= scheme());
        } else {
            if cs@.take(5) == scheme() {
                assert(cs@.take(5)[0] == 'a');
                assert(cs@.take(5)[1] == 'z');
                assert(cs@.take(5)[2] == ':');
                assert(cs@.take(5)[3] == '/');
                assert(cs@.take(5)[4] == '/');
            }
        }
    }
    r
}

/// Whether `path` is an object-store address, i.e. begins with `az://`.
pub fn is_azure_uri(path: &str) -> (r: bool)
    ensures
        r == starts_with(path@, scheme()),
{
    let cs = chars_of(path);
    has_scheme(&cs)
}

/// Resolves an address `az://account/container/path` or `az://container/path`
/// into (account, container, path).
///
/// A lone account (`az://account` or `az://account/`) resolves to an empty
/// container, meaning "every container of the account".
pub fn parse_azure_uri(uri: &str) -> (r: Result<(Option<String>, String, Option<String>), UriError>)
    ensures
        match r {
            Ok(p) => parse_uri_spec(uri@) == Ok::<UriModel, UriError>(parts_view(p)),
            Err(e) => parse_uri_spec(uri@) == Err::<UriModel, UriError>(e),
        },
{
    let cs = chars_of(uri);
    if !has_scheme(&cs) {
        return Err(UriError::MissingScheme);
    }
    let n = cs.len();
    let ghost rest = uri@.skip(5);
    let i1 = find_char(&cs, 5, '/');
    proof {
        lemma_first_index_bound(rest, '/');
        assert(head_segment(rest) =~= uri@.subrange(5, i1 as int));
    }
    if i1 == 5 {
        return Err(UriError::MissingName);
    }
    let first = substring(uri, 5, i1);
    let is_account = is_storage_account_name(first.as_str());
    if is_account {
        if i1 == n {
            return Ok((Some(first), String::new(), None));
        }
        let ghost tail = after_first_slash(rest);
        let i2 = find_char(&cs, i1 + 1, '/');
        proof {
            assert(tail =~= uri@.skip(i1 + 1));
            lemma_first_index_bound(tail, '/');
            assert(head_segment(tail) =~= uri@.subrange(i1 + 1, i2 as int));
        }
        let container = substring(uri, i1 + 1, i2);
        let path = if i2 < n && i2 + 1 < n {
            proof {
                assert(after_first_slash(tail) =~= uri@.subrange(i2 + 1, n as int));
            }
            Some(substring(uri, i2 + 1, n))
        } else {
            proof {
                if i2 < n {
                    assert(after_first_slash(tail).len() == 0);
                }
            }
            None
        };
        if container.unicode_len() == 0 && path.is_some() {
            return Err(UriError::MissingContainer);
        }
        Ok((Some(first), container, path))
    } else {
        let path = if i1 < n && i1 + 1 < n {
            proof {
                assert(after_first_slash(rest) =~= uri@.subrange(i1 + 1, n as int));
            }
            Some(substring(uri, i1 + 1, n))
        } else {
            proof {
                if i1 < n {
                    assert(after_first_slash(rest).len() == 0);
                }
            }
            None
        };
        Ok((None, first, path))
    }
}

/// The address text for (account, container, path): the inverse of resolution.
pub open spec fn uri_text(a: Option<Seq<char>>, c: Seq<char>, p: Option<Seq<char>>) -> Seq<char> {
    let body = match a {
        Some(acc) => if c.len() == 0 && p is None {
            acc
        } else {
            acc + seq!['/'] + c
        },
        None => c,
    };
    match p {
        Some(q) => scheme() + body + seq!['/'] + q,
        None => scheme() + body,
    }
}

/// The parts that resolution gives back unchanged: an account that looks like
/// one, or else a container that does not; a container without `/`; a
/// non-empty path, and only after a non-empty container.
pub open spec fn well_formed_parts(a: Option<Seq<char>>, c: Seq<char>, p: Option<Seq<char>>) -> bool {
    &&& !has_char(c, '/')
    &&& (p matches Some(q) ==> q.len() > 0)
    &&& (c.len() > 0 || p is None)
    &&& match a {
        Some(acc) => is_account_name_spec(acc),
        None => c.len() > 0 && !is_account_name_spec(c),
    }
}

proof fn lemma_split_at_slash(x: Seq<char>, y: Seq<char>)
    requires
        !has_char(x, '/'),
    ensures
        first_index_of(x + seq!['/'] + y, '/') == x.len(),
        head_segment(x + seq!['/'] + y) == x,
        after_first_slash(x + seq!['/'] + y) == y,
        has_slash(x + seq!['/'] + y),
{
    let s = x + seq!['/'] + y;
    assert forall|j: int| 0 <= j < x.len() implies s[j] != '/' by {
        assert(s[j] == x[j]);
    }
    lemma_first_index_at(s, '/', x.len() as int);
    assert(s.take(x.len() as int) =~= x);
    assert(s.skip(x.len() + 1 as int) =~= y);
}

proof fn lemma_no_slash(x: Seq<char>)
    requires
        !has_char(x, '/'),
    ensures
        first_index_of(x, '/') == x.len(),
        head_segment(x) == x,
        !has_slash(x),
{
    lemma_first_index_at(x, '/', x.len() as int);
    assert(x.take(x.len() as int) =~= x);
}

proof fn lemma_account_has_no_slash(a: Seq<char>)
    requires
        is_account_name_spec(a),
    ensures
        !has_char(a, '/'),
{
    assert forall|i: int| 0 <= i < a.len() implies a[i] != '/' by {
        assert(is_account_char(a[i]));
    }
}

/// Resolving the text of well-formed parts gives those parts back, the
/// account-without-container form included.
pub proof fn lemma_parse_format_round_trip(a: Option<Seq<char>>, c: Seq<char>, p: Option<Seq<char>>)
    requires
        well_formed_parts(a, c, p),
    ensures
        parse_uri_spec(uri_text(a, c, p)) == Ok::<UriModel, UriError>((a, c, p)),
{
    let t = uri_text(a, c, p);
    let body = match a {
        Some(acc) => if c.len() == 0 && p is None {
            acc
        } else {
            acc + seq!['/'] + c
        },
        None => c,
    };
    let rest = match p {
        Some(q) => body + seq!['/'] + q,
        None => body,
    };
    assert(t =~= scheme() + rest);
    assert(t.take(5) =~= scheme());
    assert(t.skip(5) =~= rest);
    match a {
        Some(acc) => {
            lemma_account_has_no_slash(acc);
            if c.len() == 0 && p is None {
                lemma_no_slash(acc);
                assert(c =~= Seq::<char>::empty());
            } else {
                match p {
                    Some(q) => {
                        assert(rest =~= acc + seq!['/'] + (c + seq!['/'] + q));
                        lemma_split_at_slash(acc, c + seq!['/'] + q);
                        lemma_split_at_slash(c, q);
                    },
                    None => {
                        lemma_split_at_slash(acc, c);
                        lemma_no_slash(c);
                    },
                }
            }
        },
        None => {
            match p {
                Some(q) => {
                    lemma_split_at_slash(c, q);
                },
                None => {
                    lemma_no_slash(c);
                },
            }
        },
    }
}

/// Writes the address of (account, container, path); see `uri_text`.
pub fn format_azure_uri(account: Option<&str>, container: &str, path: Option<&str>) -> (r: String)
    ensures
        r@ == uri_text(
            match account {
                Some(a) => Some(a@),
                None => None,
            },
            container@,
            match path {
                Some(q) => Some(q@),
                None => None,
            },
        ),
{
    proof {
        reveal_strlit("az://");
        reveal_strlit("/");
    }
    let mut r = String::from_str("az://");
    match account {
        Some(a) => {
            r.append(a);
            if container.unicode_len() > 0 || path.is_some() {
                r.append("/");
                r.append(container);
            }
        },
        None => {
            r.append(container);
        },
    }
    match path {
        Some(q) => {
            r.append("/");
            r.append(q);
        },
        None => {},
    }
    r
}

/// The HTTPS endpoint of an `az://account/container[/path]` address:
/// `https://account.blob.core.windows.net/container[/path]`.
pub open spec fn blob_url_spec(uri: Seq<char>) -> Result<Seq<char>, UriError> {
    if !starts_with(uri, scheme()) {
        Err(UriError::MissingScheme)
    } else {
        let rest = uri.skip(5);
        if !has_slash(rest) {
            Err(UriError::MissingContainer)
        } else {
            Ok(https_prefix() + head_segment(rest) + blob_host_suffix() + after_first_slash(rest))
        }
    }
}

pub open spec fn https_prefix() -> Seq<char> {
    seq!['h', 't', 't', 'p', 's', ':', '/', '/']
}

pub open spec fn blob_host_suffix() -> Seq<char> {
    ".blob.core.windows.net/"@
}

/// Turns `az://account/container[/path]` into the account's HTTPS blob endpoint URL.
pub fn convert_az_uri_to_url(az_uri: &str) -> (r: Result<String, UriError>)
    ensures
        match r {
            Ok(u) => blob_url_spec(az_uri@) == Ok::<Seq<char>, UriError>(u@),
            Err(e) => blob_url_spec(az_uri@) == Err::<Seq<char>, UriError>(e),
        },
{
    let cs = chars_of(az_uri);
    if !has_scheme(&cs) {
        return Err(UriError::MissingScheme);
    }
    let n = cs.len();
    let ghost rest = az_uri@.skip(5);
    let i1 = find_char(&cs, 5, '/');
    proof {
        lemma_first_index_bound(rest, '/');
        assert(head_segment(rest) =~= az_uri@.subrange(5, i1 as int));
    }
    if i1 == n {
        return Err(UriError::MissingContainer);
    }
    proof {
        assert(after_first_slash(rest) =~= az_uri@.subrange(i1 + 1, n as int));
        reveal_strlit("https://");
    }
    let mut url = String::from_str("https://");
    let account = substring(az_uri, 5, i1);
    url.append(account.as_str());
    url.append(".blob.core.windows.net/");
    let tail = substring(az_uri, i1 + 1, n);
    url.append(tail.as_str());
    proof {
        assert(url@ =~= https_prefix() + head_segment(rest) + blob_host_suffix() + after_first_slash(rest));
    }
    Ok(url)
}

} // verus!
