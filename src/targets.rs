//! What mutating commands act on, and names read out of resource ids.

use vstd::prelude::*;
use crate::glob::is_wildcard;
use crate::text::{after_first_slash, chars_of, find_char, first_index_of, head_segment, lemma_first_index_bound, substring};
use crate::uri::{has_slash, parse_azure_uri, parse_uri_spec, UriError};

verus! {

/// Why a removal target was refused.
#[derive(Debug, PartialEq, Eq, Structural, Clone, Copy)]
pub enum RemovalError {
    /// The address does not resolve.
    Address(UriError),
    /// The address names an account but no container.
    NoContainer,
    /// The address names a whole container, which `rm` does not remove.
    WholeContainer,
}

/// Whether `s` holds a wildcard character.
pub open spec fn has_wildcard(s: Seq<char>) -> bool {
    exists|i: int| 0 <= i < s.len() && is_wildcard(#[trigger] s[i])
}

/// A removal needs an object path inside a container; it is recursive when
/// asked to be or when the address holds a wildcard.
pub open spec fn removal_spec(path: Seq<char>, recursive: bool) -> Result<bool, RemovalError> {
    match parse_uri_spec(path) {
        Err(e) => Err(RemovalError::Address(e)),
        Ok((_, container, blob)) => if container.len() == 0 {
            Err(RemovalError::NoContainer)
        } else if blob is None {
            Err(RemovalError::WholeContainer)
        } else {
            Ok(recursive || has_wildcard(path))
        },
    }
}

/// Checks that an address names objects that `rm` may remove, and says
/// whether the removal is recursive.
pub fn plan_removal(path: &str, recursive: bool) -> (r: Result<bool, RemovalError>)
    ensures
        r == removal_spec(path@, recursive),
{
    match parse_azure_uri(path) {
        Err(e) => Err(RemovalError::Address(e)),
        Ok((_, container, blob)) => {
            if container.unicode_len() == 0 {
                return Err(RemovalError::NoContainer);
            }
            if blob.is_none() {
                return Err(RemovalError::WholeContainer);
            }
            let cs = chars_of(path);
            let mut i: usize = 0;
            assert(removal_spec(path@, recursive) == Ok::<bool, RemovalError>(recursive || has_wildcard(path@)));
            while i < cs.len()
                invariant
                    removal_spec(path@, recursive) == Ok::<bool, RemovalError>(recursive || has_wildcard(path@)),
                    cs@ == path@,
                    i <= cs@.len(),
                    forall|j: int| 0 <= j < i ==> !is_wildcard(#[trigger] cs@[j]),
                decreases cs@.len() - i,
            {
                if cs[i] == '*' || cs[i] == '?' {
                    proof {
                        assert(is_wildcard(path@[i as int]));
                    }
                    return Ok(true);
                }
                i = i + 1;
            }
            Ok(recursive)
        },
    }
}

/// The `k`-th (from 0) piece of `s` split on `/`, if there are that many.
pub open spec fn nth_piece(s: Seq<char>, k: nat) -> Option<Seq<char>>
    decreases k,
{
    if k == 0 {
        Some(head_segment(s))
    } else if has_slash(s) {
        nth_piece(after_first_slash(s), (k - 1) as nat)
    } else {
        None
    }
}

/// The resource group named in a resource id
/// `/subscriptions/{id}/resourceGroups/{group}/...`: its fifth `/`-piece, or
/// nothing when it has fewer.
pub open spec fn resource_group_spec(id: Seq<char>) -> Seq<char> {
    match nth_piece(id, 4) {
        Some(g) => g,
        None => Seq::empty(),
    }
}

/// Reads the resource group out of a resource id (empty when it has none).
pub fn resource_group_of(id: &str) -> (r: String)
    ensures
        r@ == resource_group_spec(id@),
{
    let cs = chars_of(id);
    let n = cs.len();
    let mut pos: usize = 0;
    let mut k: usize = 0;
    assert(cs@.skip(0) =~= cs@);
    loop
        invariant
            cs@ == id@,
            n == cs@.len(),
            pos <= n,
            k <= 4,
            nth_piece(id@, 4) == nth_piece(cs@.skip(pos as int), (4 - k) as nat),
        decreases 4 - k,
    {
        let q = find_char(&cs, pos, '/');
        let ghost t = cs@.skip(pos as int);
        proof {
            lemma_first_index_bound(t, '/');
            assert(head_segment(t) =~= cs@.subrange(pos as int, q as int));
        }
        if k == 4 {
            return substring(id, pos, q);
        }
        if q == n {
            return String::new();
        }
        proof {
            assert(after_first_slash(t) =~= cs@.skip(q + 1));
        }
        pos = q + 1;
        k = k + 1;
    }
}

} // verus!
