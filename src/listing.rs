//! Listing entries and the decisions that turn a (possibly wildcarded) path
//! into a provider request and a visible entry set.

use vstd::prelude::*;
use crate::glob::{
    contains_recursive_wildcard, count_segments, glob_match, has_double_star, matches_pattern,
    pattern_depth, pattern_depth_spec, segment_count, split_wildcard_path, split_wildcard_spec,
};
use crate::text::{
    after_first_slash, chars_of, find_char, first_index_of, has_char, has_prefix, head_segment,
    join, lemma_first_index_bound, starts_with, substring,
};
use crate::uri::{nonempty, opt_view};

verus! {

/// Size, modification time and content type of a blob.
#[derive(Debug, Clone)]
pub struct BlobProperties {
    pub content_length: u64,
    pub last_modified: String,
    pub content_type: Option<String>,
}

/// A named object together with its properties.
#[derive(Debug, Clone)]
pub struct BlobInfo {
    pub name: String,
    pub properties: BlobProperties,
}

/// One listing entry: a blob, or a virtual directory whose name ends in `/`.
#[derive(Debug, Clone)]
pub enum BlobItem {
    Blob(BlobInfo),
    Prefix(String),
}

/// The name an entry is listed under.
pub open spec fn item_name(it: BlobItem) -> Seq<char> {
    match it {
        BlobItem::Blob(b) => b.name@,
        BlobItem::Prefix(p) => p@,
    }
}

/// A key with the listing prefix taken off, when it begins with it.
pub open spec fn rel_name(name: Seq<char>, prefix: Option<Seq<char>>) -> Seq<char> {
    match prefix {
        Some(p) => if starts_with(name, p) {
            name.skip(p.len() as int)
        } else {
            name
        },
        None => name,
    }
}

/// The first `d` segments of `s`, joined by `/`, followed by `/`.
pub open spec fn prefix_at_depth(s: Seq<char>, d: nat) -> Seq<char>
    decreases d,
{
    if d == 0 {
        Seq::empty()
    } else if first_index_of(s, '/') < s.len() {
        head_segment(s) + seq!['/'] + prefix_at_depth(after_first_slash(s), (d - 1) as nat)
    } else {
        s + seq!['/']
    }
}

/// Whether a key is short enough for the working buffers its processing needs.
pub open spec fn addressable(s: Seq<char>) -> bool {
    s.len() + 2 < usize::MAX
}

fn copy_opt_string(o: &Option<String>) -> (r: Option<String>)
    ensures
        r == *o,
{
    match o {
        Some(s) => Some(s.clone()),
        None => None,
    }
}

impl BlobItem {
    /// The name this entry is listed under.
    pub fn name(&self) -> (r: &String)
        ensures
            r@ == item_name(*self),
    {
        match self {
            BlobItem::Blob(b) => &b.name,
            BlobItem::Prefix(p) => p,
        }
    }

    /// A field-for-field copy of this entry.
    pub fn duplicate(&self) -> (r: BlobItem)
        ensures
            r == *self,
    {
        match self {
            BlobItem::Blob(b) => BlobItem::Blob(
                BlobInfo {
                    name: b.name.clone(),
                    properties: BlobProperties {
                        content_length: b.properties.content_length,
                        last_modified: b.properties.last_modified.clone(),
                        content_type: copy_opt_string(&b.properties.content_type),
                    },
                },
            ),
            BlobItem::Prefix(p) => BlobItem::Prefix(p.clone()),
        }
    }
}

/// `name` relative to the listing prefix (unchanged when it does not begin with it).
pub fn relative_name(name: &str, prefix: &Option<String>) -> (r: String)
    ensures
        r@ == rel_name(name@, opt_view(*prefix)),
{
    match prefix {
        Some(p) => {
            let cs = chars_of(name);
            let ps = chars_of(p.as_str());
            if has_prefix(&cs, &ps) {
                substring(name, ps.len(), cs.len())
            } else {
                String::from_str(name)
            }
        },
        None => String::from_str(name),
    }
}

/// The first `d` segments of `s` joined by `/`, with a `/` after them.
pub fn truncate_to_depth(s: &str, d: usize) -> (r: String)
    ensures
        r@ == prefix_at_depth(s@, d as nat),
{
    let cs = chars_of(s);
    let n = cs.len();
    let mut pos: usize = 0;
    let mut k: usize = 0;
    assert(cs@.skip(0) =~= cs@);
    assert(cs@.take(0) =~= Seq::<char>::empty());
    while k < d
        invariant
            cs@ == s@,
            n == cs@.len(),
            pos <= n,
            k <= d,
            cs@.take(pos as int) + prefix_at_depth(cs@.skip(pos as int), (d - k) as nat)
                == prefix_at_depth(s@, d as nat),
        decreases d - k,
    {
        let q = find_char(&cs, pos, '/');
        let ghost t = cs@.skip(pos as int);
        proof {
            lemma_first_index_bound(t, '/');
        }
        if q == n {
            proof {
                assert(cs@.take(pos as int) + t =~= s@);
            }
            let whole = String::from_str(s);
            proof {
                reveal_strlit("/");
            }
            return join(whole.as_str(), "/");
        }
        proof {
            assert(head_segment(t) =~= cs@.subrange(pos as int, q as int));
            assert(after_first_slash(t) =~= cs@.skip(q + 1));
            assert(cs@.take(pos as int) + (head_segment(t) + seq!['/']) =~= cs@.take(q + 1));
            assert(cs@.take(pos as int) + (head_segment(t) + seq!['/'] + prefix_at_depth(cs@.skip(q + 1), (d - k - 1) as nat))
                =~= cs@.take(q + 1) + prefix_at_depth(cs@.skip(q + 1), (d - k - 1) as nat));
        }
        pos = q + 1;
        k = k + 1;
    }
    proof {
        assert(cs@.take(pos as int) + Seq::<char>::empty() =~= cs@.take(pos as int));
    }
    substring(s, 0, pos)
}

/// How the entries of a listing reach the caller.
#[derive(Debug, Clone, Copy, PartialEq, Eq, Structural)]
pub enum ListingMode {
    /// No pattern: the provider's pages go to the caller as they come.
    Stream,
    /// A pattern that spans segments, in a non-recursive listing: the flat
    /// enumeration is folded into virtual directories this many segments
    /// deep. When the flag is set (a pattern naming directories), only keys
    /// lying below such a directory count, so a blob never becomes one.
    Reconstruct(usize, bool),
    /// Every entry is kept or dropped by matching its relative name.
    Filter,
}

/// What a listing asks of the provider and how it treats what comes back.
#[derive(Debug, Clone)]
pub struct ListingPlan {
    /// The prefix handed to the provider.
    pub list_prefix: Option<String>,
    /// The glob pattern that entries are held against, relative to `list_prefix`.
    pub pattern: Option<String>,
    /// Whether the pattern alone rules out a one-level (delimited) listing.
    pub force_recursive: bool,
    /// Whether the provider is asked to group keys at the next `/`.
    pub use_delimiter: bool,
    pub mode: ListingMode,
}

pub open spec fn str_opt_view(o: Option<&str>) -> Option<Seq<char>> {
    match o {
        Some(s) => Some(s@),
        None => None,
    }
}

pub open spec fn ends_with_slash(g: Seq<char>) -> bool {
    g.len() > 0 && g.last() == '/'
}

/// A pattern that ends in `/` gets a `*`, so that it matches what lies directly
/// inside the directories it names.
pub open spec fn completed_pattern(g: Seq<char>) -> Seq<char> {
    if ends_with_slash(g) {
        g.push('*')
    } else {
        g
    }
}

/// A pattern with `**` or with a `/` cannot be served by a one-level listing.
pub open spec fn spans_segments(g: Seq<char>) -> bool {
    has_double_star(g) || has_char(g, '/')
}

/// The depth at which directories are rebuilt for pattern `g`: the segments of
/// the completed pattern, less the `*` that completion added.
pub open spec fn reconstruct_depth(g: Seq<char>) -> nat {
    if ends_with_slash(g) {
        (segment_count(completed_pattern(g)) - 1) as nat
    } else {
        segment_count(g)
    }
}

pub open spec fn plan_prefix(path: Option<Seq<char>>) -> Option<Seq<char>> {
    match path {
        None => None,
        Some(s) => match split_wildcard_spec(s) {
            None => Some(s),
            Some((lit, _)) => nonempty(lit),
        },
    }
}

pub open spec fn plan_pattern(path: Option<Seq<char>>) -> Option<Seq<char>> {
    match path {
        None => None,
        Some(s) => match split_wildcard_spec(s) {
            None => None,
            Some((_, g)) => Some(completed_pattern(g)),
        },
    }
}

pub open spec fn plan_force(path: Option<Seq<char>>) -> bool {
    match path {
        None => false,
        Some(s) => match split_wildcard_spec(s) {
            None => false,
            Some((_, g)) => spans_segments(g),
        },
    }
}

/// The provider groups at `/` unless recursion was asked for or the pattern forces it.
pub open spec fn plan_uses_delimiter(path: Option<Seq<char>>, recursive: bool) -> bool {
    !(recursive || plan_force(path))
}

pub open spec fn plan_mode(path: Option<Seq<char>>, recursive: bool) -> ListingMode {
    match plan_pattern(path) {
        None => ListingMode::Stream,
        Some(glob) => if pattern_depth_spec(glob) is Some && plan_force(path) && !recursive {
            match path {
                Some(s) => match split_wildcard_spec(s) {
                    Some((_, g)) => ListingMode::Reconstruct(reconstruct_depth(g) as usize, ends_with_slash(g)),
                    None => ListingMode::Filter,
                },
                None => ListingMode::Filter,
            }
        } else {
            ListingMode::Filter
        },
    }
}

proof fn lemma_segment_count_positive(s: Seq<char>)
    ensures
        segment_count(s) >= 1,
        has_char(s, '/') ==> segment_count(s) >= 2,
    decreases s.len(),
{
    lemma_first_index_bound(s, '/');
    crate::text::lemma_has_char_first_index(s, '/');
    if first_index_of(s, '/') < s.len() {
        lemma_segment_count_positive(after_first_slash(s));
    }
}

proof fn lemma_completed_keeps_stars(g: Seq<char>)
    ensures
        has_double_star(completed_pattern(g)) == has_double_star(g),
{
    if ends_with_slash(g) {
        let c = g.push('*');
        if has_double_star(c) {
            let i = choose|i: int| 0 <= i && i + 1 < c.len() && c[i] == '*' && #[trigger] c[i + 1] == '*';
            assert(i + 1 < g.len());
            assert(g[i] == '*' && g[i + 1] == '*');
        }
        if has_double_star(g) {
            let i = choose|i: int| 0 <= i && i + 1 < g.len() && g[i] == '*' && #[trigger] g[i + 1] == '*';
            assert(c[i] == '*' && c[i + 1] == '*');
        }
    }
}

fn contains_slash(s: &str) -> (r: bool)
    ensures
        r == has_char(s@, '/'),
{
    let cs = chars_of(s);
    let q = find_char(&cs, 0, '/');
    proof {
        assert(cs@.skip(0) =~= cs@);
        lemma_first_index_bound(cs@, '/');
        crate::text::lemma_has_char_first_index(cs@, '/');
    }
    q < cs.len()
}

fn last_is_slash(s: &str) -> (r: bool)
    ensures
        r == ends_with_slash(s@),
{
    let n = s.unicode_len();
    n > 0 && s.get_char(n - 1) == '/'
}

/// Decides, for a path that may hold wildcards and the caller's recursive
/// flag, the prefix to list under, the pattern to apply, whether the provider
/// groups at `/`, and how entries are selected.
pub fn plan_listing(path: Option<&str>, recursive: bool) -> (r: ListingPlan)
    requires
        path matches Some(s) ==> s@.len() + 1 < usize::MAX,
    ensures
        opt_view(r.list_prefix) == plan_prefix(str_opt_view(path)),
        opt_view(r.pattern) == plan_pattern(str_opt_view(path)),
        r.force_recursive == plan_force(str_opt_view(path)),
        r.use_delimiter == plan_uses_delimiter(str_opt_view(path), recursive),
        r.mode == plan_mode(str_opt_view(path), recursive),
{
    match path {
        None => ListingPlan {
            list_prefix: None,
            pattern: None,
            force_recursive: false,
            use_delimiter: !recursive,
            mode: ListingMode::Stream,
        },
        Some(s) => match split_wildcard_path(s) {
            None => ListingPlan {
                list_prefix: Some(String::from_str(s)),
                pattern: None,
                force_recursive: false,
                use_delimiter: !recursive,
                mode: ListingMode::Stream,
            },
            Some((lit, g)) => {
                proof {
                    lemma_completed_keeps_stars(g@);
                    lemma_segment_count_positive(completed_pattern(g@));
                    assert(g@.len() <= s@.len());
                }
                let force = contains_recursive_wildcard(g.as_str()) || contains_slash(g.as_str());
                let dir = last_is_slash(g.as_str());
                let glob = if dir {
                    proof {
                        reveal_strlit("*");
                        assert(has_char(completed_pattern(g@), '/')) by {
                            assert(completed_pattern(g@)[g@.len() - 1] == '/');
                        }
                    }
                    let joined = join(g.as_str(), "*");
                    assert(joined@ =~= completed_pattern(g@));
                    joined
                } else {
                    g
                };
                assert(glob@ == completed_pattern(g@));
                let depth = pattern_depth(glob.as_str());
                let mode = match depth {
                    Some(d) => if force && !recursive {
                        if dir {
                            ListingMode::Reconstruct(d - 1, true)
                        } else {
                            ListingMode::Reconstruct(d, false)
                        }
                    } else {
                        ListingMode::Filter
                    },
                    None => ListingMode::Filter,
                };
                let list_prefix = if lit.unicode_len() == 0 {
                    None
                } else {
                    Some(lit)
                };
                ListingPlan {
                    list_prefix,
                    pattern: Some(glob),
                    force_recursive: force,
                    use_delimiter: !(recursive || force),
                    mode,
                }
            },
        },
    }
}

/// Whether an entry's name, relative to the listing prefix, matches `g`.
pub open spec fn entry_matches(it: BlobItem, lp: Option<Seq<char>>, g: Seq<char>) -> bool {
    glob_match(rel_name(item_name(it), lp), g)
}

pub open spec fn matches_pred(lp: Option<Seq<char>>, g: Seq<char>) -> spec_fn(BlobItem) -> bool {
    |it: BlobItem| entry_matches(it, lp, g)
}

/// The fewest segments a key needs to be folded at depth `d`: `d`, or `d + 1`
/// when it must lie below the directory it is folded into.
pub open spec fn min_segments(d: nat, below: bool) -> nat {
    if below {
        d + 1
    } else {
        d
    }
}

/// `t` is the directory, `d` segments deep, that relative key `rel` lies in
/// (strictly below it when `below`), and it matches `g`.
pub open spec fn depth_candidate(rel: Seq<char>, d: nat, below: bool, g: Seq<char>, t: Seq<char>) -> bool {
    &&& segment_count(rel) >= min_segments(d, below)
    &&& t == prefix_at_depth(rel, d)
    &&& glob_match(t, g)
}

/// The relative directories that a flat enumeration folds into at depth `d`.
pub open spec fn rebuilt_dirs(items: Seq<BlobItem>, lp: Option<Seq<char>>, g: Seq<char>, d: nat, below: bool) -> Set<
    Seq<char>,
> {
    Set::new(
        |t: Seq<char>|
            exists|k: int| 0 <= k < items.len() && depth_candidate(rel_name(item_name(#[trigger] items[k]), lp), d, below, g, t),
    )
}

pub open spec fn literal(lp: Option<Seq<char>>) -> Seq<char> {
    match lp {
        Some(p) => p,
        None => Seq::empty(),
    }
}

/// `it` is the virtual directory `lp` joined with some member of `dirs`.
pub open spec fn names_member(it: BlobItem, lp: Option<Seq<char>>, dirs: Set<Seq<char>>) -> bool {
    exists|t: Seq<char>| dirs.contains(t) && item_name(it) == literal(lp) + t
}

/// `out` lists, once each and as virtual directories, the prefix `lp` joined
/// with each member of `dirs`.
pub open spec fn lists_dirs(out: Seq<BlobItem>, lp: Option<Seq<char>>, dirs: Set<Seq<char>>) -> bool {
    &&& forall|k: int| 0 <= k < out.len() ==> (#[trigger] out[k]) is Prefix
    &&& forall|k: int| 0 <= k < out.len() ==> names_member(#[trigger] out[k], lp, dirs)
    &&& forall|t: Seq<char>|
        #![trigger dirs.contains(t)]
        dirs.contains(t) ==> exists|k: int| #![trigger out[k]] 0 <= k < out.len() && item_name(out[k]) == literal(lp) + t
    &&& forall|a: int, b: int| 0 <= a < b < out.len() ==> item_name(#[trigger] out[a]) != item_name(#[trigger] out[b])
}

proof fn lemma_prefix_at_depth_len(s: Seq<char>, d: nat)
    ensures
        prefix_at_depth(s, d).len() <= s.len() + 1,
    decreases d,
{
    if d > 0 && first_index_of(s, '/') < s.len() {
        lemma_first_index_bound(s, '/');
        lemma_prefix_at_depth_len(after_first_slash(s), (d - 1) as nat);
    }
}

fn contains_string(v: &Vec<String>, s: &String) -> (r: bool)
    ensures
        r == exists|k: int| 0 <= k < v@.len() && (#[trigger] v@[k])@ == s@,
{
    let mut i: usize = 0;
    while i < v.len()
        invariant
            i <= v@.len(),
            forall|k: int| 0 <= k < i ==> (#[trigger] v@[k])@ != s@,
        decreases v@.len() - i,
    {
        if v[i] == *s {
            return true;
        }
        i = i + 1;
    }
    false
}

/// Keeps the entries whose name relative to `lp` matches `glob`, in order.
pub fn filter_entries(items: &Vec<BlobItem>, lp: &Option<String>, glob: &String) -> (r: Vec<BlobItem>)
    requires
        forall|k: int| 0 <= k < items@.len() ==> addressable(item_name(#[trigger] items@[k])),
    ensures
        r@ == items@.filter(matches_pred(opt_view(*lp), glob@)),
{
    let ghost pred = matches_pred(opt_view(*lp), glob@);
    let mut out: Vec<BlobItem> = Vec::new();
    let mut i: usize = 0;
    assert(items@.take(0) =~= Seq::<BlobItem>::empty());
    while i < items.len()
        invariant
            i <= items@.len(),
            pred == matches_pred(opt_view(*lp), glob@),
            forall|k: int| 0 <= k < items@.len() ==> addressable(item_name(#[trigger] items@[k])),
            out@ == items@.take(i as int).filter(pred),
        decreases items@.len() - i,
    {
        let item = &items[i];
        let rel = relative_name(item.name().as_str(), lp);
        proof {
            assert(addressable(item_name(items@[i as int])));
        }
        let keep = matches_pattern(rel.as_str(), glob.as_str());
        proof {
            assert(items@.take(i + 1).drop_last() =~= items@.take(i as int));
            assert(items@.take(i + 1).last() == items@[i as int]);
            assert(pred(items@[i as int]) == keep);
            reveal(Seq::filter);
            assert(items@.take(i + 1).filter(pred) == (if keep {
                items@.take(i as int).filter(pred).push(items@[i as int])
            } else {
                items@.take(i as int).filter(pred)
            }));
        }
        if keep {
            out.push(item.duplicate());
        }
        i = i + 1;
    }
    assert(items@.take(items@.len() as int) =~= items@);
    out
}

proof fn lemma_rebuilt_step(items: Seq<BlobItem>, i: int, lp: Option<Seq<char>>, g: Seq<char>, d: nat, below: bool, t: Seq<char>)
    requires
        0 <= i < items.len(),
    ensures
        rebuilt_dirs(items.take(i + 1), lp, g, d, below).contains(t) <==> (rebuilt_dirs(items.take(i), lp, g, d, below).contains(t)
            || depth_candidate(rel_name(item_name(items[i]), lp), d, below, g, t)),
{
    let prev = items.take(i);
    let next = items.take(i + 1);
    if rebuilt_dirs(next, lp, g, d, below).contains(t) {
        let k = choose|k: int| 0 <= k < next.len() && depth_candidate(rel_name(item_name(#[trigger] next[k]), lp), d, below, g, t);
        if k < i {
            assert(prev[k] == next[k]);
            assert(rebuilt_dirs(prev, lp, g, d, below).contains(t));
        }
    }
    if rebuilt_dirs(prev, lp, g, d, below).contains(t) {
        let k = choose|k: int| 0 <= k < prev.len() && depth_candidate(rel_name(item_name(#[trigger] prev[k]), lp), d, below, g, t);
        assert(prev[k] == next[k]);
        assert(rebuilt_dirs(next, lp, g, d, below).contains(t));
    }
    if depth_candidate(rel_name(item_name(items[i]), lp), d, below, g, t) {
        assert(next[i] == items[i]);
        assert(rebuilt_dirs(next, lp, g, d, below).contains(t));
    }
}

/// The directory `depth` segments deep that `rel` lies in, when `rel` has that
/// many segments and the directory matches `glob`.
fn dir_at_depth(rel: &String, depth: usize, below: bool, glob: &String) -> (r: Option<String>)
    requires
        rel@.len() + 1 < usize::MAX,
    ensures
        match r {
            Some(t) => depth_candidate(rel@, depth as nat, below, glob@, t@),
            None => forall|t: Seq<char>| !depth_candidate(rel@, depth as nat, below, glob@, t),
        },
{
    let count = count_segments(rel.as_str());
    if count < depth || (below && count == depth) {
        return None;
    }
    let t = truncate_to_depth(rel.as_str(), depth);
    proof {
        lemma_prefix_at_depth_len(rel@, depth as nat);
    }
    if matches_pattern(t.as_str(), glob.as_str()) {
        Some(t)
    } else {
        None
    }
}

#[verifier::spinoff_prover]
#[verifier::rlimit(50)]
proof fn lemma_lists_dirs(out: Seq<BlobItem>, seen: Seq<String>, lp: Option<Seq<char>>, dirs: Set<Seq<char>>)
    requires
        seen.len() == out.len(),
        forall|k: int| 0 <= k < out.len() ==> (#[trigger] out[k]) is Prefix,
        forall|k: int| 0 <= k < out.len() ==> item_name(#[trigger] out[k]) == literal(lp) + seen[k]@,
        forall|a: int, b: int| 0 <= a < b < seen.len() ==> (#[trigger] seen[a])@ != (#[trigger] seen[b])@,
        forall|t: Seq<char>| (exists|k: int| 0 <= k < seen.len() && (#[trigger] seen[k])@ == t)
            <==> #[trigger] dirs.contains(t),
    ensures
        lists_dirs(out, lp, dirs),
{
    assert forall|k: int| 0 <= k < out.len() implies names_member(#[trigger] out[k], lp, dirs) by {
        let t = seen[k]@;
        assert(exists|j: int| 0 <= j < seen.len() && (#[trigger] seen[j])@ == t);
        assert(dirs.contains(t) && item_name(out[k]) == literal(lp) + t);
    }
    assert forall|t: Seq<char>| #![trigger dirs.contains(t)] dirs.contains(t) implies exists|k: int| #![trigger out[k]] 0 <= k < out.len() && item_name(out[k]) == literal(lp) + t by {
        let k = choose|k: int| 0 <= k < seen.len() && (#[trigger] seen[k])@ == t;
        assert(item_name(out[k]) == literal(lp) + t);
    }
    assert forall|a: int, b: int| 0 <= a < b < out.len() implies item_name(#[trigger] out[a]) != item_name(#[trigger] out[b]) by {
        assert(seen[a]@ != seen[b]@);
        if item_name(out[a]) == item_name(out[b]) {
            assert(seen[a]@ =~= (literal(lp) + seen[a]@).skip(literal(lp).len() as int));
            assert(seen[b]@ =~= (literal(lp) + seen[b]@).skip(literal(lp).len() as int));
        }
    }
}

/// Folds a flat enumeration into virtual directories `depth` segments below
/// `lp`: each entry with at least `depth` relative segments gives the
/// directory formed by its first `depth` of them; those that match `glob` are
/// listed once each, joined back onto `lp`.
#[verifier::rlimit(30)]
pub fn rebuild_directories(items: &Vec<BlobItem>, lp: &Option<String>, glob: &String, depth: usize, below: bool) -> (r: Vec<BlobItem>)
    requires
        forall|k: int| 0 <= k < items@.len() ==> addressable(item_name(#[trigger] items@[k])),
    ensures
        lists_dirs(r@, opt_view(*lp), rebuilt_dirs(items@, opt_view(*lp), glob@, depth as nat, below)),
{
    let ghost lpv = opt_view(*lp);
    let ghost d = depth as nat;
    let lit = match lp {
        Some(p) => p.clone(),
        None => String::new(),
    };
    assert(lit@ == literal(lpv));
    let mut seen: Vec<String> = Vec::new();
    let mut out: Vec<BlobItem> = Vec::new();
    let mut i: usize = 0;
    proof {
        assert forall|t: Seq<char>| !rebuilt_dirs(items@.take(0), lpv, glob@, d, below).contains(t) by {}
    }
    while i < items.len()
        invariant
            i <= items@.len(),
            lpv == opt_view(*lp),
            d == depth as nat,
            lit@ == literal(lpv),
            forall|k: int| 0 <= k < items@.len() ==> addressable(item_name(#[trigger] items@[k])),
            seen@.len() == out@.len(),
            forall|k: int| 0 <= k < out@.len() ==> (#[trigger] out@[k]) is Prefix,
            forall|k: int| 0 <= k < out@.len() ==> item_name(#[trigger] out@[k]) == literal(lpv) + seen@[k]@,
            forall|a: int, b: int| 0 <= a < b < seen@.len() ==> (#[trigger] seen@[a])@ != (#[trigger] seen@[b])@,
            forall|t: Seq<char>| (exists|k: int| 0 <= k < seen@.len() && (#[trigger] seen@[k])@ == t)
                <==> #[trigger] rebuilt_dirs(items@.take(i as int), lpv, glob@, d, below).contains(t),
        decreases items@.len() - i,
    {
        let item = &items[i];
        let rel = relative_name(item.name().as_str(), lp);
        proof {
            assert(addressable(item_name(items@[i as int])));
        }
        let ghost old_seen = seen@;
        let ghost old_out = out@;
        let found = dir_at_depth(&rel, depth, below, glob);
        let ghost mut added: Option<Seq<char>> = None;
        match found {
            Some(t) => {
                if !contains_string(&seen, &t) {
                    let name = join(lit.as_str(), t.as_str());
                    proof {
                        added = Some(t@);
                    }
                    out.push(BlobItem::Prefix(name));
                    seen.push(t);
                }
            },
            None => {},
        }
        proof {
            assert forall|k: int| 0 <= k < old_seen.len() implies seen@[k] == old_seen[k] by {}
            assert forall|k: int| 0 <= k < old_out.len() implies out@[k] == old_out[k] by {}
            assert forall|t: Seq<char>| (exists|k: int| 0 <= k < seen@.len() && (#[trigger] seen@[k])@ == t)
                <==> #[trigger] rebuilt_dirs(items@.take(i + 1), lpv, glob@, d, below).contains(t) by {
                lemma_rebuilt_step(items@, i as int, lpv, glob@, d, below, t);
                if exists|k: int| 0 <= k < seen@.len() && (#[trigger] seen@[k])@ == t {
                    let k = choose|k: int| 0 <= k < seen@.len() && (#[trigger] seen@[k])@ == t;
                    if k < old_seen.len() {
                        assert(old_seen[k]@ == t);
                    }
                }
                if rebuilt_dirs(items@.take(i as int), lpv, glob@, d, below).contains(t) {
                    let k = choose|k: int| 0 <= k < old_seen.len() && (#[trigger] old_seen[k])@ == t;
                    assert(seen@[k]@ == t);
                }
                if added matches Some(a) && a == t {
                    assert(seen@[seen@.len() - 1]@ == t);
                }
            }
        }
        i = i + 1;
    }
    proof {
        assert(items@.take(items@.len() as int) =~= items@);
        lemma_lists_dirs(out@, seen@, lpv, rebuilt_dirs(items@, lpv, glob@, d, below));
    }
    out
}

/// The entries a listing shows, given the plan it was made with and what the
/// provider returned for it: everything for a plain listing, the matching
/// entries for a filtered one, and virtual directories for a rebuilt one.
pub fn select_entries(plan: &ListingPlan, items: &Vec<BlobItem>) -> (r: Vec<BlobItem>)
    requires
        forall|k: int| 0 <= k < items@.len() ==> addressable(item_name(#[trigger] items@[k])),
    ensures
        match (plan.mode, plan.pattern) {
            (ListingMode::Reconstruct(d, below), Some(g)) => lists_dirs(
                r@,
                opt_view(plan.list_prefix),
                rebuilt_dirs(items@, opt_view(plan.list_prefix), g@, d as nat, below),
            ),
            (ListingMode::Filter, Some(g)) => r@ == items@.filter(matches_pred(opt_view(plan.list_prefix), g@)),
            _ => r@ == items@,
        },
{
    match (&plan.mode, &plan.pattern) {
        (ListingMode::Reconstruct(d, below), Some(g)) => rebuild_directories(items, &plan.list_prefix, g, *d, *below),
        (ListingMode::Filter, Some(g)) => filter_entries(items, &plan.list_prefix, g),
        _ => {
            let mut out: Vec<BlobItem> = Vec::new();
            let mut i: usize = 0;
            while i < items.len()
                invariant
                    i <= items@.len(),
                    out@ == items@.take(i as int),
                decreases items@.len() - i,
            {
                out.push(items[i].duplicate());
                i = i + 1;
                assert(out@ =~= items@.take(i as int));
            }
            assert(items@.take(items@.len() as int) =~= items@);
            out
        },
    }
}

/// `key` lies under `lp` below a `/`, and `n` is the group a one-level
/// (delimited) listing reports it in: `lp`, its next segment, and `/`.
pub open spec fn grouped_at(key: Seq<char>, lp: Seq<char>, n: Seq<char>) -> bool {
    &&& starts_with(key, lp)
    &&& has_char(key.skip(lp.len() as int), '/')
    &&& n == lp + head_segment(key.skip(lp.len() as int)) + seq!['/']
}

/// The virtual directories a delimited listing under `lp` reports.
pub open spec fn delimited_dirs(items: Seq<BlobItem>, lp: Seq<char>) -> Set<Seq<char>> {
    Set::new(|n: Seq<char>| exists|k: int| 0 <= k < items.len() && grouped_at(item_name(#[trigger] items[k]), lp, n))
}

/// The pattern one directory level below the listing prefix, `*/` completed.
pub open spec fn one_level_pattern() -> Seq<char> {
    seq!['*', '/', '*']
}

proof fn lemma_one_level_matches(h: Seq<char>, i: int)
    requires
        !has_char(h, '/'),
        0 <= i <= h.len(),
    ensures
        match_from_one_level(h, i),
    decreases h.len() - i,
{
    let c = h + seq!['/'];
    let p = one_level_pattern();
    if i == h.len() {
        assert(c[i] == '/');
        assert(crate::glob::match_from(c, p, i + 1, 3));
        assert(crate::glob::match_from(c, p, i + 1, 2));
        assert(crate::glob::match_from(c, p, i, 1));
    } else {
        lemma_one_level_matches(h, i + 1);
        assert(c[i] == h[i]);
        assert(c[i] != '/');
    }
}

spec fn match_from_one_level(h: Seq<char>, i: int) -> bool {
    crate::glob::match_from(h + seq!['/'], one_level_pattern(), i, 0)
}

proof fn lemma_depth_one(rel: Seq<char>)
    ensures
        forall|t: Seq<char>| depth_candidate(rel, 1, true, one_level_pattern(), t) <==> (has_char(rel, '/')
            && t == head_segment(rel) + seq!['/']),
{
    crate::text::lemma_has_char_first_index(rel, '/');
    lemma_first_index_bound(rel, '/');
    if has_char(rel, '/') {
        lemma_segment_count_positive(rel);
        let h = head_segment(rel);
        assert(prefix_at_depth(after_first_slash(rel), 0) =~= Seq::<char>::empty());
        assert(prefix_at_depth(rel, 1) =~= h + seq!['/']);
        assert(!has_char(h, '/')) by {
            if has_char(h, '/') {
                let j = choose|j: int| 0 <= j < h.len() && h[j] == '/';
                assert(rel[j] == h[j]);
            }
        }
        lemma_one_level_matches(h, 0);
    } else {
        assert(segment_count(rel) == 1);
    }
}

proof fn lemma_rel_under(name: Seq<char>, lp: Seq<char>)
    requires
        starts_with(name, lp),
    ensures
        rel_name(name, nonempty(lp)) == name.skip(lp.len() as int),
{
    if lp.len() == 0 {
        assert(name.skip(0) =~= name);
    }
}

/// Rebuilding directories one level below `lp` from a flat enumeration under
/// `lp` gives the same directory names as a delimited listing under `lp`.
pub proof fn lemma_rebuild_matches_delimited(items: Seq<BlobItem>, lp: Seq<char>)
    requires
        forall|k: int| 0 <= k < items.len() ==> starts_with(item_name(#[trigger] items[k]), lp),
    ensures
        rebuilt_dirs(items, nonempty(lp), one_level_pattern(), 1, true).map(|t: Seq<char>| lp + t)
            == delimited_dirs(items, lp),
{
    let rb = rebuilt_dirs(items, nonempty(lp), one_level_pattern(), 1, true);
    let f = |t: Seq<char>| lp + t;
    assert forall|n: Seq<char>| rb.map(f).contains(n) <==> delimited_dirs(items, lp).contains(n) by {
        if rb.map(f).contains(n) {
            let t = choose|t: Seq<char>| rb.contains(t) && f(t) == n;
            let k = choose|k: int| 0 <= k < items.len() && depth_candidate(rel_name(item_name(#[trigger] items[k]), nonempty(lp)), 1, true, one_level_pattern(), t);
            let rel = item_name(items[k]).skip(lp.len() as int);
            lemma_rel_under(item_name(items[k]), lp);
            lemma_depth_one(rel);
            assert(n =~= lp + head_segment(rel) + seq!['/']);
            assert(grouped_at(item_name(items[k]), lp, n));
        }
        if delimited_dirs(items, lp).contains(n) {
            let k = choose|k: int| 0 <= k < items.len() && grouped_at(item_name(#[trigger] items[k]), lp, n);
            let rel = item_name(items[k]).skip(lp.len() as int);
            lemma_rel_under(item_name(items[k]), lp);
            lemma_depth_one(rel);
            let t = head_segment(rel) + seq!['/'];
            assert(depth_candidate(rel_name(item_name(items[k]), nonempty(lp)), 1, true, one_level_pattern(), t));
            assert(rb.contains(t));
            assert(n =~= f(t));
        }
    }
    assert(rb.map(f) =~= delimited_dirs(items, lp));
}

/// A non-recursive listing of `lp*/`, for a literal prefix `lp` that is empty
/// or ends in `/`, lists flat under `lp` and rebuilds directories one level
/// deep with the pattern `*/*`, keeping only keys below them: the listing
/// that `lemma_rebuild_matches_delimited` speaks of.
pub proof fn lemma_one_level_plan(lp: Seq<char>)
    requires
        lp.len() == 0 || lp.last() == '/',
        forall|i: int| 0 <= i < lp.len() ==> !crate::glob::is_wildcard(#[trigger] lp[i]),
    ensures
        plan_prefix(Some(lp + seq!['*', '/'])) == nonempty(lp),
        plan_pattern(Some(lp + seq!['*', '/'])) == Some(one_level_pattern()),
        plan_force(Some(lp + seq!['*', '/'])),
        !plan_uses_delimiter(Some(lp + seq!['*', '/']), false),
        plan_mode(Some(lp + seq!['*', '/']), false) == ListingMode::Reconstruct(1, true),
{
    let s = lp + seq!['*', '/'];
    let g = seq!['*', '/'];
    assert forall|j: int| 0 <= j < lp.len() implies !crate::glob::is_wildcard(#[trigger] s[j]) by {
        assert(s[j] == lp[j]);
    }
    assert(s[lp.len() as int] == '*');
    crate::glob::lemma_first_wildcard_at(s, lp.len() as int);
    assert(s.take(lp.len() as int) =~= lp);
    assert(s.skip(lp.len() as int) =~= g);
    assert(crate::glob::literal_prefix_len(s) == lp.len());
    assert(completed_pattern(g) =~= one_level_pattern());
    assert(has_char(g, '/')) by {
        assert(g[1] == '/');
    }
    let c = one_level_pattern();
    assert(!has_double_star(c)) by {
        if has_double_star(c) {
            let i = choose|i: int| 0 <= i && i + 1 < c.len() && c[i] == '*' && #[trigger] c[i + 1] == '*';
            assert(i == 0 || i == 1);
        }
    }
    crate::text::lemma_first_index_at(c, '/', 1);
    assert(after_first_slash(c) =~= seq!['*']);
    crate::text::lemma_first_index_at(seq!['*'], '/', 1);
    assert(segment_count(seq!['*']) == 1);
    assert(segment_count(c) == 2);
    assert(reconstruct_depth(g) == 1);
}

} // verus!
