//! Per-directory size totals folded from a flat key and size stream.

use vstd::prelude::*;
use crate::listing::{item_name, rel_name, relative_name, BlobItem};
use crate::text::{
    chars_of, find_char, has_prefix, join, lemma_first_index_bound, starts_with, substring,
};
use crate::uri::opt_view;

verus! {

/// Cumulative sizes keyed by directory path (each key ends in `/`).
pub struct DirectorySizeMap {
    keys: Vec<String>,
    sizes: Vec<u64>,
    model: Ghost<Map<Seq<char>, nat>>,
}

impl View for DirectorySizeMap {
    type V = Map<Seq<char>, nat>;

    closed spec fn view(&self) -> Map<Seq<char>, nat> {
        self.model@
    }
}

impl DirectorySizeMap {
    /// Keys and sizes agree, keys are distinct, and the model is exactly what they hold.
    pub closed spec fn wf(&self) -> bool {
        &&& self.keys@.len() == self.sizes@.len()
        &&& forall|a: int, b: int| 0 <= a < b < self.keys@.len() ==> (#[trigger] self.keys@[a])@ != (#[trigger] self.keys@[b])@
        &&& forall|i: int| 0 <= i < self.keys@.len() ==> self.model@.contains_key((#[trigger] self.keys@[i])@)
            && self.model@[self.keys@[i]@] == self.sizes@[i] as nat
        &&& forall|k: Seq<char>| #[trigger] self.model@.contains_key(k) ==> exists|i: int| 0 <= i < self.keys@.len() && (#[trigger] self.keys@[i])@ == k
    }

    /// An empty map.
    pub fn new() -> (r: DirectorySizeMap)
        ensures
            r.wf(),
            r@ == Map::<Seq<char>, nat>::empty(),
    {
        DirectorySizeMap { keys: Vec::new(), sizes: Vec::new(), model: Ghost(Map::empty()) }
    }

    fn position(&self, dir: &String) -> (r: Option<usize>)
        requires
            self.wf(),
        ensures
            match r {
                Some(i) => i < self.keys@.len() && self.keys@[i as int]@ == dir@,
                None => !self@.contains_key(dir@),
            },
    {
        let mut i: usize = 0;
        while i < self.keys.len()
            invariant
                self.wf(),
                i <= self.keys@.len(),
                forall|j: int| 0 <= j < i ==> (#[trigger] self.keys@[j])@ != dir@,
            decreases self.keys@.len() - i,
        {
            if self.keys[i] == *dir {
                return Some(i);
            }
            i = i + 1;
        }
        None
    }

    /// The total recorded for `dir`, if any.
    pub fn get(&self, dir: &str) -> (r: Option<u64>)
        requires
            self.wf(),
        ensures
            match r {
                Some(v) => self@.contains_key(dir@) && self@[dir@] == v as nat,
                None => !self@.contains_key(dir@),
            },
    {
        let key = String::from_str(dir);
        match self.position(&key) {
            Some(i) => Some(self.sizes[i]),
            None => None,
        }
    }

    /// Adds `size` to the total of `dir`, creating it at `size` when absent.
    pub fn add(&mut self, dir: String, size: u64)
        requires
            old(self).wf(),
            (if old(self)@.contains_key(dir@) { old(self)@[dir@] } else { 0 }) + size <= u64::MAX,
        ensures
            final(self).wf(),
            final(self)@ == old(self)@.insert(
                dir@,
                (if old(self)@.contains_key(dir@) { old(self)@[dir@] } else { 0 }) + size as nat,
            ),
    {
        let ghost old_keys = self.keys@;
        match self.position(&dir) {
            Some(i) => {
                let v = self.sizes[i] + size;
                self.sizes.set(i, v);
                self.model = Ghost(self.model@.insert(dir@, v as nat));
                proof {
                    assert forall|k: Seq<char>| #[trigger] self.model@.contains_key(k) implies exists|j: int| 0 <= j < self.keys@.len() && (#[trigger] self.keys@[j])@ == k by {
                        if k == dir@ {
                            assert(self.keys@[i as int]@ == k);
                        } else {
                            assert(old(self).model@.contains_key(k));
                            let j = choose|j: int| 0 <= j < old_keys.len() && (#[trigger] old_keys[j])@ == k;
                            assert(self.keys@[j]@ == k);
                        }
                    }
                }
            },
            None => {
                let ghost d = dir@;
                self.keys.push(dir);
                self.sizes.push(size);
                self.model = Ghost(self.model@.insert(d, size as nat));
                proof {
                    let n = self.keys@.len() - 1;
                    assert forall|a: int, b: int| 0 <= a < b < self.keys@.len() implies (#[trigger] self.keys@[a])@ != (#[trigger] self.keys@[b])@ by {
                        assert(self.keys@[a] == old_keys[a]);
                        if b < n {
                            assert(self.keys@[b] == old_keys[b]);
                        } else {
                            assert(old(self)@.contains_key(old_keys[a]@));
                        }
                    }
                    assert forall|j: int| 0 <= j < self.keys@.len() implies self.model@.contains_key((#[trigger] self.keys@[j])@)
                        && self.model@[self.keys@[j]@] == self.sizes@[j] as nat by {
                        if j < n {
                            assert(self.keys@[j] == old_keys[j]);
                            assert(old(self)@.contains_key(old_keys[j]@));
                        }
                    }
                    assert forall|k: Seq<char>| #[trigger] self.model@.contains_key(k) implies exists|j: int| 0 <= j < self.keys@.len() && (#[trigger] self.keys@[j])@ == k by {
                        if k == d {
                            assert(self.keys@[n]@ == k);
                        } else {
                            let j = choose|j: int| 0 <= j < old_keys.len() && (#[trigger] old_keys[j])@ == k;
                            assert(self.keys@[j] == old_keys[j]);
                        }
                    }
                }
            },
        }
    }

    /// Every (directory, total) pair, each directory once.
    pub fn entries(&self) -> (r: Vec<(String, u64)>)
        requires
            self.wf(),
        ensures
            forall|i: int| 0 <= i < r@.len() ==> self@.contains_key((#[trigger] r@[i]).0@) && self@[r@[i].0@] == r@[i].1 as nat,
            forall|k: Seq<char>| #[trigger] self@.contains_key(k) ==> exists|i: int| 0 <= i < r@.len() && (#[trigger] r@[i]).0@ == k,
            forall|a: int, b: int| 0 <= a < b < r@.len() ==> (#[trigger] r@[a]).0@ != (#[trigger] r@[b]).0@,
    {
        let mut r: Vec<(String, u64)> = Vec::new();
        let mut i: usize = 0;
        while i < self.keys.len()
            invariant
                self.wf(),
                i <= self.keys@.len(),
                r@.len() == i,
                forall|j: int| 0 <= j < i ==> (#[trigger] r@[j]).0@ == self.keys@[j]@ && r@[j].1 == self.sizes@[j],
            decreases self.keys@.len() - i,
        {
            r.push((self.keys[i].clone(), self.sizes[i]));
            i = i + 1;
        }
        proof {
            assert forall|k: Seq<char>| #[trigger] self@.contains_key(k) implies exists|j: int| 0 <= j < r@.len() && (#[trigger] r@[j]).0@ == k by {
                let j = choose|j: int| 0 <= j < self.keys@.len() && (#[trigger] self.keys@[j])@ == k;
                assert(r@[j].0@ == k);
            }
            assert forall|a: int, b: int| 0 <= a < b < r@.len() implies (#[trigger] r@[a]).0@ != (#[trigger] r@[b]).0@ by {
                assert(self.keys@[a]@ != self.keys@[b]@);
            }
        }
        r
    }
}

/// The size an entry contributes: its length for a blob, nothing for a directory.
pub open spec fn item_size(it: BlobItem) -> nat {
    match it {
        BlobItem::Blob(b) => b.properties.content_length as nat,
        BlobItem::Prefix(_) => 0,
    }
}

/// The sum of the sizes of all blobs.
pub open spec fn total_size(items: Seq<BlobItem>) -> nat
    decreases items.len(),
{
    if items.len() == 0 {
        0
    } else {
        total_size(items.drop_last()) + item_size(items.last())
    }
}

/// The sum of the sizes of the blobs whose name, relative to `base`, starts with `d`.
pub open spec fn size_under(items: Seq<BlobItem>, base: Option<Seq<char>>, d: Seq<char>) -> nat
    decreases items.len(),
{
    if items.len() == 0 {
        0
    } else {
        size_under(items.drop_last(), base, d) + if starts_with(rel_name(item_name(items.last()), base), d) {
            item_size(items.last())
        } else {
            0
        }
    }
}

/// `d` is a directory that relative key `rel` lies in: a non-empty prefix of
/// `rel` ending in `/`.
pub open spec fn is_dir_of(rel: Seq<char>, d: Seq<char>) -> bool {
    d.len() > 0 && d.last() == '/' && starts_with(rel, d)
}

/// `d` is a directory of `rel` that ends at or before position `p`.
pub open spec fn dir_within(rel: Seq<char>, d: Seq<char>, p: int) -> bool {
    is_dir_of(rel, d) && d.len() <= p
}

/// Some blob lies, relative to `base`, in directory `d`.
pub open spec fn has_blob_in(items: Seq<BlobItem>, base: Option<Seq<char>>, d: Seq<char>) -> bool {
    exists|k: int| 0 <= k < items.len() && (#[trigger] items[k]) is Blob && is_dir_of(rel_name(item_name(items[k]), base), d)
}

/// Every directory that holds a blob, with the total size of what lies under it.
pub open spec fn directory_sizes(items: Seq<BlobItem>, base: Option<Seq<char>>) -> Map<Seq<char>, nat> {
    Map::new(|d: Seq<char>| has_blob_in(items, base, d), |d: Seq<char>| size_under(items, base, d))
}

proof fn lemma_total_prefix(items: Seq<BlobItem>, j: int)
    requires
        0 <= j <= items.len(),
    ensures
        total_size(items.take(j)) <= total_size(items),
    decreases items.len(),
{
    if j < items.len() {
        assert(items.take(j) =~= items.drop_last().take(j));
        lemma_total_prefix(items.drop_last(), j);
    } else {
        assert(items.take(j) =~= items);
    }
}

proof fn lemma_size_under_le_total(items: Seq<BlobItem>, base: Option<Seq<char>>, d: Seq<char>)
    ensures
        size_under(items, base, d) <= total_size(items),
    decreases items.len(),
{
    if items.len() > 0 {
        lemma_size_under_le_total(items.drop_last(), base, d);
    }
}

proof fn lemma_step(items: Seq<BlobItem>, i: int, base: Option<Seq<char>>)
    requires
        0 <= i < items.len(),
    ensures
        items.take(i + 1).drop_last() == items.take(i),
        items.take(i + 1).last() == items[i],
        total_size(items.take(i + 1)) == total_size(items.take(i)) + item_size(items[i]),
        forall|d: Seq<char>| has_blob_in(items.take(i + 1), base, d) <==> (has_blob_in(items.take(i), base, d)
            || (items[i] is Blob && is_dir_of(rel_name(item_name(items[i]), base), d))),
{
    let prev = items.take(i);
    let next = items.take(i + 1);
    assert(next.drop_last() =~= prev);
    assert forall|d: Seq<char>| has_blob_in(next, base, d) <==> (has_blob_in(prev, base, d)
        || (items[i] is Blob && is_dir_of(rel_name(item_name(items[i]), base), d))) by {
        if has_blob_in(next, base, d) {
            let k = choose|k: int| 0 <= k < next.len() && (#[trigger] next[k]) is Blob && is_dir_of(rel_name(item_name(next[k]), base), d);
            if k < i {
                assert(prev[k] == next[k]);
            }
        }
        if has_blob_in(prev, base, d) {
            let k = choose|k: int| 0 <= k < prev.len() && (#[trigger] prev[k]) is Blob && is_dir_of(rel_name(item_name(prev[k]), base), d);
            assert(prev[k] == next[k]);
        }
        if items[i] is Blob && is_dir_of(rel_name(item_name(items[i]), base), d) {
            assert(next[i] == items[i]);
        }
    }
}

/// A directory that no blob lies in has nothing under it.
pub proof fn lemma_size_under_outside(items: Seq<BlobItem>, base: Option<Seq<char>>, d: Seq<char>)
    requires
        d.len() > 0,
        d.last() == '/',
        !has_blob_in(items, base, d),
    ensures
        size_under(items, base, d) == 0,
    decreases items.len(),
{
    if items.len() > 0 {
        let init = items.drop_last();
        if has_blob_in(init, base, d) {
            let k = choose|k: int| 0 <= k < init.len() && (#[trigger] init[k]) is Blob && is_dir_of(rel_name(item_name(init[k]), base), d);
            assert(items[k] == init[k]);
        }
        lemma_size_under_outside(init, base, d);
        if items.last() is Blob {
            assert(items[items.len() - 1] == items.last());
        }
    }
}

/// The sum of the sizes of all blobs in `blobs`.
pub fn calculate_total_size(blobs: &Vec<BlobItem>) -> (r: u64)
    requires
        total_size(blobs@) <= u64::MAX,
    ensures
        r == total_size(blobs@),
{
    let mut sum: u64 = 0;
    let mut i: usize = 0;
    assert(blobs@.take(0) =~= Seq::<BlobItem>::empty());
    while i < blobs.len()
        invariant
            i <= blobs@.len(),
            total_size(blobs@) <= u64::MAX,
            sum == total_size(blobs@.take(i as int)),
        decreases blobs@.len() - i,
    {
        proof {
            lemma_step(blobs@, i as int, None);
            lemma_total_prefix(blobs@, i + 1);
        }
        match &blobs[i] {
            BlobItem::Blob(b) => {
                sum = sum + b.properties.content_length;
            },
            BlobItem::Prefix(_) => {},
        }
        i = i + 1;
    }
    assert(blobs@.take(blobs@.len() as int) =~= blobs@);
    sum
}

/// Folds blob sizes into every directory they lie in, relative to `base_prefix`:
/// for `a/b/c.txt` the size counts towards `a/` and `a/b/`.
#[verifier::rlimit(40)]
pub fn calculate_directory_sizes(blobs: &Vec<BlobItem>, base_prefix: &Option<String>) -> (r: DirectorySizeMap)
    requires
        total_size(blobs@) <= u64::MAX,
    ensures
        r.wf(),
        r@ == directory_sizes(blobs@, opt_view(*base_prefix)),
{
    let ghost base = opt_view(*base_prefix);
    let mut map = DirectorySizeMap::new();
    let mut i: usize = 0;
    assert(map@ =~= directory_sizes(blobs@.take(0), base));
    while i < blobs.len()
        invariant
            i <= blobs@.len(),
            base == opt_view(*base_prefix),
            total_size(blobs@) <= u64::MAX,
            map.wf(),
            map@ == directory_sizes(blobs@.take(i as int), base),
        decreases blobs@.len() - i,
    {
        let ghost prev = blobs@.take(i as int);
        let ghost next = blobs@.take(i + 1);
        proof {
            lemma_step(blobs@, i as int, base);
            lemma_total_prefix(blobs@, i + 1);
        }
        match &blobs[i] {
            BlobItem::Blob(b) => {
                let size = b.properties.content_length;
                let rel = relative_name(b.name.as_str(), base_prefix);
                let ghost relv = rel@;
                assert(relv == rel_name(item_name(blobs@[i as int]), base));
                let cs = chars_of(rel.as_str());
                let n = cs.len();
                let mut pos: usize = 0;
                while pos < n
                    invariant
                        cs@ == relv,
                        n == cs@.len(),
                        pos <= n,
                        rel@ == relv,
                        map.wf(),
                        total_size(next) <= u64::MAX,
                        total_size(next) == total_size(prev) + size as nat,
                        forall|d: Seq<char>| #[trigger] map@.contains_key(d) <==> (has_blob_in(prev, base, d) || dir_within(relv, d, pos as int)),
                        forall|d: Seq<char>| #[trigger] map@.contains_key(d) ==> map@[d] == size_under(prev, base, d)
                            + if dir_within(relv, d, pos as int) { size as nat } else { 0 },
                    decreases n - pos,
                {
                    let q = find_char(&cs, pos, '/');
                    proof {
                        lemma_first_index_bound(cs@.skip(pos as int), '/');
                    }
                    if q == n {
                        proof {
                            assert forall|d: Seq<char>| #[trigger] dir_within(relv, d, n as int) <==> dir_within(relv, d, pos as int) by {
                                if dir_within(relv, d, n as int) && d.len() > pos {
                                    assert(cs@.skip(pos as int)[d.len() - 1 - pos] == '/');
                                    assert(cs@[d.len() - 1] == d.take(d.len() as int)[d.len() - 1]);
                                }
                            }
                        }
                        pos = n;
                    } else {
                        proof {
                            assert(cs@.skip(pos as int)[q - pos] == cs@[q as int]);
                            assert(cs@[q as int] == '/');
                            assert(rel@ == cs@);
                        }
                        let dir = substring(rel.as_str(), 0, q + 1);
                        let ghost dv = dir@;
                        proof {
                            assert(is_dir_of(relv, dv)) by {
                                assert(relv.take(dv.len() as int) =~= dv);
                            }
                            assert forall|d: Seq<char>| #[trigger] dir_within(relv, d, q + 1) <==> (dir_within(relv, d, pos as int) || d == dv) by {
                                if dir_within(relv, d, q + 1) && d.len() > pos {
                                    if d.len() - 1 < q {
                                        assert(cs@.skip(pos as int)[d.len() - 1 - pos] != '/');
                                        assert(relv.take(d.len() as int)[d.len() - 1] == d[d.len() - 1]);
                                    }
                                    assert(d =~= dv);
                                }
                            }
                            if map@.contains_key(dv) {
                                lemma_size_under_le_total(prev, base, dv);
                                assert(!dir_within(relv, dv, pos as int));
                            } else {
                                lemma_size_under_le_total(prev, base, dv);
                                if has_blob_in(prev, base, dv) {
                                    assert(map@.contains_key(dv));
                                }
                                lemma_size_under_outside(prev, base, dv);
                            }
                        }
                        map.add(dir, size);
                        pos = q + 1;
                    }
                }
                proof {
                    assert forall|d: Seq<char>| #[trigger] is_dir_of(relv, d) implies dir_within(relv, d, pos as int) by {
                        if is_dir_of(relv, d) {
                            assert(d.len() <= relv.len());
                        }
                    }
                    assert forall|d: Seq<char>| #[trigger] has_blob_in(next, base, d) ==> size_under(next, base, d)
                        == size_under(prev, base, d) + if dir_within(relv, d, pos as int) { size as nat } else { 0 } by {
                        if has_blob_in(next, base, d) {
                            let k = choose|k: int| 0 <= k < next.len() && (#[trigger] next[k]) is Blob && is_dir_of(rel_name(item_name(next[k]), base), d);
                            assert(d.len() > 0 && d.last() == '/');
                        }
                    }
                    assert(map@ =~= directory_sizes(next, base));
                }
            },
            BlobItem::Prefix(_) => {
                proof {
                    assert forall|d: Seq<char>| #[trigger] has_blob_in(next, base, d) ==> size_under(next, base, d)
                        == size_under(prev, base, d) by {}
                    assert(map@ =~= directory_sizes(next, base));
                }
            },
        }
        i = i + 1;
    }
    assert(blobs@.take(blobs@.len() as int) =~= blobs@);
    map
}

/// For every directory `d`, the aggregated total is the sum of the sizes of
/// all blobs whose relative name starts with `d`; a directory that no blob
/// lies in is absent, and nothing lies under it.
pub proof fn lemma_directory_size_total(items: Seq<BlobItem>, base: Option<Seq<char>>, d: Seq<char>)
    requires
        d.len() > 0,
        d.last() == '/',
    ensures
        directory_sizes(items, base).contains_key(d) ==> directory_sizes(items, base)[d] == size_under(items, base, d),
        !directory_sizes(items, base).contains_key(d) ==> size_under(items, base, d) == 0,
{
    if !directory_sizes(items, base).contains_key(d) {
        lemma_size_under_outside(items, base, d);
    }
}

pub open spec fn has_sized_key(m: Map<Seq<char>, nat>, k: Seq<char>, v: u64) -> bool {
    m.contains_key(k) && m[k] == v as nat
}

/// `m` with `base` put in front of every key.
pub open spec fn rebased(m: Map<Seq<char>, nat>, base: Seq<char>) -> Map<Seq<char>, nat> {
    Map::new(
        |k: Seq<char>| starts_with(k, base) && m.contains_key(k.skip(base.len() as int)),
        |k: Seq<char>| m[k.skip(base.len() as int)],
    )
}

impl DirectorySizeMap {
    /// The same totals with `base` put in front of every directory, which
    /// turns directories relative to a listing prefix back into full names.
    pub fn prefixed(&self, base: &str) -> (r: DirectorySizeMap)
        requires
            self.wf(),
        ensures
            r.wf(),
            r@ == rebased(self@, base@),
    {
        let mut r = DirectorySizeMap::new();
        let mut i: usize = 0;
        let ghost b = base@;
        while i < self.keys.len()
            invariant
                self.wf(),
                r.wf(),
                b == base@,
                i <= self.keys@.len(),
                forall|k: Seq<char>| #[trigger] r@.contains_key(k) <==> exists|j: int| 0 <= j < i && k == b + (#[trigger] self.keys@[j])@,
                forall|j: int| 0 <= j < i ==> has_sized_key(r@, b + #[trigger] self.keys@[j]@, self.sizes@[j]),
            decreases self.keys@.len() - i,
        {
            let key = crate::text::join(base, self.keys[i].as_str());
            let ghost kv = key@;
            proof {
                if r@.contains_key(kv) {
                    let j = choose|j: int| 0 <= j < i && kv == b + (#[trigger] self.keys@[j])@;
                    assert(self.keys@[j]@ =~= kv.skip(b.len() as int));
                    assert(self.keys@[i as int]@ =~= kv.skip(b.len() as int));
                    assert(self.keys@[j]@ != self.keys@[i as int]@);
                }
                assert(!r@.contains_key(kv));
            }
            let ghost before = r@;
            r.add(key, self.sizes[i]);
            proof {
                assert forall|k: Seq<char>| #[trigger] r@.contains_key(k) <==> exists|j: int| 0 <= j < i + 1 && k == b + (#[trigger] self.keys@[j])@ by {
                    if k == kv {
                        assert(k == b + self.keys@[i as int]@);
                    }
                }
                assert forall|j: int| 0 <= j < i + 1 implies has_sized_key(r@, b + #[trigger] self.keys@[j]@, self.sizes@[j]) by {
                    if j == i {
                        assert(!before.contains_key(kv));
                    }
                    if j < i {
                        assert(has_sized_key(before, b + self.keys@[j]@, self.sizes@[j]));
                        assert(self.keys@[j]@ != self.keys@[i as int]@);
                        if b + self.keys@[j]@ == kv {
                            assert(self.keys@[j]@ =~= (b + self.keys@[j]@).skip(b.len() as int));
                            assert(self.keys@[i as int]@ =~= kv.skip(b.len() as int));
                        }
                    }
                }
            }
            i = i + 1;
        }
        proof {
            assert forall|k: Seq<char>| #[trigger] r@.contains_key(k) == rebased(self@, b).contains_key(k) by {
                if r@.contains_key(k) {
                    let j = choose|j: int| 0 <= j < self.keys@.len() && k == b + (#[trigger] self.keys@[j])@;
                    assert(k.skip(b.len() as int) =~= self.keys@[j]@);
                    assert(k.take(b.len() as int) =~= b);
                }
                if rebased(self@, b).contains_key(k) {
                    let s = k.skip(b.len() as int);
                    let j = choose|j: int| 0 <= j < self.keys@.len() && (#[trigger] self.keys@[j])@ == s;
                    assert(k =~= b + s);
                }
            }
            assert forall|k: Seq<char>| #[trigger] r@.contains_key(k) implies r@[k] == rebased(self@, b)[k] by {
                let j = choose|j: int| 0 <= j < self.keys@.len() && k == b + (#[trigger] self.keys@[j])@;
                assert(k.skip(b.len() as int) =~= self.keys@[j]@);
            }
            assert(r@ =~= rebased(self@, b));
        }
        r
    }
}

/// The sum of the sizes of all files.
pub open spec fn total_file_bytes(files: Seq<(String, u64)>) -> nat
    decreases files.len(),
{
    if files.len() == 0 {
        0
    } else {
        total_file_bytes(files.drop_last()) + files.last().1 as nat
    }
}

/// The sum of the sizes of the files whose path lies below directory `d`
/// (starts with `d` and a `/`).
pub open spec fn file_bytes_under(files: Seq<(String, u64)>, d: Seq<char>) -> nat
    decreases files.len(),
{
    if files.len() == 0 {
        0
    } else {
        file_bytes_under(files.drop_last(), d) + if starts_with(files.last().0@, d + seq!['/']) {
            files.last().1 as nat
        } else {
            0
        }
    }
}

/// Each listed directory with the total size of the files below it.
pub open spec fn tree_sizes(files: Seq<(String, u64)>, dirs: Seq<String>) -> Map<Seq<char>, nat> {
    Map::new(
        |d: Seq<char>| exists|i: int| 0 <= i < dirs.len() && (#[trigger] dirs[i])@ == d,
        |d: Seq<char>| file_bytes_under(files, d),
    )
}

proof fn lemma_file_bytes_le_total(files: Seq<(String, u64)>, d: Seq<char>)
    ensures
        file_bytes_under(files, d) <= total_file_bytes(files),
    decreases files.len(),
{
    if files.len() > 0 {
        lemma_file_bytes_le_total(files.drop_last(), d);
    }
}

proof fn lemma_total_files_prefix(files: Seq<(String, u64)>, j: int)
    requires
        0 <= j <= files.len(),
    ensures
        total_file_bytes(files.take(j)) <= total_file_bytes(files),
    decreases files.len(),
{
    if j < files.len() {
        assert(files.take(j) =~= files.drop_last().take(j));
        lemma_total_files_prefix(files.drop_last(), j);
    } else {
        assert(files.take(j) =~= files);
    }
}

/// The total size of the files below directory `dir`.
fn bytes_below(files: &Vec<(String, u64)>, dir: &String) -> (r: u64)
    requires
        total_file_bytes(files@) <= u64::MAX,
    ensures
        r == file_bytes_under(files@, dir@),
{
    proof {
        reveal_strlit("/");
    }
    let prefix = join(dir.as_str(), "/");
    let pc = chars_of(prefix.as_str());
    let mut sum: u64 = 0;
    let mut i: usize = 0;
    assert(files@.take(0) =~= Seq::<(String, u64)>::empty());
    while i < files.len()
        invariant
            i <= files@.len(),
            total_file_bytes(files@) <= u64::MAX,
            pc@ == dir@ + seq!['/'],
            sum == file_bytes_under(files@.take(i as int), dir@),
        decreases files@.len() - i,
    {
        let ghost next = files@.take(i + 1);
        proof {
            assert(next.drop_last() =~= files@.take(i as int));
            assert(next.last() == files@[i as int]);
            lemma_file_bytes_le_total(next, dir@);
            lemma_total_files_prefix(files@, i + 1);
        }
        let fc = chars_of(files[i].0.as_str());
        if has_prefix(&fc, &pc) {
            sum = sum + files[i].1;
        }
        i = i + 1;
    }
    assert(files@.take(files@.len() as int) =~= files@);
    sum
}

/// Totals for a local directory tree, given every file (its path relative to
/// the root, segments joined by `/`, and its size) and every subdirectory
/// (its relative path): the total of the whole tree, and each subdirectory
/// with the total below it, none when only the summary is wanted.
pub fn local_directory_sizes(files: &Vec<(String, u64)>, dirs: &Vec<String>, summarize_only: bool) -> (r: (
    DirectorySizeMap,
    u64,
))
    requires
        total_file_bytes(files@) <= u64::MAX,
    ensures
        r.0.wf(),
        r.1 == total_file_bytes(files@),
        r.0@ == if summarize_only {
            Map::<Seq<char>, nat>::empty()
        } else {
            tree_sizes(files@, dirs@)
        },
{
    let mut total: u64 = 0;
    let mut i: usize = 0;
    assert(files@.take(0) =~= Seq::<(String, u64)>::empty());
    while i < files.len()
        invariant
            i <= files@.len(),
            total_file_bytes(files@) <= u64::MAX,
            total == total_file_bytes(files@.take(i as int)),
        decreases files@.len() - i,
    {
        proof {
            assert(files@.take(i + 1).drop_last() =~= files@.take(i as int));
            lemma_total_files_prefix(files@, i + 1);
        }
        total = total + files[i].1;
        i = i + 1;
    }
    assert(files@.take(files@.len() as int) =~= files@);
    let mut map = DirectorySizeMap::new();
    if summarize_only {
        return (map, total);
    }
    let mut j: usize = 0;
    while j < dirs.len()
        invariant
            j <= dirs@.len(),
            total_file_bytes(files@) <= u64::MAX,
            map.wf(),
            forall|d: Seq<char>| #[trigger] map@.contains_key(d) <==> exists|k: int| 0 <= k < j && (#[trigger] dirs@[k])@ == d,
            forall|d: Seq<char>| #[trigger] map@.contains_key(d) ==> map@[d] == file_bytes_under(files@, d),
        decreases dirs@.len() - j,
    {
        let ghost dv = dirs@[j as int]@;
        if map.get(dirs[j].as_str()).is_none() {
            let size = bytes_below(files, &dirs[j]);
            map.add(dirs[j].clone(), size);
        }
        proof {
            assert forall|d: Seq<char>| #[trigger] map@.contains_key(d) <==> exists|k: int| 0 <= k < j + 1 && (#[trigger] dirs@[k])@ == d by {
                if d == dv {
                    assert(dirs@[j as int]@ == d);
                }
            }
        }
        j = j + 1;
    }
    assert(map@ =~= tree_sizes(files@, dirs@));
    (map, total)
}

} // verus!
