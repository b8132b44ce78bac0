//! The sizes found so far, by directory.

use vstd::prelude::*;
use vstd::hash_map::StringHashMap;
use crate::probe::texts;

verus! {

/// The sum of the sizes in `m`.
pub open spec fn total(m: Map<Seq<char>, u64>) -> nat
    decreases m.dom().len(),
    when m.dom().finite()
{
    if m.dom().len() == 0 {
        0
    } else {
        let k = m.dom().choose();
        m[k] as nat + total(m.remove(k))
    }
}

/// The sum may be taken apart at any key.
pub proof fn total_remove(m: Map<Seq<char>, u64>, k: Seq<char>)
    requires
        m.dom().finite(),
        m.contains_key(k),
    ensures
        total(m) == m[k] + total(m.remove(k)),
    decreases m.dom().len(),
{
    let c = m.dom().choose();
    if c != k {
        total_remove(m.remove(c), k);
        total_remove(m.remove(k), c);
        assert(m.remove(c).remove(k) =~= m.remove(k).remove(c));
    }
}

/// A new key adds its size to the sum.
pub proof fn total_insert(m: Map<Seq<char>, u64>, k: Seq<char>, size: u64)
    requires
        m.dom().finite(),
        !m.contains_key(k),
    ensures
        total(m.insert(k, size)) == total(m) + size,
{
    total_remove(m.insert(k, size), k);
    assert(m.insert(k, size).remove(k) =~= m);
}

/// The rows `rows` list the map `m`: each key once, with its size.
pub open spec fn lists(rows: Seq<(Seq<char>, u64)>, m: Map<Seq<char>, u64>) -> bool {
    &&& forall|i: int, j: int| 0 <= i < j < rows.len() ==> rows[i].0 != rows[j].0
    &&& forall|i: int| 0 <= i < rows.len() ==> m.contains_pair(#[trigger] rows[i].0, rows[i].1)
    &&& forall|k: Seq<char>| #[trigger]
        m.contains_key(k) ==> exists|i: int| 0 <= i < rows.len() && #[trigger] rows[i].0 == k
}

/// Rows of path and size, the paths as sequences of characters.
pub open spec fn row_views(rows: Seq<(String, u64)>) -> Seq<(Seq<char>, u64)> {
    Seq::new(rows.len(), |i: int| (rows[i].0@, rows[i].1))
}

/// Whether `paths` holds the keys of `sizes`, each once.
spec fn indexes(sizes: Map<Seq<char>, u64>, paths: Seq<String>) -> bool {
    &&& texts(paths).no_duplicates()
    &&& forall|i: int| 0 <= i < paths.len() ==> sizes.contains_key(#[trigger] texts(paths)[i])
    &&& forall|k: Seq<char>| #[trigger] sizes.contains_key(k) ==> texts(paths).contains(k)
}

/// Records `size` under `path` in `sizes`, and `path` in `paths` where it is
/// new.
fn record(sizes: &mut StringHashMap<u64>, paths: &mut Vec<String>, path: String, size: u64)
    requires
        indexes(old(sizes)@, old(paths)@),
    ensures
        indexes(final(sizes)@, final(paths)@),
        final(sizes)@ == old(sizes)@.insert(path@, size),
{
    if !sizes.contains_key(path.as_str()) {
        let ghost before = paths@;
        paths.push(path.clone());
        assert(texts(paths@) =~= texts(before).push(path@));
    }
    sizes.insert(path, size);
    proof {
        let keys = texts(paths@);
        let keys_before = texts(old(paths)@);
        assert forall|k: Seq<char>| #[trigger] sizes@.contains_key(k) implies keys.contains(k) by {
            if k == path@ {
                if old(sizes)@.contains_key(k) {
                    assert(keys_before.contains(k));
                } else {
                    assert(keys[keys.len() - 1] == k);
                }
            } else {
                assert(keys_before.contains(k));
                let i = choose|i: int| 0 <= i < keys_before.len() && keys_before[i] == k;
                assert(keys[i] == k);
            }
        }
    }
}

/// A map from a directory's path to its own size. Each path is held once; a
/// second insertion under one path replaces the size.
pub struct ResultMap {
    sizes: StringHashMap<u64>,
    paths: Vec<String>,
}

impl View for ResultMap {
    type V = Map<Seq<char>, u64>;

    closed spec fn view(&self) -> Map<Seq<char>, u64> {
        self.sizes@
    }
}

impl ResultMap {
    /// The paths are kept once each, and they are the keys of the sizes.
    pub closed spec fn wf(&self) -> bool {
        indexes(self.sizes@, self.paths@)
    }

    /// A well-formed map holds finitely many paths, so that the sum of its
    /// sizes is defined.
    pub proof fn keys_finite(&self)
        requires
            self.wf(),
        ensures
            self@.dom().finite(),
    {
        let keys = texts(self.paths@);
        vstd::seq_lib::seq_to_set_is_finite(keys);
        assert(self.sizes@.dom() =~= keys.to_set());
    }

    /// The map that holds nothing.
    pub fn new() -> (results: Self)
        ensures
            results.wf(),
            results@.dom().finite(),
            results@ == Map::<Seq<char>, u64>::empty(),
    {
        ResultMap { sizes: StringHashMap::new(), paths: Vec::new() }
    }

    /// Records `size` under `path`, in place of what stood there.
    pub fn insert(&mut self, path: String, size: u64)
        requires
            old(self).wf(),
        ensures
            final(self).wf(),
            final(self)@ == old(self)@.insert(path@, size),
            final(self)@.dom().finite(),
    {
        record(&mut self.sizes, &mut self.paths, path, size);
        proof {
            self.keys_finite();
        }
    }

    /// The size recorded under `path`, if there is one.
    pub fn get(&self, path: &str) -> (size: Option<u64>)
        ensures
            size == (if self@.contains_key(path@) {
                Some(self@[path@])
            } else {
                None
            }),
    {
        match self.sizes.get(path) {
            Some(size) => Some(*size),
            None => None,
        }
    }

    /// Whether a size is recorded under `path`.
    pub fn contains_key(&self, path: &str) -> (found: bool)
        ensures
            found == self@.contains_key(path@),
    {
        self.sizes.contains_key(path)
    }

    /// The number of paths held.
    pub fn len(&self) -> (n: usize)
        requires
            self.wf(),
        ensures
            self@.dom().finite(),
            n == self@.dom().len(),
    {
        proof {
            let keys = texts(self.paths@);
            vstd::seq_lib::seq_to_set_is_finite(keys);
            keys.unique_seq_to_set();
            assert(self.sizes@.dom() =~= keys.to_set());
        }
        self.paths.len()
    }

    /// Whether nothing is held.
    pub fn is_empty(&self) -> (empty: bool)
        requires
            self.wf(),
        ensures
            empty == (self@ == Map::<Seq<char>, u64>::empty()),
    {
        proof {
            let keys = texts(self.paths@);
            if keys.len() > 0 {
                assert(self.sizes@.contains_key(keys[0]));
            } else {
                assert(self.sizes@ =~= Map::<Seq<char>, u64>::empty()) by {
                    assert forall|k: Seq<char>| !self.sizes@.contains_key(k) by {
                        if self.sizes@.contains_key(k) {
                            assert(keys.contains(k));
                        }
                    }
                }
            }
        }
        self.paths.len() == 0
    }

    /// Every path held, each once, with its size.
    pub fn entries(&self) -> (rows: Vec<(String, u64)>)
        requires
            self.wf(),
        ensures
            self@.dom().finite(),
            lists(row_views(rows@), self@),
            rows@.len() == self@.dom().len(),
    {
        proof {
            self.keys_finite();
        }
        let ghost keys = texts(self.paths@);
        let mut rows: Vec<(String, u64)> = Vec::new();
        let mut i: usize = 0;
        while i < self.paths.len()
            invariant
                0 <= i <= self.paths.len(),
                indexes(self.sizes@, self.paths@),
                keys == texts(self.paths@),
                rows@.len() == i,
                forall|j: int|
                    0 <= j < i ==> (#[trigger] rows@[j]).0@ == keys[j] && rows@[j].1
                        == self.sizes@[keys[j]],
            decreases self.paths.len() - i,
        {
            let path = &self.paths[i];
            assert(self.sizes@.contains_key(keys[i as int]));
            let size = match self.sizes.get(path.as_str()) {
                Some(size) => *size,
                None => 0,
            };
            rows.push((path.clone(), size));
            i += 1;
        }
        proof {
            let listed = row_views(rows@);
            assert forall|k: Seq<char>| #[trigger] self@.contains_key(k) implies exists|i: int|
                0 <= i < listed.len() && #[trigger] listed[i].0 == k by {
                assert(keys.contains(k));
                let i = choose|i: int| 0 <= i < keys.len() && keys[i] == k;
                assert(listed[i].0 == k);
            }
            keys.unique_seq_to_set();
            assert(self.sizes@.dom() =~= keys.to_set());
        }
        rows
    }

    /// The sum of all sizes held, where it fits in 64 bits.
    pub fn total(&self) -> (sum: Option<u64>)
        requires
            self.wf(),
        ensures
            self@.dom().finite(),
            sum == (if total(self@) <= u64::MAX {
                Some(total(self@) as u64)
            } else {
                None
            }),
    {
        proof {
            self.keys_finite();
        }
        let ghost keys = texts(self.paths@);
        let mut sum: u128 = 0;
        let mut i: usize = 0;
        proof {
            assert(self.sizes@.restrict(keys.take(0).to_set()) =~= Map::<Seq<char>, u64>::empty());
        }
        while i < self.paths.len()
            invariant
                0 <= i <= self.paths.len(),
                indexes(self.sizes@, self.paths@),
                keys == texts(self.paths@),
                sum == total(self.sizes@.restrict(keys.take(i as int).to_set())),
                sum <= i * 0xFFFF_FFFF_FFFF_FFFF,
            decreases self.paths.len() - i,
        {
            let path = &self.paths[i];
            assert(self.sizes@.contains_key(keys[i as int]));
            let size = match self.sizes.get(path.as_str()) {
                Some(size) => *size,
                None => 0,
            };
            proof {
                let seen = keys.take(i as int);
                let part = self.sizes@.restrict(seen.to_set());
                vstd::seq_lib::seq_to_set_is_finite(seen);
                assert(!seen.contains(keys[i as int]));
                assert(keys.take(i + 1) =~= seen.push(keys[i as int]));
                seen.lemma_push_to_set_commute(keys[i as int]);
                assert(part.dom() =~= seen.to_set());
                assert(self.sizes@.restrict(keys.take(i + 1).to_set()) =~= part.insert(
                    keys[i as int],
                    size,
                ));
                total_insert(part, keys[i as int], size);
                assert((i + 1) * 0xFFFF_FFFF_FFFF_FFFF == i * 0xFFFF_FFFF_FFFF_FFFF
                    + 0xFFFF_FFFF_FFFF_FFFF) by (nonlinear_arith);
                assert(i * 0xFFFF_FFFF_FFFF_FFFF <= 0xFFFF_FFFF_FFFF_FFFF * 0xFFFF_FFFF_FFFF_FFFF)
                    by (nonlinear_arith)
                    requires
                        0 <= i <= 0xFFFF_FFFF_FFFF_FFFF,
                ;
            }
            sum = sum + size as u128;
            i += 1;
        }
        proof {
            assert(keys.take(i as int) =~= keys);
            assert(self.sizes@.restrict(keys.to_set()) =~= self.sizes@);
        }
        if sum <= 0xFFFF_FFFF_FFFF_FFFF {
            Some(sum as u64)
        } else {
            None
        }
    }
}

} // verus!
