//! A table of paths, bucketed by a hash of their characters, so that finding
//! a path among many takes a few comparisons rather than one per path. The
//! paths are held as character vectors, whose equality Verus can follow,
//! rather than as `String` keys of std's hash collections, on which vstd's
//! specifications give nothing to prove lookups with.

use vstd::prelude::*;

verus! {

/// The 64-bit FNV-1a hash of the code points of `p`.
pub open spec fn path_hash(p: Seq<char>) -> u64
    decreases p.len(),
{
    if p.len() == 0 {
        0xcbf2_9ce4_8422_2325
    } else {
        ((((path_hash(p.drop_last()) ^ (p.last() as u32 as u64)) as nat) * 0x100_0000_01b3)
            % 0x1_0000_0000_0000_0000) as u64
    }
}

/// The hash of `p`.
fn hash_of(p: &Vec<char>) -> (h: u64)
    ensures
        h == path_hash(p@),
{
    let mut h: u64 = 0xcbf2_9ce4_8422_2325;
    let mut k: usize = 0;
    assert(p@.take(0) =~= Seq::<char>::empty());
    while k < p.len()
        invariant
            k <= p@.len(),
            h == path_hash(p@.take(k as int)),
        decreases p@.len() - k,
    {
        assert(p@.take(k + 1).drop_last() =~= p@.take(k as int));
        let c = p[k] as u32 as u64;
        let x: u128 = ((h ^ c) as u128) * 0x100_0000_01b3u128 % 0x1_0000_0000_0000_0000u128;
        h = x as u64;
        k = k + 1;
    }
    assert(p@.take(k as int) =~= p@);
    h
}

/// Whether `a` and `b` hold the same characters.
pub fn same_chars(a: &Vec<char>, b: &Vec<char>) -> (r: bool)
    ensures
        r == (a@ == b@),
{
    if a.len() != b.len() {
        return false;
    }
    let mut i: usize = 0;
    while i < a.len()
        invariant
            a@.len() == b@.len(),
            i <= a@.len(),
            forall|j: int| 0 <= j < i ==> a@[j] == b@[j],
        decreases a@.len() - i,
    {
        if a[i] != b[i] {
            return false;
        }
        i = i + 1;
    }
    assert(a@ =~= b@);
    true
}

/// Paths numbered in the order they were added, with the numbers of the
/// paths bucketed by hash.
pub struct PathTable {
    paths: Vec<Vec<char>>,
    buckets: Vec<Vec<usize>>,
}

impl PathTable {
    /// The paths, in the order they were added.
    pub closed spec fn view(&self) -> Seq<Seq<char>> {
        self.paths@.map_values(|p: Vec<char>| p@)
    }

    /// Every path sits in the bucket of its hash, a bucket holds only the
    /// numbers of paths with its hash, and in increasing order.
    pub closed spec fn wf(&self) -> bool {
        let b = self.buckets@.len();
        &&& b > 0
        &&& forall|q: int, r1: int, r2: int|
            0 <= q < b && 0 <= r1 < r2 < self.buckets@[q]@.len() ==> #[trigger] self.buckets@[q]@[r1]
                < #[trigger] self.buckets@[q]@[r2]
        &&& forall|k: int|
            0 <= k < self.paths@.len() ==> #[trigger] self.buckets@[(path_hash(self.paths@[k]@) % (b as u64)) as int]@.contains(k as usize)
        &&& forall|q: int, r: int|
            0 <= q < b && 0 <= r < self.buckets@[q]@.len() ==> {
                let k = #[trigger] self.buckets@[q]@[r];
                &&& k < self.paths@.len()
                &&& path_hash(self.paths@[k as int]@) % (b as u64) == q
            }
    }

    /// An empty table with about `size` buckets.
    pub fn new(size: usize) -> (t: Self)
        ensures
            t.wf(),
            t.view() == Seq::<Seq<char>>::empty(),
    {
        let b = if size == 0 { 1 } else { size };
        let mut buckets: Vec<Vec<usize>> = Vec::new();
        let mut i: usize = 0;
        while i < b
            invariant
                i <= b,
                buckets@.len() == i,
                forall|q: int| 0 <= q < i ==> #[trigger] buckets@[q]@ == Seq::<usize>::empty(),
            decreases b - i,
        {
            buckets.push(Vec::new());
            i = i + 1;
        }
        let t = PathTable { paths: Vec::new(), buckets };
        assert(t.view() =~= Seq::<Seq<char>>::empty());
        t
    }

    /// How many paths the table holds.
    pub fn len(&self) -> (n: usize)
        ensures
            n == self.view().len(),
    {
        self.paths.len()
    }

    /// Adds the path `p`, numbered after the others.
    pub fn add(&mut self, p: Vec<char>)
        requires
            old(self).wf(),
        ensures
            final(self).wf(),
            final(self).view() == old(self).view().push(p@),
    {
        let ghost old_paths = self.paths@;
        let ghost old_buckets = self.buckets@;
        let b = self.buckets.len();
        let h = hash_of(&p);
        let slot = (h % (b as u64)) as usize;
        let k = self.paths.len();
        self.paths.push(p);
        self.buckets[slot].push(k);
        let ghost bsz = b as u64;
        assert forall|j: int| 0 <= j < self.paths@.len() implies #[trigger] self.buckets@[(path_hash(
            self.paths@[j]@,
        ) % bsz) as int]@.contains(j as usize) by {
            let s = (path_hash(self.paths@[j]@) % bsz) as int;
            if j < k {
                assert(self.paths@[j] == old_paths[j]);
                assert(old_buckets[s]@.contains(j as usize));
                let w = choose|w: int| 0 <= w < old_buckets[s]@.len() && old_buckets[s]@[w] == j as usize;
                if s == slot as int {
                    assert(self.buckets@[s]@[w] == j as usize);
                } else {
                    assert(self.buckets@[s] == old_buckets[s]);
                }
            } else {
                assert(self.buckets@[slot as int]@.last() == k);
            }
        }
        assert forall|q: int, r: int|
            0 <= q < b && 0 <= r < self.buckets@[q]@.len() implies {
                let x = #[trigger] self.buckets@[q]@[r];
                &&& x < self.paths@.len()
                &&& path_hash(self.paths@[x as int]@) % bsz == q
            } by {
            let x = self.buckets@[q]@[r];
            if q == slot as int && r == self.buckets@[q]@.len() - 1 {
                assert(x == k);
            } else {
                if q == slot as int {
                    assert(x == old_buckets[q]@[r]);
                } else {
                    assert(self.buckets@[q] == old_buckets[q]);
                }
                assert(self.paths@[x as int] == old_paths[x as int]);
            }
        }
        assert forall|q: int, r1: int, r2: int|
            0 <= q < b && 0 <= r1 < r2 < self.buckets@[q]@.len() implies #[trigger] self.buckets@[q]@[r1]
                < #[trigger] self.buckets@[q]@[r2] by {
            if q == slot as int {
                let ob = old_buckets[q]@;
                if r2 == self.buckets@[q]@.len() - 1 {
                    assert(self.buckets@[q]@[r1] == ob[r1]);
                    assert(ob[r1] < old_paths.len());
                } else {
                    assert(self.buckets@[q]@[r1] == ob[r1] && self.buckets@[q]@[r2] == ob[r2]);
                }
            } else {
                assert(self.buckets@[q] == old_buckets[q]);
            }
        }
        assert(self.view() =~= old(self).view().push(p@));
    }

    /// The number of the first path equal to `p`, if the table holds one.
    pub fn find(&self, p: &Vec<char>) -> (r: Option<usize>)
        requires
            self.wf(),
        ensures
            match r {
                Some(k) => k < self.view().len() && self.view()[k as int] == p@ && forall|j: int|
                    0 <= j < k ==> #[trigger] self.view()[j] != p@,
                None => forall|k: int| 0 <= k < self.view().len() ==> #[trigger] self.view()[k] != p@,
            },
    {
        let b = self.buckets.len();
        let h = hash_of(p);
        let slot = (h % (b as u64)) as usize;
        let bucket = &self.buckets[slot];
        let n = self.paths.len();
        let mut r: usize = 0;
        while r < bucket.len()
            invariant
                self.wf(),
                b == self.buckets@.len(),
                slot < b,
                slot as u64 == path_hash(p@) % (b as u64),
                bucket == &self.buckets@[slot as int],
                r <= bucket@.len(),
                forall|w: int| 0 <= w < r ==> self.paths@[#[trigger] bucket@[w] as int]@ != p@,
            decreases bucket@.len() - r,
        {
            let k = bucket[r];
            assert(k < self.paths@.len());
            if same_chars(&self.paths[k], p) {
                assert forall|j: int| 0 <= j < k implies #[trigger] self.view()[j] != p@ by {
                    if self.view()[j] == p@ {
                        assert(self.paths@[j]@ == p@);
                        assert(self.buckets@[(path_hash(self.paths@[j]@) % (b as u64)) as int]@.contains(
                            j as usize,
                        ));
                        let w = choose|w: int| 0 <= w < bucket@.len() && bucket@[w] == j as usize;
                        if w >= r {
                            assert(w != r);
                            assert(bucket@[r as int] < bucket@[w]);
                        }
                    }
                }
                return Some(k);
            }
            r = r + 1;
        }
        assert forall|k: int| 0 <= k < self.view().len() implies #[trigger] self.view()[k] != p@ by {
            if self.view()[k] == p@ {
                assert(self.paths@[k]@ == p@);
                assert(k < n);
                assert(self.buckets@[(path_hash(self.paths@[k]@) % (b as u64)) as int]@.contains(
                    k as usize,
                ));
                assert(bucket@.contains(k as usize));
                let w = choose|w: int| 0 <= w < bucket@.len() && bucket@[w] == k as usize;
            }
        }
        None
    }
}

} // verus!

verus! {

/// A table of copies of `paths`, numbered as in `paths`.
pub fn table_of(paths: &Vec<Vec<char>>) -> (t: PathTable)
    ensures
        t.wf(),
        t@ == paths@.map_values(|p: Vec<char>| p@),
{
    let n = paths.len();
    let mut t = PathTable::new(n);
    let mut k: usize = 0;
    while k < n
        invariant
            k <= n == paths@.len(),
            t.wf(),
            t@ == paths@.take(k as int).map_values(|p: Vec<char>| p@),
        decreases n - k,
    {
        let mut copy: Vec<char> = Vec::new();
        let mut i: usize = 0;
        while i < paths[k].len()
            invariant
                k < n == paths@.len(),
                i <= paths@[k as int]@.len(),
                copy@ == paths@[k as int]@.take(i as int),
            decreases paths@[k as int]@.len() - i,
        {
            copy.push(paths[k][i]);
            i = i + 1;
            assert(copy@ =~= paths@[k as int]@.take(i as int));
        }
        assert(paths@[k as int]@.take(i as int) =~= paths@[k as int]@);
        t.add(copy);
        k = k + 1;
        assert(t@ =~= paths@.take(k as int).map_values(|p: Vec<char>| p@));
    }
    assert(paths@.take(n as int) =~= paths@);
    t
}

} // verus!
