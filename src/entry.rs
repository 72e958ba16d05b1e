use vstd::prelude::*;

verus! {

/// What the scan learns of one entry of a directory listing.
pub struct EntryMeta {
    pub path: String,
    /// Size in bytes.
    pub len: u64,
    /// Creation time, in nanoseconds relative to the Unix epoch.
    pub created: i128,
    pub is_dir: bool,
    pub is_symlink: bool,
}

impl EntryMeta {
    pub fn new(path: String, len: u64, created: i128, is_dir: bool, is_symlink: bool) -> (r:
        EntryMeta)
        ensures
            r.path@ == path@,
            r.len == len,
            r.created == created,
            r.is_dir == is_dir,
            r.is_symlink == is_symlink,
    {
        EntryMeta { path, len, created, is_dir, is_symlink }
    }

    /// Whether the scan descends into this entry: a directory that is not a symbolic link.
    pub fn is_subdir(&self) -> (r: bool)
        ensures
            r == is_subdir(*self),
    {
        self.is_dir && !self.is_symlink
    }
}

pub open spec fn is_subdir(e: EntryMeta) -> bool {
    e.is_dir && !e.is_symlink
}

/// Entry `i` of the listing `ls` comes before entry `j`: it was created earlier, or at
/// the same time and listed earlier.
pub open spec fn before(ls: Seq<EntryMeta>, i: int, j: int) -> bool {
    ls[i].created < ls[j].created || (ls[i].created == ls[j].created && i < j)
}

/// `order` holds every position of the listing `ls` once, oldest entry first.
pub open spec fn is_creation_order(ls: Seq<EntryMeta>, order: Seq<usize>) -> bool {
    &&& order.len() == ls.len()
    &&& forall|a: int| 0 <= a < order.len() ==> #[trigger] order[a] < ls.len()
    &&& forall|a: int, b: int|
        0 <= a < b < order.len() ==> before(ls, #[trigger] order[a] as int, #[trigger] order[b] as int)
    &&& forall|k: usize| k < ls.len() ==> #[trigger] order.contains(k)
}

/// The positions of the listing `ls`, oldest entry first; entries created at the same
/// time keep their listing order.
pub fn creation_order(ls: &Vec<EntryMeta>) -> (r: Vec<usize>)
    ensures
        is_creation_order(ls@, r@),
{
    let n = ls.len();
    let mut r: Vec<usize> = Vec::new();
    let mut i: usize = 0;
    while i < n
        invariant
            n == ls@.len(),
            i <= n,
            r@.len() == i,
            forall|a: int| 0 <= a < r@.len() ==> #[trigger] r@[a] < i,
            forall|a: int, b: int|
                0 <= a < b < r@.len() ==> before(ls@, #[trigger] r@[a] as int, #[trigger] r@[b] as int),
            forall|k: usize| k < i ==> #[trigger] r@.contains(k),
        decreases n - i,
    {
        let mut p: usize = r.len();
        while p > 0 && ls[r[p - 1]].created > ls[i].created
            invariant
                n == ls@.len(),
                i < n,
                p <= r@.len(),
                forall|a: int| 0 <= a < r@.len() ==> #[trigger] r@[a] < i,
                forall|a: int|
                    p <= a < r@.len() ==> ls@[#[trigger] r@[a] as int].created > ls@[i as int].created,
            decreases p,
        {
            p = p - 1;
        }
        proof {
            if p > 0 {
                assert(before(ls@, r@[p - 1] as int, i as int));
                assert forall|a: int| 0 <= a < p implies before(ls@, #[trigger] r@[a] as int, i as int) by {
                    if a < p - 1 {
                        assert(before(ls@, r@[a] as int, r@[p - 1] as int));
                    }
                }
            }
        }
        let ghost old_r = r@;
        r.insert(p, i);
        proof {
            assert forall|a: int, b: int|
                0 <= a < b < r@.len() implies before(ls@, #[trigger] r@[a] as int, #[trigger] r@[b] as int) by {
                if b < p {
                    assert(r@[a] == old_r[a] && r@[b] == old_r[b]);
                } else if b == p {
                    assert(r@[a] == old_r[a]);
                } else if a == p {
                    assert(r@[b] == old_r[b - 1]);
                } else if a < p {
                    assert(r@[a] == old_r[a] && r@[b] == old_r[b - 1]);
                } else {
                    assert(r@[a] == old_r[a - 1] && r@[b] == old_r[b - 1]);
                }
            }
            assert forall|k: usize| k < i + 1 implies #[trigger] r@.contains(k) by {
                if k == i {
                    assert(r@[p as int] == k);
                } else {
                    assert(old_r.contains(k));
                    let a = choose|a: int| 0 <= a < old_r.len() && old_r[a] == k;
                    if a < p {
                        assert(r@[a] == k);
                    } else {
                        assert(r@[a + 1] == k);
                    }
                }
            }
            assert forall|a: int| 0 <= a < r@.len() implies #[trigger] r@[a] < i + 1 by {
                if a < p {
                    assert(r@[a] == old_r[a]);
                } else if a > p {
                    assert(r@[a] == old_r[a - 1]);
                }
            }
        }
        i = i + 1;
    }
    r
}

} // verus!

verus! {

/// A listing has one creation order.
pub proof fn lemma_creation_order_unique(ls: Seq<EntryMeta>, o1: Seq<usize>, o2: Seq<usize>)
    requires
        is_creation_order(ls, o1),
        is_creation_order(ls, o2),
    ensures
        o1 == o2,
{
    assert forall|a: int| 0 <= a < o1.len() implies o1[a] == o2[a] by {
        lemma_same_at(ls, o1, o2, a);
    }
    assert(o1 =~= o2);
}

proof fn lemma_same_at(ls: Seq<EntryMeta>, o1: Seq<usize>, o2: Seq<usize>, a: int)
    requires
        is_creation_order(ls, o1),
        is_creation_order(ls, o2),
        0 <= a < o1.len(),
    ensures
        o1[a] == o2[a],
    decreases a,
{
    assert forall|b: int| 0 <= b < a implies o1[b] == o2[b] by {
        lemma_same_at(ls, o1, o2, b);
    }
    let x = o1[a];
    let y = o2[a];
    if x != y {
        assert(o2.contains(x));
        let a2 = choose|k: int| 0 <= k < o2.len() && o2[k] == x;
        assert(o1.contains(y));
        let a1 = choose|k: int| 0 <= k < o1.len() && o1[k] == y;
        if a2 < a {
            assert(o1[a2] == x);
            assert(before(ls, o1[a2] as int, o1[a] as int));
        }
        if a1 < a {
            assert(o2[a1] == y);
            assert(before(ls, o2[a1] as int, o2[a] as int));
        }
        assert(a2 > a && a1 > a);
        assert(before(ls, y as int, x as int));
        assert(before(ls, x as int, y as int));
    }
}

} // verus!
