use vstd::prelude::*;

use crate::digest::{sha1_digest, sha1_of};

verus! {

/// Classification of the file at position `i` of a size bucket whose files, in
/// creation order, have the digests `ds`: `None` when it is canonical, `Some(j)` when
/// it duplicates the file at position `j`, the first one with the same digest.
pub open spec fn verdict(ds: Seq<Seq<u8>>, i: int) -> Option<int> {
    ds.take(i).index_of_first(ds[i])
}

/// A position returned by the resolver, as a mathematical integer.
pub open spec fn opt_int(o: Option<usize>) -> Option<int> {
    match o {
        Some(j) => Some(j as int),
        None => None,
    }
}

/// The digests of a sequence of file contents.
pub open spec fn digests_of(contents: Seq<Seq<u8>>) -> Seq<Seq<u8>> {
    contents.map_values(|c: Seq<u8>| sha1_of(c))
}

spec fn registered(canonical: Seq<(Vec<u8>, usize)>, d: Seq<u8>) -> bool {
    exists|t: int| 0 <= t < canonical.len() && (#[trigger] canonical[t]).0@ == d
}

/// Appending to a sequence keeps the first occurrence of a value that it holds, and
/// makes the appended position the first occurrence of a value that it lacks.
proof fn lemma_first_after_push(s: Seq<Seq<u8>>, x: Seq<u8>, d: Seq<u8>)
    ensures
        s.index_of_first(d) is Some ==> s.push(x).index_of_first(d) == s.index_of_first(d),
        s.index_of_first(d) is None && x == d ==> s.push(x).index_of_first(d) == Some(s.len() as int),
{
    let t = s.push(x);
    s.index_of_first_ensures(d);
    t.index_of_first_ensures(d);
    if s.contains(d) {
        let j = s.index_of_first(d).unwrap();
        assert(t[j] == d);
        let i = t.index_of_first(d).unwrap();
        if i < j {
            assert(s[i] == t[i]);
        }
    } else if x == d {
        assert(t[s.len() as int] == d);
        let i = t.index_of_first(d).unwrap();
        if i < s.len() {
            assert(s[i] == t[i]);
        }
    }
}

/// Classifies the files of one size bucket, one at a time, in creation order.
pub struct BucketResolver {
    /// For each digest seen so far, the position of its first file.
    canonical: Vec<(Vec<u8>, usize)>,
    classified: usize,
    seen: Ghost<Seq<Seq<u8>>>,
}

impl View for BucketResolver {
    type V = Seq<Seq<u8>>;

    /// The digests of the files classified so far, in order.
    closed spec fn view(&self) -> Seq<Seq<u8>> {
        self.seen@
    }
}

impl BucketResolver {
    /// Each registered digest maps to the position of its first file, and every digest
    /// seen so far is registered.
    pub closed spec fn wf(&self) -> bool {
        &&& self.classified == self.seen@.len()
        &&& forall|t: int|
            0 <= t < self.canonical@.len() ==> {
                let (d, j) = #[trigger] self.canonical@[t];
                &&& j < self.seen@.len()
                &&& self.seen@.index_of_first(d@) == Some(j as int)
            }
        &&& forall|k: int|
            0 <= k < self.seen@.len() ==> registered(self.canonical@, #[trigger] self.seen@[k])
    }

    /// A resolver for a bucket of which nothing has been classified yet.
    pub fn new() -> (r: BucketResolver)
        ensures
            r.wf(),
            r@ == Seq::<Seq<u8>>::empty(),
    {
        BucketResolver { canonical: Vec::new(), classified: 0, seen: Ghost(Seq::empty()) }
    }

    /// Number of files classified so far.
    pub fn classified(&self) -> (r: usize)
        requires
            self.wf(),
        ensures
            r == self@.len(),
    {
        self.classified
    }

    /// Classifies the next file of the bucket by its digest: `None` makes it canonical
    /// for that digest, `Some(j)` says it duplicates the file at position `j`.
    pub fn classify(&mut self, digest: Vec<u8>) -> (r: Option<usize>)
        requires
            old(self).wf(),
            old(self)@.len() < usize::MAX,
        ensures
            final(self).wf(),
            final(self)@ == old(self)@.push(digest@),
            opt_int(r) == verdict(final(self)@, old(self)@.len() as int),
    {
        let ghost old_seen = self.seen@;
        let ghost new_seen = old_seen.push(digest@);
        let ghost n = old_seen.len() as int;
        assert(new_seen.take(n) =~= old_seen);
        proof {
            old_seen.index_of_first_ensures(digest@);
        }
        let mut t: usize = 0;
        while t < self.canonical.len()
            invariant
                self.wf(),
                self.seen@ == old_seen,
                new_seen == old_seen.push(digest@),
                n == old_seen.len(),
                n < usize::MAX,
                old_seen == old(self)@,
                t <= self.canonical@.len(),
                forall|u: int| 0 <= u < t ==> (#[trigger] self.canonical@[u]).0@ != digest@,
            decreases self.canonical@.len() - t,
        {
            if self.canonical[t].0 == digest {
                let j = self.canonical[t].1;
                assert(self.canonical@[t as int].0@ == digest@);
                assert(new_seen.take(n) =~= old_seen);
                assert(new_seen[n] == digest@);
                proof {
                    self.seen@ = new_seen;
                }
                self.classified = self.classified + 1;
                assert forall|k: int| 0 <= k < new_seen.len() implies registered(
                    self.canonical@,
                    #[trigger] new_seen[k],
                ) by {
                    if k < n {
                        assert(old_seen[k] == new_seen[k]);
                    } else {
                        assert(self.canonical@[t as int].0@ == new_seen[k]);
                    }
                }
                assert forall|u: int| 0 <= u < self.canonical@.len() implies {
                    let (d, j) = #[trigger] self.canonical@[u];
                    &&& j < new_seen.len()
                    &&& new_seen.index_of_first(d@) == Some(j as int)
                } by {
                    let (d, j) = self.canonical@[u];
                    lemma_first_after_push(old_seen, digest@, d@);
                }
                return Some(j);
            }
            t = t + 1;
        }
        assert forall|k: int| 0 <= k < n implies #[trigger] old_seen[k] != digest@ by {
            assert(registered(self.canonical@, old_seen[k]));
            let u = choose|u: int|
                0 <= u < self.canonical@.len() && (#[trigger] self.canonical@[u]).0@
                    == old_seen[k];
            assert(self.canonical@[u].0@ != digest@);
        }
        let pos = self.classified;
        let ghost old_canon = self.canonical@;
        self.canonical.push((digest, pos));
        proof {
            self.seen@ = new_seen;
        }
        self.classified = self.classified + 1;
        assert forall|k: int| 0 <= k < new_seen.len() implies registered(
            self.canonical@,
            #[trigger] new_seen[k],
        ) by {
            if k < n {
                assert(registered(old_canon, old_seen[k]));
                let u = choose|u: int|
                    0 <= u < old_canon.len() && (#[trigger] old_canon[u]).0@ == old_seen[k];
                assert(old_canon[u] == self.canonical@[u]);
                assert(self.canonical@[u].0@ == new_seen[k]);
            } else {
                assert(self.canonical@[old_canon.len() as int].0@ == new_seen[k]);
            }
        }
        assert forall|u: int| 0 <= u < self.canonical@.len() implies {
            let (d, j) = #[trigger] self.canonical@[u];
            &&& j < new_seen.len()
            &&& new_seen.index_of_first(d@) == Some(j as int)
        } by {
            let (d, j) = self.canonical@[u];
            lemma_first_after_push(old_seen, digest@, d@);
            if u < old_canon.len() {
                assert(old_canon[u] == self.canonical@[u]);
            } else {
                assert(!old_seen.contains(digest@));
            }
        }
        None
    }

    /// Classifies the next file of the bucket by its content, through its SHA-1 digest.
    pub fn classify_content(&mut self, content: &[u8]) -> (r: Option<usize>)
        requires
            old(self).wf(),
            old(self)@.len() < usize::MAX,
        ensures
            final(self).wf(),
            final(self)@ == old(self)@.push(sha1_of(content@)),
            opt_int(r) == verdict(final(self)@, old(self)@.len() as int),
    {
        let digest = sha1_digest(content);
        self.classify(digest)
    }
}

/// Walks one size bucket: says which file to read next and, once its content is read,
/// whether it duplicates an earlier one.
pub struct BucketScan {
    members: Vec<usize>,
    resolver: BucketResolver,
}

impl BucketScan {
    /// The resolver is sound and has classified a prefix of the members.
    pub closed spec fn wf(&self) -> bool {
        self.resolver.wf() && self.resolver@.len() <= self.members@.len()
    }

    /// The bucket's files, as positions of the directory listing, oldest first.
    pub closed spec fn members(&self) -> Seq<usize> {
        self.members@
    }

    /// The digests of the files classified so far.
    pub closed spec fn seen(&self) -> Seq<Seq<u8>> {
        self.resolver@
    }

    pub fn new(members: Vec<usize>) -> (r: BucketScan)
        ensures
            r.wf(),
            r.members() == members@,
            r.seen() == Seq::<Seq<u8>>::empty(),
    {
        BucketScan { members, resolver: BucketResolver::new() }
    }

    /// The listing position of the next file to read, or `None` once all are classified.
    pub fn next_file(&self) -> (r: Option<usize>)
        requires
            self.wf(),
        ensures
            self.seen().len() < self.members().len() ==> r == Some(
                self.members()[self.seen().len() as int],
            ),
            self.seen().len() == self.members().len() ==> r is None,
    {
        let k = self.resolver.classified();
        if k < self.members.len() {
            Some(self.members[k])
        } else {
            None
        }
    }

    /// Classifies the next file by its content: `Some(c)` when it duplicates the file at
    /// listing position `c`, the canonical one.
    pub fn on_content(&mut self, content: &[u8]) -> (r: Option<usize>)
        requires
            old(self).wf(),
            old(self).seen().len() < old(self).members().len(),
        ensures
            final(self).wf(),
            final(self).members() == old(self).members(),
            final(self).seen() == old(self).seen().push(sha1_of(content@)),
            match verdict(final(self).seen(), old(self).seen().len() as int) {
                Some(j) => r == Some(old(self).members()[j]),
                None => r is None,
            },
    {
        let ghost n = self.resolver@.len() as int;
        let total = self.members.len();
        assert(n < total);
        match self.resolver.classify_content(content) {
            Some(j) => {
                proof {
                    self.resolver@.take(n).index_of_first_ensures(self.resolver@[n]);
                }
                Some(self.members[j])
            },
            None => None,
        }
    }
}

/// Within one bucket, the first file with a given digest is kept and every later file
/// with that digest is a duplicate: two files with equal digests are never both kept,
/// and a file is kept when no earlier file shares its digest.
pub proof fn lemma_one_kept_per_digest(ds: Seq<Seq<u8>>, i: int, j: int)
    requires
        0 <= i < ds.len(),
        0 <= j < ds.len(),
    ensures
        i < j && ds[i] == ds[j] ==> verdict(ds, j) is Some,
        verdict(ds, i) is None && verdict(ds, j) is None && ds[i] == ds[j] ==> i == j,
        (forall|k: int| 0 <= k < i ==> ds[k] != ds[i]) ==> verdict(ds, i) is None,
{
    ds.take(i).index_of_first_ensures(ds[i]);
    ds.take(j).index_of_first_ensures(ds[j]);
    if i < j && ds[i] == ds[j] {
        assert(ds.take(j)[i] == ds[j]);
    }
    if j < i && ds[i] == ds[j] {
        assert(ds.take(i)[j] == ds[i]);
    }
    if forall|k: int| 0 <= k < i ==> ds[k] != ds[i] {
        if ds.take(i).contains(ds[i]) {
            let k = choose|k: int| 0 <= k < i && ds.take(i)[k] == ds[i];
            assert(ds[k] == ds[i]);
        }
    }
}

/// Files with the same content in one bucket: every one but the oldest is a duplicate.
pub proof fn lemma_equal_content_removed(contents: Seq<Seq<u8>>, i: int, j: int)
    requires
        0 <= i < j < contents.len(),
        contents[i] == contents[j],
    ensures
        verdict(digests_of(contents), j) is Some,
{
    let ds = digests_of(contents);
    assert(ds[i] == ds[j]);
    lemma_one_kept_per_digest(ds, i, j);
}

/// A file is only ever a duplicate of an earlier file of its bucket with the same
/// digest, and that file is itself kept: a link put in place of the duplicate points at a
/// retained file whose digest equals its own.
pub proof fn lemma_duplicate_points_at_kept_equal(ds: Seq<Seq<u8>>, i: int)
    requires
        0 <= i < ds.len(),
        verdict(ds, i) is Some,
    ensures
        0 <= verdict(ds, i).unwrap() < i,
        ds[verdict(ds, i).unwrap()] == ds[i],
        verdict(ds, verdict(ds, i).unwrap()) is None,
{
    ds.take(i).index_of_first_ensures(ds[i]);
    let j = verdict(ds, i).unwrap();
    assert(ds.take(i)[j] == ds[j]);
    assert forall|k: int| 0 <= k < j implies ds[k] != ds[j] by {
        assert(ds.take(i)[k] == ds[k]);
    }
    lemma_one_kept_per_digest(ds, j, j);
}

} // verus!
