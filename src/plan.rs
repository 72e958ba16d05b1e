use vstd::prelude::*;

use crate::entry::{
    before, creation_order, is_creation_order, is_subdir, lemma_creation_order_unique, EntryMeta,
};

verus! {

/// The files of one directory that share a size, oldest first, as positions of the
/// directory listing.
pub struct Bucket {
    pub len: u64,
    pub members: Vec<usize>,
}

/// What the scan does with one directory listing.
pub struct DirectoryPlan {
    /// Every position of the listing, oldest entry first.
    pub order: Vec<usize>,
    /// The subdirectories to descend into, oldest first.
    pub subdirs: Vec<usize>,
    /// The size buckets with at least two files, the only ones that are hashed.
    pub buckets: Vec<Bucket>,
}

pub open spec fn subdir_pred(ls: Seq<EntryMeta>) -> spec_fn(usize) -> bool {
    |i: usize| is_subdir(ls[i as int])
}

/// Position `i` of the listing is a file (anything the scan does not descend into) of
/// `len` bytes.
pub open spec fn file_of_len(ls: Seq<EntryMeta>, len: u64) -> spec_fn(usize) -> bool {
    |i: usize| !is_subdir(ls[i as int]) && ls[i as int].len == len
}

/// The files of the listing with `len` bytes, in the order `order`.
pub open spec fn size_group(ls: Seq<EntryMeta>, order: Seq<usize>, len: u64) -> Seq<usize> {
    order.filter(file_of_len(ls, len))
}

/// `buckets` holds, once each, the size groups of the files among `order` that have
/// at least `min` members.
pub open spec fn groups_from(
    ls: Seq<EntryMeta>,
    order: Seq<usize>,
    buckets: Seq<Bucket>,
    min: nat,
) -> bool {
    &&& forall|b: int|
        0 <= b < buckets.len() ==> {
            &&& (#[trigger] buckets[b]).members@ == size_group(ls, order, buckets[b].len)
            &&& buckets[b].members@.len() >= min
        }
    &&& forall|b: int, c: int|
        0 <= b < c < buckets.len() ==> (#[trigger] buckets[b]).len != (#[trigger] buckets[c]).len
    &&& forall|q: int|
        0 <= q < order.len() && !is_subdir(ls[order[q] as int]) && size_group(
            ls,
            order,
            ls[order[q] as int].len,
        ).len() >= min ==> exists|b: int|
            0 <= b < buckets.len() && (#[trigger] buckets[b]).len == ls[#[trigger] order[q] as int].len
}

/// `plan` is the plan of the listing `ls`.
pub open spec fn is_plan_of(ls: Seq<EntryMeta>, plan: DirectoryPlan) -> bool {
    &&& is_creation_order(ls, plan.order@)
    &&& plan.subdirs@ == plan.order@.filter(subdir_pred(ls))
    &&& groups_from(ls, plan.order@, plan.buckets@, 2)
}

proof fn lemma_filter_push(s: Seq<usize>, x: usize, p: spec_fn(usize) -> bool)
    ensures
        s.push(x).filter(p) == (if p(x) {
            s.filter(p).push(x)
        } else {
            s.filter(p)
        }),
{
    reveal(Seq::filter);
    assert(s.push(x).drop_last() =~= s);
}

pub open spec fn distinct_lens(bs: Seq<Bucket>) -> bool {
    forall|b: int, c: int| 0 <= b < c < bs.len() ==> (#[trigger] bs[b]).len != (#[trigger] bs[c]).len
}

/// `g` is one of the buckets `bs`.
pub open spec fn has_bucket(bs: Seq<Bucket>, g: Bucket) -> bool {
    exists|b: int| 0 <= b < bs.len() && bs[b] == g
}

/// The buckets of `groups` with at least two members.
fn keep_shared(groups: Vec<Bucket>) -> (buckets: Vec<Bucket>)
    requires
        distinct_lens(groups@),
    ensures
        distinct_lens(buckets@),
        forall|b: int| 0 <= b < buckets@.len() ==> (#[trigger] buckets@[b]).members@.len() >= 2,
        forall|b: int| 0 <= b < buckets@.len() ==> has_bucket(groups@, #[trigger] buckets@[b]),
        forall|c: int|
            0 <= c < groups@.len() && (#[trigger] groups@[c]).members@.len() >= 2 ==> has_bucket(
                buckets@,
                groups@[c],
            ),
{
    let mut groups = groups;
    let ghost all = groups@;
    let ghost mut src: Seq<int> = Seq::empty();
    let mut buckets: Vec<Bucket> = Vec::new();
    while groups.len() > 0
        invariant
            distinct_lens(all),
            groups@.len() <= all.len(),
            groups@ == all.take(groups@.len() as int),
            src.len() == buckets@.len(),
            forall|b: int|
                0 <= b < buckets@.len() ==> groups@.len() <= #[trigger] src[b] < all.len()
                    && all[src[b]] == buckets@[b],
            forall|b: int, c: int| 0 <= b < c < src.len() ==> #[trigger] src[b] > #[trigger] src[c],
            forall|b: int| 0 <= b < buckets@.len() ==> (#[trigger] buckets@[b]).members@.len() >= 2,
            forall|c: int|
                groups@.len() <= c < all.len() && (#[trigger] all[c]).members@.len() >= 2
                    ==> has_bucket(buckets@, all[c]),
        decreases groups@.len(),
    {
        let ghost n = groups@.len() - 1;
        let g = groups.pop().unwrap();
        assert(g == all[n]);
        assert(groups@ =~= all.take(n));
        if g.members.len() >= 2 {
            let ghost old_buckets = buckets@;
            buckets.push(g);
            proof {
                src = src.push(n);
                assert forall|c: int|
                    n <= c < all.len() && (#[trigger] all[c]).members@.len() >= 2 implies has_bucket(
                        buckets@,
                        all[c],
                    ) by {
                    if c == n {
                        assert(buckets@[old_buckets.len() as int] == all[c]);
                    } else {
                        assert(has_bucket(old_buckets, all[c]));
                        let b = choose|b: int| 0 <= b < old_buckets.len() && old_buckets[b] == all[c];
                        assert(buckets@[b] == all[c]);
                    }
                }
                assert forall|b: int| 0 <= b < buckets@.len() implies n <= #[trigger] src[b] < all.len()
                    && all[src[b]] == buckets@[b] by {
                    if b < old_buckets.len() {
                        assert(buckets@[b] == old_buckets[b]);
                    }
                }
            }
        }
    }
    assert forall|b: int, c: int| 0 <= b < c < buckets@.len() implies (#[trigger] buckets@[b]).len
        != (#[trigger] buckets@[c]).len by {
        assert(src[b] > src[c]);
        assert(all[src[c]].len != all[src[b]].len);
    }
    assert forall|b: int| 0 <= b < buckets@.len() implies has_bucket(all, #[trigger] buckets@[b]) by {
        assert(all[src[b]] == buckets@[b]);
    }
    buckets
}

/// Splits a directory listing into the subdirectories to descend into and the size
/// buckets to hash, both oldest first.
pub fn plan_directory(ls: &Vec<EntryMeta>) -> (r: DirectoryPlan)
    ensures
        is_plan_of(ls@, r),
{
    let order = creation_order(ls);
    let mut subdirs: Vec<usize> = Vec::new();
    let mut groups: Vec<Bucket> = Vec::new();
    let mut k: usize = 0;
    while k < order.len()
        invariant
            is_creation_order(ls@, order@),
            k <= order@.len(),
            subdirs@ == order@.take(k as int).filter(subdir_pred(ls@)),
            groups_from(ls@, order@.take(k as int), groups@, 1),
        decreases order@.len() - k,
    {
        let i = order[k];
        let ghost pre = order@.take(k as int);
        let ghost post = order@.take(k + 1);
        assert(post =~= pre.push(i));
        proof {
            lemma_filter_push(pre, i, subdir_pred(ls@));
        }
        if ls[i].is_subdir() {
            subdirs.push(i);
            assert forall|b: int| 0 <= b < groups@.len() implies (#[trigger] groups@[b]).members@ == size_group(ls@, post, groups@[b].len) by {
                lemma_filter_push(pre, i, file_of_len(ls@, groups@[b].len));
            }
            assert forall|q: int|
                0 <= q < post.len() && !is_subdir(ls@[post[q] as int]) && size_group(
                    ls@,
                    post,
                    ls@[post[q] as int].len,
                ).len() >= 1 implies exists|b: int|
                    0 <= b < groups@.len() && (#[trigger] groups@[b]).len == ls@[#[trigger] post[q] as int].len by {
                assert(q < pre.len());
                assert(pre[q] == post[q]);
                lemma_filter_push(pre, i, file_of_len(ls@, ls@[post[q] as int].len));
                assert(size_group(ls@, pre, ls@[pre[q] as int].len).len() >= 1);
            }
        } else {
            let len = ls[i].len;
            let mut b: usize = 0;
            while b < groups.len() && groups[b].len != len
                invariant
                    b <= groups@.len(),
                    forall|c: int| 0 <= c < b ==> (#[trigger] groups@[c]).len != len,
                decreases groups@.len() - b,
            {
                b = b + 1;
            }
            let ghost old_groups = groups@;
            proof {
                lemma_filter_push(pre, i, file_of_len(ls@, len));
            }
            if b < groups.len() {
                groups[b].members.push(i);
                assert forall|c: int| 0 <= c < groups@.len() implies {
                    &&& (#[trigger] groups@[c]).members@ == size_group(ls@, post, groups@[c].len)
                    &&& groups@[c].members@.len() >= 1
                } by {
                    lemma_filter_push(pre, i, file_of_len(ls@, groups@[c].len));
                    if c != b {
                        assert(groups@[c] == old_groups[c]);
                    }
                }
                assert forall|c: int, d: int|
                    0 <= c < d < groups@.len() implies (#[trigger] groups@[c]).len != (#[trigger] groups@[d]).len by {
                    assert(old_groups[c].len == groups@[c].len);
                    assert(old_groups[d].len == groups@[d].len);
                }
                assert forall|q: int|
                    0 <= q < post.len() && !is_subdir(ls@[post[q] as int]) && size_group(
                        ls@,
                        post,
                        ls@[post[q] as int].len,
                    ).len() >= 1 implies exists|c: int|
                        0 <= c < groups@.len() && (#[trigger] groups@[c]).len == ls@[#[trigger] post[q] as int].len by {
                    if q < pre.len() {
                        assert(pre[q] == post[q]);
                        lemma_filter_push(pre, i, file_of_len(ls@, ls@[post[q] as int].len));
                        if size_group(ls@, pre, ls@[pre[q] as int].len).len() >= 1 {
                            let c = choose|c: int|
                                0 <= c < old_groups.len() && (#[trigger] old_groups[c]).len == ls@[#[trigger] pre[q] as int].len;
                            assert(groups@[c].len == old_groups[c].len);
                        } else {
                            assert(size_group(ls@, pre, ls@[pre[q] as int].len).len() == 0);
                            assert(false);
                        }
                    } else {
                        assert(groups@[b as int].len == len);
                    }
                }
            } else {
                let mut members: Vec<usize> = Vec::new();
                members.push(i);
                proof {
                    let g = size_group(ls@, pre, len);
                    if g.len() > 0 {
                        assert(g.contains(g[0]));
                        pre.lemma_filter_contains_rev(file_of_len(ls@, len), g[0]);
                        assert(pre.contains(g[0]));
                        let q = choose|q: int| 0 <= q < pre.len() && pre[q] == g[0];
                        assert(size_group(ls@, pre, ls@[pre[q] as int].len).len() >= 1);
                        let c = choose|c: int|
                            0 <= c < old_groups.len() && (#[trigger] old_groups[c]).len == ls@[#[trigger] pre[q] as int].len;
                    }
                    assert(g =~= Seq::<usize>::empty());
                    assert(members@ =~= g.push(i));
                }
                groups.push(Bucket { len, members });
                assert forall|c: int| 0 <= c < groups@.len() implies {
                    &&& (#[trigger] groups@[c]).members@ == size_group(ls@, post, groups@[c].len)
                    &&& groups@[c].members@.len() >= 1
                } by {
                    lemma_filter_push(pre, i, file_of_len(ls@, groups@[c].len));
                    if c < old_groups.len() {
                        assert(groups@[c] == old_groups[c]);
                    }
                }
                assert forall|c: int, d: int|
                    0 <= c < d < groups@.len() implies (#[trigger] groups@[c]).len != (#[trigger] groups@[d]).len by {
                    assert(old_groups[c].len == groups@[c].len);
                }
                assert forall|q: int|
                    0 <= q < post.len() && !is_subdir(ls@[post[q] as int]) && size_group(
                        ls@,
                        post,
                        ls@[post[q] as int].len,
                    ).len() >= 1 implies exists|c: int|
                        0 <= c < groups@.len() && (#[trigger] groups@[c]).len == ls@[#[trigger] post[q] as int].len by {
                    if q < pre.len() {
                        assert(pre[q] == post[q]);
                        lemma_filter_push(pre, i, file_of_len(ls@, ls@[post[q] as int].len));
                        if size_group(ls@, pre, ls@[pre[q] as int].len).len() >= 1 {
                            let c = choose|c: int|
                                0 <= c < old_groups.len() && (#[trigger] old_groups[c]).len == ls@[#[trigger] pre[q] as int].len;
                            assert(groups@[c].len == old_groups[c].len);
                        } else {
                            assert(size_group(ls@, pre, ls@[pre[q] as int].len).len() == 0);
                            assert(ls@[pre[q] as int].len == len);
                            assert(groups@[old_groups.len() as int].len == len);
                        }
                    } else {
                        assert(groups@[old_groups.len() as int].len == len);
                    }
                }
            }
        }
        k = k + 1;
    }
    assert(order@.take(order@.len() as int) =~= order@);
    let ghost all = groups@;
    let buckets = keep_shared(groups);
    assert forall|q: int|
        0 <= q < order@.len() && !is_subdir(ls@[order@[q] as int]) && size_group(
            ls@,
            order@,
            ls@[order@[q] as int].len,
        ).len() >= 2 implies exists|b: int|
            0 <= b < buckets@.len() && (#[trigger] buckets@[b]).len == ls@[#[trigger] order@[q] as int].len by {
        let c = choose|c: int|
            0 <= c < all.len() && (#[trigger] all[c]).len == ls@[#[trigger] order@[q] as int].len;
        assert(has_bucket(buckets@, all[c]));
        let b = choose|b: int| 0 <= b < buckets@.len() && buckets@[b] == all[c];
    }
    assert forall|b: int| 0 <= b < buckets@.len() implies {
        &&& (#[trigger] buckets@[b]).members@ == size_group(ls@, order@, buckets@[b].len)
        &&& buckets@[b].members@.len() >= 2
    } by {
        assert(has_bucket(all, buckets@[b]));
        let c = choose|c: int| 0 <= c < all.len() && all[c] == buckets@[b];
    }
    DirectoryPlan { order, subdirs, buckets }
}

} // verus!

verus! {

proof fn lemma_filter_no_duplicates(s: Seq<usize>, p: spec_fn(usize) -> bool)
    requires
        s.no_duplicates(),
    ensures
        s.filter(p).no_duplicates(),
    decreases s.len(),
{
    reveal(Seq::filter);
    if s.len() > 0 {
        let t = s.drop_last();
        assert forall|a: int, b: int| 0 <= a < b < t.len() implies t[a] != t[b] by {
            assert(t[a] == s[a] && t[b] == s[b]);
        }
        lemma_filter_no_duplicates(t, p);
        if p(s.last()) {
            let f = t.filter(p);
            if f.contains(s.last()) {
                t.lemma_filter_contains_rev(p, s.last());
                let k = choose|k: int| 0 <= k < t.len() && t[k] == s.last();
                assert(s[k] == s[s.len() - 1]);
            }
            assert forall|a: int, b: int| 0 <= a < b < f.push(s.last()).len() implies f.push(
                s.last(),
            )[a] != f.push(s.last())[b] by {
                if b == f.len() {
                    assert(f.contains(f[a]));
                }
            }
        }
    }
}

/// A file whose size no other file of its directory has lies in no hashed bucket.
pub proof fn lemma_unique_size_not_hashed(ls: Seq<EntryMeta>, plan: DirectoryPlan, i: usize)
    requires
        is_plan_of(ls, plan),
        i < ls.len(),
        !is_subdir(ls[i as int]),
        forall|j: int|
            0 <= j < ls.len() && j != i && !is_subdir(#[trigger] ls[j]) ==> ls[j].len != ls[i as int].len,
    ensures
        forall|b: int| 0 <= b < plan.buckets@.len() ==> !(#[trigger] plan.buckets@[b]).members@.contains(i),
{
    let order = plan.order@;
    assert forall|a: int, b: int| 0 <= a < b < order.len() implies order[a] != order[b] by {
        assert(before(ls, order[a] as int, order[b] as int));
    }
    assert forall|b: int| 0 <= b < plan.buckets@.len() implies !(#[trigger] plan.buckets@[b]).members@.contains(i) by {
        let bk = plan.buckets@[b];
        let m = bk.members@;
        let p = file_of_len(ls, bk.len);
        lemma_filter_no_duplicates(order, p);
        order.lemma_filter_pred(p, 0);
        order.lemma_filter_pred(p, 1);
        if m.contains(i) {
            let k = choose|k: int| 0 <= k < m.len() && m[k] == i;
            order.lemma_filter_pred(p, k);
            assert forall|x: int| 0 <= x < m.len() implies m[x] == i by {
                order.lemma_filter_pred(p, x);
                assert(m.contains(m[x]));
                order.lemma_filter_contains_rev(p, m[x]);
                let y = choose|y: int| 0 <= y < order.len() && order[y] == m[x];
                assert(order[y] < ls.len());
                if m[x] != i {
                    assert(ls[m[x] as int].len != ls[i as int].len);
                }
            }
            assert(m[0] == m[1]);
        }
    }
}

} // verus!

verus! {

/// One of the buckets `bs` has the size and the members of `g`.
pub open spec fn has_group(bs: Seq<Bucket>, g: Bucket) -> bool {
    exists|c: int| 0 <= c < bs.len() && bs[c].len == g.len && bs[c].members@ == g.members@
}

/// A listing has one plan, up to the order of its buckets: the same entry order, the
/// same subdirectories, and the same members in the bucket of each size. A dry run
/// repeated over an unchanged tree therefore hashes the same files in the same order.
pub proof fn lemma_plan_unique(ls: Seq<EntryMeta>, first: DirectoryPlan, second: DirectoryPlan)
    requires
        is_plan_of(ls, first),
        is_plan_of(ls, second),
    ensures
        first.order@ == second.order@,
        first.subdirs@ == second.subdirs@,
        forall|b: int| 0 <= b < first.buckets@.len() ==> has_group(second.buckets@, #[trigger] first.buckets@[b]),
{
    lemma_creation_order_unique(ls, first.order@, second.order@);
    let order = first.order@;
    assert forall|b: int| 0 <= b < first.buckets@.len() implies has_group(second.buckets@, #[trigger] first.buckets@[b]) by {
        let bk = first.buckets@[b];
        let m = bk.members@;
        let p = file_of_len(ls, bk.len);
        order.lemma_filter_pred(p, 0);
        assert(m.contains(m[0]));
        order.lemma_filter_contains_rev(p, m[0]);
        let q = choose|q: int| 0 <= q < order.len() && order[q] == m[0];
        assert(size_group(ls, order, ls[order[q] as int].len) == m);
        let c = choose|c: int|
            0 <= c < second.buckets@.len() && (#[trigger] second.buckets@[c]).len == ls[#[trigger] second.order@[q] as int].len;
    }
}

} // verus!
