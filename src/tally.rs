use vstd::prelude::*;
use vstd::seq_lib::{commutative_foldl, lemma_fold_left_permutation};

verus! {

/// A condition that ends the scan of a tree; each names the path it arose on and the
/// cause the operating system gave.
pub enum ScanError {
    DirectoryUnreadable { path: String, cause: String },
    MetadataUnavailable { path: String, cause: String },
    TimestampUnsupported { path: String, cause: String },
    FileReadFailed { path: String, cause: String },
    DeleteFailed { path: String, cause: String },
    LinkFailed { path: String, cause: String },
    /// Links were asked for on a platform that cannot make them.
    LinksUnsupported,
}

/// What to do once an error has been observed.
#[derive(PartialEq, Eq, Structural, Clone, Copy)]
pub enum ErrorPolicy {
    /// Start no new work.
    FailFast,
    /// Let all work run, then report the first error.
    BestEffort,
}

/// The outcome of the work done so far: the number of duplicates found, and the first
/// error met, if any.
pub struct Tally {
    pub duplicates: u64,
    pub error: Option<ScanError>,
}

/// `a + b`, held at `u64::MAX`.
pub open spec fn sat_add(a: u64, b: u64) -> u64 {
    if a + b > u64::MAX {
        u64::MAX
    } else {
        (a + b) as u64
    }
}

/// Two outcomes taken together: the counts add up, and the first one's error comes first.
pub open spec fn join_spec(a: Tally, b: Tally) -> Tally {
    Tally {
        duplicates: sat_add(a.duplicates, b.duplicates),
        error: if a.error is Some {
            a.error
        } else {
            b.error
        },
    }
}

pub open spec fn empty_tally() -> Tally {
    Tally { duplicates: 0, error: None }
}

/// The outcomes `ts` taken together, in that order.
pub open spec fn joined(ts: Seq<Tally>) -> Tally
    decreases ts.len(),
{
    if ts.len() == 0 {
        empty_tally()
    } else {
        join_spec(joined(ts.drop_last()), ts.last())
    }
}

/// The total number of duplicates that the outcomes `ts` report.
pub open spec fn sum_duplicates(ts: Seq<Tally>) -> nat
    decreases ts.len(),
{
    if ts.len() == 0 {
        0
    } else {
        sum_duplicates(ts.drop_last()) + ts.last().duplicates as nat
    }
}

impl Tally {
    /// The outcome of no work.
    pub fn new() -> (r: Tally)
        ensures
            r == empty_tally(),
    {
        Tally { duplicates: 0, error: None }
    }

    /// Counts one more duplicate.
    pub fn record_duplicate(&mut self)
        ensures
            final(self).duplicates == sat_add(old(self).duplicates, 1),
            final(self).error == old(self).error,
    {
        self.duplicates = self.duplicates.saturating_add(1);
    }

    /// Records an error; only the first one is kept.
    pub fn record_error(&mut self, e: ScanError)
        ensures
            final(self).duplicates == old(self).duplicates,
            final(self).error == (if old(self).error is Some {
                old(self).error
            } else {
                Some(e)
            }),
    {
        if self.error.is_none() {
            self.error = Some(e);
        }
    }

    /// Takes two outcomes together, `self` first.
    pub fn join(self, other: Tally) -> (r: Tally)
        ensures
            r == join_spec(self, other),
    {
        let duplicates = self.duplicates.saturating_add(other.duplicates);
        let error = match self.error {
            Some(e) => Some(e),
            None => other.error,
        };
        Tally { duplicates, error }
    }

    /// Whether new work may start under `policy`.
    pub fn may_start_work(&self, policy: ErrorPolicy) -> (r: bool)
        ensures
            r == (policy == ErrorPolicy::BestEffort || self.error is None),
    {
        match policy {
            ErrorPolicy::BestEffort => true,
            ErrorPolicy::FailFast => self.error.is_none(),
        }
    }
}

/// Takes the outcomes `ts` together, in order.
pub fn join_all(ts: Vec<Tally>) -> (r: Tally)
    ensures
        r == joined(ts@),
{
    let ghost all = ts@;
    let mut rest = ts;
    let mut acc = Tally::new();
    while rest.len() > 0
        invariant
            rest@.len() <= all.len(),
            rest@ == all.subrange(all.len() - rest@.len(), all.len() as int),
            acc == joined(all.take(all.len() - rest@.len())),
        decreases rest@.len(),
    {
        let ghost done = all.len() - rest@.len();
        let t = rest.remove(0);
        assert(all.take(done + 1).drop_last() =~= all.take(done));
        assert(rest@ =~= all.subrange(done + 1, all.len() as int));
        acc = acc.join(t);
    }
    assert(all.take(all.len() as int) =~= all);
    acc
}

spec fn add_count(acc: u64, t: Tally) -> u64 {
    sat_add(acc, t.duplicates)
}

proof fn lemma_joined_counts(ts: Seq<Tally>)
    ensures
        joined(ts).duplicates == ts.fold_left(0u64, |acc: u64, t: Tally| add_count(acc, t)),
        joined(ts).duplicates == if sum_duplicates(ts) > u64::MAX {
            u64::MAX as nat
        } else {
            sum_duplicates(ts)
        },
    decreases ts.len(),
{
    if ts.len() > 0 {
        lemma_joined_counts(ts.drop_last());
    }
}

/// The total number of duplicates found in a tree does not depend on the order in
/// which the directories' outcomes are taken together: it is the sum of their counts,
/// held at `u64::MAX`.
pub proof fn lemma_total_independent_of_order(a: Seq<Tally>, b: Seq<Tally>)
    requires
        a.to_multiset() == b.to_multiset(),
    ensures
        joined(a).duplicates == joined(b).duplicates,
        joined(a).duplicates == if sum_duplicates(a) > u64::MAX {
            u64::MAX as nat
        } else {
            sum_duplicates(a)
        },
{
    let f = |acc: u64, t: Tally| add_count(acc, t);
    assert(commutative_foldl(f));
    lemma_fold_left_permutation(a, b, f, 0u64);
    lemma_joined_counts(a);
    lemma_joined_counts(b);
}

} // verus!
