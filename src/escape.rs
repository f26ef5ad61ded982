use vstd::prelude::*;

verus! {

/// Where an escape-time scan stands.
///
/// Iteration `i` starts from the orbit value `z_i` (with `z_0 = 0`): the
/// caller checks whether `|z_i|^2` exceeds the escape bound and hands the
/// answer to [`Scan::advance`]. The scan finishes as soon as one check
/// exceeds the bound, or once `limit` checks have all stayed inside it.
#[derive(Clone, Copy, Debug, PartialEq, Eq, Structural)]
pub enum Scan {
    /// Waiting for the check of this iteration.
    Pending(usize),
    /// The check of this iteration exceeded the bound.
    Escaped(usize),
    /// Every iteration up to the limit stayed inside the bound.
    Bounded,
}

/// The first of the first `n` checks that exceeded the bound, if any.
pub open spec fn first_exceeding(checks: Seq<bool>, n: nat) -> Option<int>
    decreases checks.len(),
{
    if n == 0 || checks.len() == 0 {
        None
    } else if checks[0] {
        Some(0)
    } else {
        match first_exceeding(checks.drop_first(), (n - 1) as nat) {
            None => None,
            Some(k) => Some(k + 1),
        }
    }
}

impl Scan {
    /// The scan before any iteration has run.
    pub open spec fn start_spec(limit: nat) -> Scan {
        if limit == 0 {
            Scan::Bounded
        } else {
            Scan::Pending(0)
        }
    }

    /// One step of the scan: the check of the pending iteration is `exceeded`.
    pub open spec fn advance_spec(self, limit: nat, exceeded: bool) -> Scan {
        match self {
            Scan::Pending(i) => {
                if i >= limit {
                    Scan::Bounded
                } else if exceeded {
                    Scan::Escaped(i)
                } else if i + 1 >= limit {
                    Scan::Bounded
                } else {
                    Scan::Pending((i + 1) as usize)
                }
            },
            _ => self,
        }
    }

    /// The escape result of a finished scan.
    pub open spec fn outcome_spec(self) -> Option<int> {
        match self {
            Scan::Escaped(i) => Some(i as int),
            _ => None,
        }
    }

    /// A scan that has not yet run any iteration; with a limit of zero there
    /// is nothing to run and the point counts as bounded.
    pub fn start(limit: usize) -> (s: Scan)
        ensures
            s == Scan::start_spec(limit as nat),
    {
        if limit == 0 {
            Scan::Bounded
        } else {
            Scan::Pending(0)
        }
    }

    /// Whether the scan still waits for a check.
    pub fn is_pending(&self) -> (r: bool)
        ensures
            r == (*self is Pending),
    {
        match self {
            Scan::Pending(_) => true,
            _ => false,
        }
    }

    /// Takes the check of the pending iteration: an exceeded check ends the
    /// scan as escaped at that iteration, the last check below the limit ends
    /// it as bounded, any other moves on to the next iteration. A finished
    /// scan stays as it is.
    pub fn advance(self, limit: usize, exceeded: bool) -> (s: Scan)
        ensures
            s == self.advance_spec(limit as nat, exceeded),
    {
        match self {
            Scan::Pending(i) => {
                if i >= limit {
                    Scan::Bounded
                } else if exceeded {
                    Scan::Escaped(i)
                } else if i + 1 >= limit {
                    Scan::Bounded
                } else {
                    Scan::Pending(i + 1)
                }
            },
            _ => self,
        }
    }

    /// `Some(i)` for a scan that escaped at iteration `i`, `None` otherwise.
    pub fn outcome(&self) -> (r: Option<usize>)
        ensures
            r matches Some(i) ==> self.outcome_spec() == Some(i as int),
            r is None ==> self.outcome_spec() is None,
    {
        match self {
            Scan::Escaped(i) => Some(*i),
            _ => None,
        }
    }
}

/// The scan after it has been handed `checks` in order.
pub open spec fn settle(s: Scan, checks: Seq<bool>, limit: nat) -> Scan
    decreases checks.len(),
{
    if checks.len() == 0 {
        s
    } else {
        settle(s.advance_spec(limit, checks[0]), checks.drop_first(), limit)
    }
}

proof fn lemma_finished_stays(s: Scan, checks: Seq<bool>, limit: nat)
    requires
        !(s is Pending),
    ensures
        settle(s, checks, limit) == s,
    decreases checks.len(),
{
    if checks.len() > 0 {
        lemma_finished_stays(s, checks.drop_first(), limit);
    }
}

proof fn lemma_settle_from(i: usize, checks: Seq<bool>, limit: nat)
    requires
        limit <= usize::MAX,
        i < limit,
        checks.len() >= limit - i,
    ensures
        settle(Scan::Pending(i), checks, limit).outcome_spec() == (match first_exceeding(
            checks,
            (limit - i) as nat,
        ) {
            None => None,
            Some(k) => Some(k + i),
        }),
    decreases checks.len(),
{
    let next = Scan::Pending(i).advance_spec(limit, checks[0]);
    if checks[0] {
        lemma_finished_stays(next, checks.drop_first(), limit);
    } else if i + 1 >= limit {
        lemma_finished_stays(next, checks.drop_first(), limit);
        assert(first_exceeding(checks.drop_first(), 0) is None);
    } else {
        lemma_settle_from((i + 1) as usize, checks.drop_first(), limit);
    }
}

/// Which checks decide the first exceeding one: it is the earliest exceeded
/// check below `n`, and there is none exactly when no check below `n`
/// exceeded.
pub proof fn lemma_first_exceeding(checks: Seq<bool>, n: nat)
    requires
        checks.len() >= n,
    ensures
        first_exceeding(checks, n) is None <==> (forall|j: int| 0 <= j < n ==> !checks[j]),
        first_exceeding(checks, n) matches Some(k) ==> (0 <= k < n && checks[k] && forall|j: int|
            0 <= j < k ==> !checks[j]),
    decreases checks.len(),
{
    if n > 0 && checks.len() > 0 && !checks[0] {
        let rest = checks.drop_first();
        lemma_first_exceeding(rest, (n - 1) as nat);
        assert forall|j: int| 1 <= j < checks.len() implies checks[j] == rest[j - 1] by {}
        if forall|j: int| 0 <= j < n ==> !checks[j] {
            assert forall|j: int| 0 <= j < n - 1 implies !rest[j] by {
                assert(!checks[j + 1]);
            }
        }
    }
}

/// A scan started with `limit` and handed the checks of iterations
/// `0, 1, ...` in order ends with the first iteration below `limit` whose
/// check exceeded the bound, or bounded when there is none.
pub proof fn lemma_scan_result(checks: Seq<bool>, limit: usize)
    requires
        checks.len() >= limit,
    ensures
        settle(Scan::start_spec(limit as nat), checks, limit as nat).outcome_spec() == first_exceeding(
            checks,
            limit as nat,
        ),
{
    if limit == 0 {
        lemma_finished_stays(Scan::Bounded, checks, limit as nat);
    } else {
        lemma_settle_from(0, checks, limit as nat);
    }
}

/// A point whose orbit never exceeds the bound below `limit` (the origin,
/// which stays at zero) is bounded.
pub proof fn lemma_never_exceeding_is_bounded(checks: Seq<bool>, limit: usize)
    requires
        checks.len() >= limit,
        forall|j: int| 0 <= j < limit ==> !checks[j],
    ensures
        settle(Scan::start_spec(limit as nat), checks, limit as nat).outcome_spec() is None,
{
    lemma_scan_result(checks, limit);
    lemma_first_exceeding(checks, limit as nat);
}

/// A point whose orbit first exceeds the bound at iteration `k < limit`
/// escapes at `k`; a point outside the radius-2 disc has `z_0 = 0` inside
/// and `z_1 = c` outside, so it escapes at iteration 1 whenever `limit >= 2`.
pub proof fn lemma_first_exceeded_check_escapes(checks: Seq<bool>, limit: usize, k: int)
    requires
        checks.len() >= limit,
        0 <= k < limit,
        checks[k],
        forall|j: int| 0 <= j < k ==> !checks[j],
    ensures
        settle(Scan::start_spec(limit as nat), checks, limit as nat).outcome_spec() == Some(k),
{
    lemma_scan_result(checks, limit);
    lemma_first_exceeding(checks, limit as nat);
    match first_exceeding(checks, limit as nat) {
        Some(m) => {
            if m < k {
                assert(!checks[m]);
            } else if k < m {
                assert(!checks[k]);
            }
        },
        None => {
            assert(!checks[k]);
        },
    }
}

} // verus!
