//! The search for the last executed record of the index, as a state machine.
//!
//! Each query of the execution store is left to the caller: the machine says
//! which position to ask about, the caller reports whether that record has
//! been executed, and the machine narrows its range, until it names the last
//! executed position or finds that none has been executed. Each answer
//! spends one query of a budget that starts at `ceil(log2 N) + 1`, and at
//! zero for an empty index.

use vstd::prelude::*;

verus! {

/// What the search wants next.
#[derive(Clone, Copy, Debug, PartialEq, Eq)]
pub enum SearchStep {
    /// Report whether the record at this position has been executed.
    Query(usize),
    /// The search is over: the last executed position, or `None` when no
    /// record has been executed.
    Done(Option<usize>),
}

/// The state of the search, as numbers.
pub struct SearchModel {
    pub len: nat,
    pub left: nat,
    pub right: nat,
    pub verdict: Option<bool>,
}

/// The state before any query, over an index of `len` records.
pub open spec fn initial(len: nat) -> SearchModel {
    SearchModel { len, left: 0, right: if len == 0 { 0 } else { (len - 1) as nat }, verdict: None }
}

pub open spec fn search_wf(m: SearchModel) -> bool {
    &&& m.left <= m.right
    &&& m.len == 0 ==> m.right == 0
    &&& m.len > 0 ==> m.right < m.len
    &&& m.len <= usize::MAX
}

/// What to do in state `m`: ask about the middle of the open range, then
/// about the position the range closed on, then answer.
pub open spec fn next_step(m: SearchModel) -> SearchStep {
    if m.len == 0 {
        SearchStep::Done(None)
    } else {
        match m.verdict {
            None => if m.left < m.right {
                SearchStep::Query(((m.left + m.right) / 2) as usize)
            } else {
                SearchStep::Query(m.left as usize)
            },
            Some(true) => SearchStep::Done(Some(m.left as usize)),
            Some(false) => if m.left == 0 {
                SearchStep::Done(None)
            } else {
                SearchStep::Done(Some((m.left - 1) as usize))
            },
        }
    }
}

/// The state after the answer `executed` to the query of state `m`.
pub open spec fn after(m: SearchModel, executed: bool) -> SearchModel {
    if m.left < m.right {
        let mid = (m.left + m.right) / 2;
        if executed {
            SearchModel { left: (mid + 1) as nat, ..m }
        } else {
            SearchModel { right: mid, ..m }
        }
    } else {
        SearchModel { verdict: Some(executed), ..m }
    }
}

pub open spec fn search_measure(m: SearchModel) -> int {
    if m.verdict is None {
        m.right - m.left + 1
    } else {
        0
    }
}

/// The answer the search gives from state `m` when exactly the positions
/// below `k` have been executed.
pub open spec fn outcome(m: SearchModel, k: nat) -> Option<usize>
    decreases search_measure(m),
{
    if !search_wf(m) || search_measure(m) < 0 {
        None
    } else {
        match next_step(m) {
            SearchStep::Done(r) => r,
            SearchStep::Query(i) => if search_measure(after(m, (i as nat) < k)) < search_measure(
                m,
            ) {
                outcome(after(m, (i as nat) < k), k)
            } else {
                None
            },
        }
    }
}

proof fn lemma_outcome_from(m: SearchModel, k: nat)
    requires
        search_wf(m),
        m.len > 0,
        m.verdict is None,
        m.left <= k <= m.len,
        k <= m.right || m.right == m.len - 1,
    ensures
        outcome(m, k) == (if k == 0 {
            None
        } else {
            Some((k - 1) as usize)
        }),
    decreases search_measure(m),
{
    let i = match next_step(m) {
        SearchStep::Query(i) => i,
        SearchStep::Done(_) => 0,
    };
    let e = (i as nat) < k;
    let n = after(m, e);
    if m.left < m.right {
        assert(m.left <= (m.left + m.right) / 2 < m.right);
        assert(i as nat == (m.left + m.right) / 2);
        lemma_outcome_from(n, k);
        assert(outcome(m, k) == outcome(n, k));
    } else {
        assert(i as nat == m.left);
        assert(n.verdict == Some(e));
        assert(search_wf(n));
        assert(search_measure(n) == 0);
        if e {
            assert(m.left == k - 1);
            assert(next_step(n) == SearchStep::Done(Some(m.left as usize)));
        } else {
            assert(m.left == k);
        }
        assert(outcome(m, k) == outcome(n, k));
    }
}

/// The query index of a state that asks one.
pub open spec fn query_of(m: SearchModel) -> nat {
    match next_step(m) {
        SearchStep::Query(i) => i as nat,
        SearchStep::Done(_) => 0,
    }
}

/// Answering a query moves the search to a well-formed state with the same
/// outcome.
pub proof fn lemma_outcome_after(m: SearchModel, k: nat)
    requires
        search_wf(m),
        next_step(m) is Query,
    ensures
        search_wf(after(m, query_of(m) < k)),
        outcome(m, k) == outcome(after(m, query_of(m) < k), k),
{
    if m.left < m.right {
        assert(m.left <= (m.left + m.right) / 2 < m.right);
    }
}

/// The number of halvings that bring `w` to zero: its length in bits.
pub open spec fn bit_length(w: nat) -> nat
    decreases w,
{
    if w == 0 {
        0
    } else {
        1 + bit_length(w / 2)
    }
}

/// A bound on the queries still to come from state `m`: one per halving of
/// the open range, and one for the position it closes on.
pub open spec fn query_budget(m: SearchModel) -> nat {
    if m.len == 0 || m.verdict is Some {
        0
    } else {
        bit_length((m.right - m.left) as nat) + 1
    }
}

proof fn lemma_bit_length_monotone(a: nat, b: nat)
    requires
        a <= b,
    ensures
        bit_length(a) <= bit_length(b),
    decreases b,
{
    if a > 0 {
        lemma_bit_length_monotone(a / 2, b / 2);
    }
}

/// Every answer spends at least one query of the budget, whatever it is.
pub proof fn lemma_budget_decreases(m: SearchModel, executed: bool)
    requires
        search_wf(m),
        next_step(m) is Query,
    ensures
        query_budget(m) > 0,
        query_budget(after(m, executed)) < query_budget(m),
{
    if m.left < m.right {
        let w = (m.right - m.left) as nat;
        let mid = (m.left + m.right) / 2;
        let n = after(m, executed);
        assert(n.right - n.left <= w / 2);
        lemma_bit_length_monotone((n.right - n.left) as nat, w / 2);
    }
}

/// A search over `n` records asks at most `bit_length(n - 1) + 1` queries,
/// that is the ceiling of `log2(n)` plus one, and none over an empty index.
pub proof fn lemma_initial_budget(n: nat)
    ensures
        query_budget(initial(n)) == (if n == 0 {
            0
        } else {
            bit_length((n - 1) as nat) + 1
        }),
{
}

/// Over an index of `n` records of which exactly the first `k` have been
/// executed, the search names position `k - 1`, or none when `k` is 0.
pub proof fn lemma_search_finds_boundary(n: nat, k: nat)
    requires
        1 <= n <= usize::MAX,
        k <= n,
    ensures
        outcome(initial(n), k) == (if k == 0 {
            None
        } else {
            Some((k - 1) as usize)
        }),
{
    lemma_outcome_from(initial(n), k);
}

/// Over an empty index the search is over before any query, with no result.
pub proof fn lemma_search_empty_index()
    ensures
        next_step(initial(0)) == SearchStep::Done(None),
{
}

/// The search for the last executed position of an index.
pub struct LastExecutedSearch {
    len: usize,
    left: usize,
    right: usize,
    verdict: Option<bool>,
}

impl View for LastExecutedSearch {
    type V = SearchModel;

    closed spec fn view(&self) -> SearchModel {
        SearchModel {
            len: self.len as nat,
            left: self.left as nat,
            right: self.right as nat,
            verdict: self.verdict,
        }
    }
}

impl LastExecutedSearch {
    #[verifier::type_invariant]
    spec fn inv(&self) -> bool {
        search_wf(self@)
    }

    /// A search over an index of `len` records.
    pub fn new(len: usize) -> (s: LastExecutedSearch)
        ensures
            s@ == initial(len as nat),
            query_budget(s@) == (if len == 0 {
                0
            } else {
                bit_length((len - 1) as nat) + 1
            }),
    {
        LastExecutedSearch {
            len,
            left: 0,
            right: if len == 0 {
                0
            } else {
                len - 1
            },
            verdict: None,
        }
    }

    /// What the search wants next.
    pub fn step(&self) -> (r: SearchStep)
        ensures
            r == next_step(self@),
            search_wf(self@),
            r is Query ==> query_budget(self@) > 0,
    {
        proof {
            use_type_invariant(self);
            if next_step(self@) is Query {
                lemma_budget_decreases(self@, true);
            }
        }
        if self.len == 0 {
            return SearchStep::Done(None);
        }
        match self.verdict {
            None => if self.left < self.right {
                SearchStep::Query(self.left + (self.right - self.left) / 2)
            } else {
                SearchStep::Query(self.left)
            },
            Some(true) => SearchStep::Done(Some(self.left)),
            Some(false) => if self.left == 0 {
                SearchStep::Done(None)
            } else {
                SearchStep::Done(Some(self.left - 1))
            },
        }
    }

    /// Takes the answer to the query that `step` asked.
    pub fn observe(&mut self, executed: bool)
        requires
            next_step(old(self)@) is Query,
        ensures
            final(self)@ == after(old(self)@, executed),
            query_budget(final(self)@) < query_budget(old(self)@),
    {
        proof {
            use_type_invariant(&*self);
            lemma_budget_decreases(self@, executed);
        }
        if self.left < self.right {
            let mid = self.left + (self.right - self.left) / 2;
            if executed {
                self.left = mid + 1;
            } else {
                self.right = mid;
            }
        } else {
            self.verdict = Some(executed);
        }
    }
}

} // verus!
