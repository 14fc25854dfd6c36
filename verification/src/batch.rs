//! Transactions: several statements on one connection, committed together or rolled back.
use vstd::prelude::*;

use crate::failure::Failure;
use crate::tsql;

verus! {

// ---------------------------------------------------------------------------
// Counts
// ---------------------------------------------------------------------------

/// The sum of counts.
pub open spec fn total(counts: Seq<u64>) -> nat
    decreases counts.len(),
{
    if counts.len() == 0 {
        0
    } else {
        total(counts.drop_last()) + counts.last() as nat
    }
}

proof fn lemma_total_take(counts: Seq<u64>, i: int)
    requires
        0 <= i <= counts.len(),
    ensures
        total(counts.take(i)) <= total(counts),
    decreases counts.len(),
{
    if i < counts.len() {
        lemma_total_take(counts.drop_last(), i);
        assert(counts.drop_last().take(i) =~= counts.take(i));
    } else {
        assert(counts.take(i) =~= counts);
    }
}

/// The sum of counts, if it fits.
pub fn sum_counts(counts: &Vec<u64>) -> (r: Option<u64>)
    ensures
        match r {
            Some(n) => n == total(counts@),
            None => total(counts@) > u64::MAX,
        },
{
    let mut sum: u64 = 0;
    for i in 0..counts.len()
        invariant
            sum == total(counts@.take(i as int)),
    {
        assert(counts@.take(i + 1).drop_last() =~= counts@.take(i as int));
        proof {
            lemma_total_take(counts@, i + 1);
        }
        match sum.checked_add(counts[i]) {
            Some(n) => {
                sum = n;
            },
            None => {
                return None;
            },
        }
    }
    assert(counts@.take(counts@.len() as int) =~= counts@);
    Some(sum)
}

// ---------------------------------------------------------------------------
// The machine
// ---------------------------------------------------------------------------

/// How far a transaction is.
pub enum Phase {
    /// Nothing has been sent.
    Start,
    /// The transaction has begun, `done` statements have succeeded, and `total` rows have been
    /// affected.
    Running { done: usize, total: u64 },
    /// A statement failed.
    RollingBack { cause: String },
    /// It is over, with the rows affected or the failure.
    Over { result: Result<u64, Failure> },
}

/// What to do next.
#[derive(Clone, Copy, Debug, PartialEq, Eq, Structural)]
pub enum Action {
    /// Send `BEGIN TRANSACTION`.
    Begin,
    /// Execute the statement with this number.
    Execute(usize),
    /// Send `COMMIT`.
    Commit,
    /// Send `ROLLBACK`.
    Rollback,
    /// Nothing: it is over.
    Stop,
}

/// What came of an action.
pub enum Outcome {
    /// It succeeded and affected this many rows.
    Done(u64),
    /// It failed.
    Failed(String),
}

/// What to do next in a phase, with `n` statements in all.
pub open spec fn action_in(phase: Phase, n: nat) -> Action {
    match phase {
        Phase::Start => Action::Begin,
        Phase::Running { done, total } => if done < n {
            Action::Execute(done)
        } else {
            Action::Commit
        },
        Phase::RollingBack { cause } => Action::Rollback,
        Phase::Over { result } => Action::Stop,
    }
}

/// The phase after an action. What comes of a rollback does not matter.
pub open spec fn phase_after(phase: Phase, n: nat, outcome: Outcome) -> Phase {
    match (phase, outcome) {
        (Phase::Start, Outcome::Done(_)) => Phase::Running { done: 0, total: 0 },
        (Phase::Start, Outcome::Failed(e)) => Phase::Over { result: Err(Failure::Begin(e)) },
        (Phase::Running { done, total }, Outcome::Done(rows)) => if done < n {
            Phase::Running { done: (done + 1) as usize, total: (total + rows) as u64 }
        } else {
            Phase::Over { result: Ok(total) }
        },
        (Phase::Running { done, total }, Outcome::Failed(e)) => if done < n {
            Phase::RollingBack { cause: e }
        } else {
            Phase::Over { result: Err(Failure::Commit(e)) }
        },
        (Phase::RollingBack { cause }, _) => Phase::Over { result: Err(Failure::Statement(cause)) },
        (Phase::Over { result }, _) => phase,
    }
}

/// Whether the rows affected still fit after an action.
pub open spec fn total_fits(phase: Phase, n: nat, outcome: Outcome) -> bool {
    match (phase, outcome) {
        (Phase::Running { done, total }, Outcome::Done(rows)) => done < n ==> total + rows
            <= u64::MAX,
        _ => true,
    }
}

/// A transaction on its way.
pub struct Batch {
    statements: Vec<String>,
    phase: Phase,
}

impl Batch {
    /// The statements.
    pub closed spec fn spec_statements(self) -> Seq<Seq<char>> {
        tsql::views(self.statements@)
    }

    /// How far it is.
    pub closed spec fn spec_phase(self) -> Phase {
        self.phase
    }

    #[verifier::type_invariant]
    spec fn wf(self) -> bool {
        self.phase matches Phase::Running { done, total } ==> done <= self.statements@.len()
    }

    /// A transaction of which nothing has been sent.
    pub fn new(statements: Vec<String>) -> (r: Batch)
        ensures
            r.spec_statements() == tsql::views(statements@),
            r.spec_phase() == Phase::Start,
    {
        Batch { statements, phase: Phase::Start }
    }

    /// What to do next.
    pub fn action(&self) -> (r: Action)
        ensures
            r == action_in(self.spec_phase(), self.spec_statements().len()),
            r matches Action::Execute(i) ==> i < self.spec_statements().len(),
    {
        match &self.phase {
            Phase::Start => Action::Begin,
            Phase::Running { done, total } => if *done < self.statements.len() {
                Action::Execute(*done)
            } else {
                Action::Commit
            },
            Phase::RollingBack { cause } => Action::Rollback,
            Phase::Over { result } => Action::Stop,
        }
    }

    /// The statement with the number.
    pub fn statement(&self, i: usize) -> (r: &String)
        requires
            i < self.spec_statements().len(),
        ensures
            r@ == self.spec_statements()[i as int],
    {
        &self.statements[i]
    }

    /// Whether the rows affected still fit after an action.
    pub fn fits(&self, outcome: &Outcome) -> (r: bool)
        ensures
            r == total_fits(self.spec_phase(), self.spec_statements().len(), *outcome),
    {
        match (&self.phase, outcome) {
            (Phase::Running { done, total }, Outcome::Done(rows)) => *done >= self.statements.len()
                || *rows <= u64::MAX - *total,
            _ => true,
        }
    }

    /// Goes on after the action that was to be done.
    pub fn step(self, outcome: Outcome) -> (r: Batch)
        requires
            total_fits(self.spec_phase(), self.spec_statements().len(), outcome),
        ensures
            r.spec_statements() == self.spec_statements(),
            r.spec_phase() == phase_after(
                self.spec_phase(),
                self.spec_statements().len(),
                outcome,
            ),
    {
        proof {
            use_type_invariant(&self);
        }
        let n = self.statements.len();
        let phase = match (self.phase, outcome) {
            (Phase::Start, Outcome::Done(_)) => Phase::Running { done: 0, total: 0 },
            (Phase::Start, Outcome::Failed(e)) => Phase::Over { result: Err(Failure::Begin(e)) },
            (Phase::Running { done, total }, Outcome::Done(rows)) => if done < n {
                Phase::Running { done: done + 1, total: total + rows }
            } else {
                Phase::Over { result: Ok(total) }
            },
            (Phase::Running { done, total }, Outcome::Failed(e)) => if done < n {
                Phase::RollingBack { cause: e }
            } else {
                Phase::Over { result: Err(Failure::Commit(e)) }
            },
            (Phase::RollingBack { cause }, _) => Phase::Over {
                result: Err(Failure::Statement(cause)),
            },
            (Phase::Over { result }, _) => Phase::Over { result },
        };
        Batch { statements: self.statements, phase }
    }

    /// The rows affected or the failure, once it is over.
    pub fn finish(self) -> (r: Option<Result<u64, Failure>>)
        ensures
            r == (match self.spec_phase() {
                Phase::Over { result } => Some(result),
                _ => None,
            }),
    {
        match self.phase {
            Phase::Over { result } => Some(result),
            _ => None,
        }
    }
}

// ---------------------------------------------------------------------------
// Laws
// ---------------------------------------------------------------------------

/// The phase after a list of outcomes.
pub open spec fn run(n: nat, outcomes: Seq<Outcome>) -> Phase
    decreases outcomes.len(),
{
    if outcomes.len() == 0 {
        Phase::Start
    } else {
        phase_after(run(n, outcomes.drop_last()), n, outcomes.last())
    }
}

/// The rows that a list of outcomes affected.
pub open spec fn rows(outcomes: Seq<Outcome>) -> nat
    decreases outcomes.len(),
{
    if outcomes.len() == 0 {
        0
    } else {
        rows(outcomes.drop_last()) + match outcomes.last() {
            Outcome::Done(n) => n as nat,
            Outcome::Failed(_) => 0,
        }
    }
}

/// Whether every outcome is a success.
pub open spec fn all_done(outcomes: Seq<Outcome>) -> bool {
    forall|i: int| 0 <= i < outcomes.len() ==> (#[trigger] outcomes[i]) is Done
}

/// A transaction is running exactly while all has succeeded: the beginning and as many
/// statements as it says. Otherwise something failed, or it is over.
proof fn lemma_run(n: nat, outcomes: Seq<Outcome>)
    requires
        n <= usize::MAX,
    ensures
        run(n, outcomes) is Start <==> outcomes.len() == 0,
        run(n, outcomes) matches Phase::Running { done, total } ==> all_done(outcomes) && done <= n
            && outcomes.len() == done + 1,
        all_done(outcomes) && 1 <= outcomes.len() <= n + 1 ==> (run(
            n,
            outcomes,
        ) matches Phase::Running { done, total } && done == outcomes.len() - 1),
        run(n, outcomes) is RollingBack ==> !all_done(outcomes),
        run(n, outcomes) matches Phase::Over { result: Ok(_) } ==> all_done(outcomes.take((n + 2) as int))
            && outcomes.len() >= n + 2,
    decreases outcomes.len(),
{
    if outcomes.len() > 0 {
        let front = outcomes.drop_last();
        lemma_run(n, front);
        let last = outcomes[outcomes.len() - 1];
        assert(outcomes.last() == last);
        if all_done(outcomes) {
            assert(all_done(front)) by {
                assert forall|i: int| 0 <= i < front.len() implies (#[trigger] front[i]) is Done by {
                    assert(front[i] == outcomes[i]);
                }
            }
        }
        if all_done(front) && last is Done {
            assert forall|i: int| 0 <= i < outcomes.len() implies (#[trigger] outcomes[i]) is Done by {
                if i < front.len() {
                    assert(outcomes[i] == front[i]);
                }
            }
        }
        if front.len() >= n + 2 {
            assert(outcomes.take((n + 2) as int) =~= front.take((n + 2) as int));
        } else if outcomes.len() == n + 2 {
            assert(outcomes.take((n + 2) as int) =~= outcomes);
        }
    }
}

/// Nothing is committed before every statement has succeeded, and nothing is committed twice:
/// the commit is sent if and only if the beginning and all the statements, and nothing more,
/// have been done with success.
pub proof fn law_commit_after_all(n: nat, outcomes: Seq<Outcome>)
    requires
        n <= usize::MAX,
    ensures
        action_in(run(n, outcomes), n) == Action::Commit <==> all_done(outcomes)
            && outcomes.len() == n + 1,
{
    lemma_run(n, outcomes);
}

/// The statements are executed in their order, each once: statement `i` is sent if and only if
/// the beginning and the statements before it have been done with success.
pub proof fn law_statements_in_order(n: nat, outcomes: Seq<Outcome>, i: usize)
    requires
        n <= usize::MAX,
        i < n,
    ensures
        action_in(run(n, outcomes), n) == Action::Execute(i) <==> all_done(outcomes)
            && outcomes.len() == i + 1,
{
    lemma_run(n, outcomes);
}

/// If any statement fails, the transaction is rolled back and never committed: after the
/// failure of a statement the next thing sent is the rollback, and then the transaction is over
/// with the failure of the statement, whatever came of the rollback.
pub proof fn law_failed_statement_rolls_back(
    n: nat,
    outcomes: Seq<Outcome>,
    cause: String,
    rollback: Outcome,
)
    requires
        n <= usize::MAX,
        all_done(outcomes),
        1 <= outcomes.len() <= n,
    ensures
        action_in(run(n, outcomes.push(Outcome::Failed(cause))), n) == Action::Rollback,
        run(n, outcomes.push(Outcome::Failed(cause)).push(rollback)) == (Phase::Over {
            result: Err(Failure::Statement(cause)),
        }),
{
    lemma_run(n, outcomes);
    let failed = outcomes.push(Outcome::Failed(cause));
    assert(failed.drop_last() =~= outcomes);
    assert(failed.push(rollback).drop_last() =~= failed);
}

/// If the transaction cannot begin, nothing more is sent and the call fails.
pub proof fn law_failed_begin(n: nat, cause: String)
    ensures
        run(n, seq![Outcome::Failed(cause)]) == (Phase::Over {
            result: Err(Failure::Begin(cause)),
        }),
        action_in(run(n, seq![Outcome::Failed(cause)]), n) == Action::Stop,
{
    let outcomes = seq![Outcome::Failed(cause)];
    assert(outcomes.drop_last() =~= Seq::empty());
    assert(run(n, outcomes.drop_last()) == Phase::Start);
}

/// If the transaction cannot be committed, nothing more is sent and the call fails.
pub proof fn law_failed_commit(n: nat, outcomes: Seq<Outcome>, cause: String)
    requires
        n <= usize::MAX,
        all_done(outcomes),
        outcomes.len() == n + 1,
    ensures
        run(n, outcomes.push(Outcome::Failed(cause))) == (Phase::Over {
            result: Err(Failure::Commit(cause)),
        }),
        action_in(run(n, outcomes.push(Outcome::Failed(cause))), n) == Action::Stop,
{
    lemma_run(n, outcomes);
    assert(outcomes.push(Outcome::Failed(cause)).drop_last() =~= outcomes);
}

/// The rows affected add up while a transaction is running.
proof fn lemma_run_total(n: nat, outcomes: Seq<Outcome>)
    requires
        n <= usize::MAX,
        all_done(outcomes),
        1 <= outcomes.len() <= n + 1,
        rows(outcomes.skip(1)) <= u64::MAX,
    ensures
        run(n, outcomes) == (Phase::Running {
            done: (outcomes.len() - 1) as usize,
            total: rows(outcomes.skip(1)) as u64,
        }),
    decreases outcomes.len(),
{
    lemma_run(n, outcomes);
    let front = outcomes.drop_last();
    assert forall|i: int| 0 <= i < front.len() implies (#[trigger] front[i]) is Done by {
        assert(front[i] == outcomes[i]);
    }
    assert(outcomes[outcomes.len() - 1] is Done);
    if outcomes.len() == 1 {
        assert(outcomes.skip(1) =~= Seq::empty());
        assert(run(n, front) == Phase::Start);
    } else {
        assert(outcomes.skip(1).drop_last() =~= front.skip(1));
        assert(outcomes.skip(1).last() == outcomes.last());
        lemma_run_total(n, front);
    }
}

/// If everything succeeds, the transaction is over with the sum of the rows that its statements
/// affected.
pub proof fn law_all_succeed(n: nat, outcomes: Seq<Outcome>, commit: Outcome)
    requires
        n <= usize::MAX,
        all_done(outcomes),
        outcomes.len() == n + 1,
        rows(outcomes.skip(1)) <= u64::MAX,
        commit is Done,
    ensures
        run(n, outcomes.push(commit)) == (Phase::Over {
            result: Ok(rows(outcomes.skip(1)) as u64),
        }),
{
    lemma_run_total(n, outcomes);
    assert(outcomes.push(commit).drop_last() =~= outcomes);
}

/// A transaction that ends well has been committed: every action up to the commit succeeded.
pub proof fn law_success_means_committed(n: nat, outcomes: Seq<Outcome>, result: u64)
    requires
        n <= usize::MAX,
        run(n, outcomes) == (Phase::Over { result: Ok::<u64, Failure>(result) }),
    ensures
        outcomes.len() >= n + 2,
        all_done(outcomes.take((n + 2) as int)),
{
    lemma_run(n, outcomes);
}

} // verus!
