use stryke_mssql::batch::{sum_counts, Action, Batch, Outcome};
use stryke_mssql::failure::Failure;

fn statements(n: usize) -> Vec<String> {
    (0..n).map(|i| format!("statement {i}")).collect()
}

/// Runs a transaction on the outcomes and gives the actions and the result.
fn run(n: usize, outcomes: Vec<Outcome>) -> (Vec<Action>, Option<Result<u64, String>>) {
    let mut batch = Batch::new(statements(n));
    let mut actions = vec![batch.action()];
    for outcome in outcomes {
        assert!(batch.fits(&outcome));
        batch = batch.step(outcome);
        actions.push(batch.action());
    }
    (actions, batch.finish().map(|r| r.map_err(|e| e.message())))
}

fn failed(text: &str) -> Outcome {
    Outcome::Failed(text.to_string())
}

#[test]
fn commits_when_every_statement_succeeds() {
    let (actions, result) = run(
        2,
        vec![Outcome::Done(9), Outcome::Done(3), Outcome::Done(4), Outcome::Done(7)],
    );
    assert_eq!(
        actions,
        vec![
            Action::Begin,
            Action::Execute(0),
            Action::Execute(1),
            Action::Commit,
            Action::Stop
        ]
    );
    assert_eq!(result, Some(Ok(7)));
}

#[test]
fn rolls_back_when_a_statement_fails() {
    for rollback in [Outcome::Done(0), failed("gone")] {
        let (actions, result) = run(
            3,
            vec![Outcome::Done(0), Outcome::Done(1), failed("no"), rollback],
        );
        assert_eq!(
            actions,
            vec![
                Action::Begin,
                Action::Execute(0),
                Action::Execute(1),
                Action::Rollback,
                Action::Stop
            ]
        );
        assert_eq!(result, Some(Err("statement failed (rolled back): no".to_string())));
    }
}

#[test]
fn stops_when_it_cannot_begin() {
    let (actions, result) = run(1, vec![failed("no")]);
    assert_eq!(actions, vec![Action::Begin, Action::Stop]);
    assert_eq!(result, Some(Err("begin: no".to_string())));
}

#[test]
fn fails_when_it_cannot_commit() {
    let (actions, result) = run(0, vec![Outcome::Done(0), failed("no")]);
    assert_eq!(actions, vec![Action::Begin, Action::Commit, Action::Stop]);
    assert_eq!(result, Some(Err("commit: no".to_string())));
}

#[test]
fn an_empty_transaction_affects_nothing() {
    let (actions, result) = run(0, vec![Outcome::Done(5), Outcome::Done(5)]);
    assert_eq!(actions, vec![Action::Begin, Action::Commit, Action::Stop]);
    assert_eq!(result, Some(Ok(0)));
}

#[test]
fn has_no_result_before_it_is_over() {
    assert_eq!(run(1, vec![]).1, None);
    assert_eq!(run(1, vec![Outcome::Done(0)]).1, None);
    assert_eq!(run(1, vec![Outcome::Done(0), failed("no")]).1, None);
}

#[test]
fn nothing_changes_once_it_is_over() {
    let (actions, result) = run(1, vec![failed("no"), Outcome::Done(1), failed("other")]);
    assert_eq!(actions[1..], [Action::Stop, Action::Stop, Action::Stop]);
    assert_eq!(result, Some(Err("begin: no".to_string())));
}

#[test]
fn statements_are_numbered_in_their_order() {
    let batch = Batch::new(statements(2));
    assert_eq!(batch.statement(0), "statement 0");
    assert_eq!(batch.statement(1), "statement 1");
}

#[test]
fn says_when_the_rows_affected_do_not_fit() {
    let batch = Batch::new(statements(2)).step(Outcome::Done(0)).step(Outcome::Done(u64::MAX));
    assert!(batch.fits(&Outcome::Done(0)));
    assert!(!batch.fits(&Outcome::Done(1)));
    assert!(batch.fits(&failed("no")));
    let last = batch.step(Outcome::Done(0));
    assert!(last.fits(&Outcome::Done(1)));
    assert!(matches!(last.step(Outcome::Done(1)).finish(), Some(Ok(u64::MAX))));
}

#[test]
fn counts_add_up() {
    assert_eq!(sum_counts(&vec![]), Some(0));
    assert_eq!(sum_counts(&vec![1, 2, 3]), Some(6));
    assert_eq!(sum_counts(&vec![u64::MAX, 0]), Some(u64::MAX));
    assert_eq!(sum_counts(&vec![u64::MAX, 1]), None);
    assert_eq!(sum_counts(&vec![1, u64::MAX, 0]), None);
}

#[test]
fn messages() {
    let e = || "e".to_string();
    let shown = |f: Failure| f.message();
    assert_eq!(shown(Failure::MissingSql), "missing sql");
    assert_eq!(shown(Failure::MissingStatements), "missing statements array");
    assert_eq!(shown(Failure::MissingTable), "missing table");
    assert_eq!(shown(Failure::MissingUrl), "missing url");
    assert_eq!(shown(Failure::MissingParts), "missing parts object");
    assert_eq!(shown(Failure::MissingName), "missing name");
    assert_eq!(shown(Failure::MissingScript), "missing script");
    assert_eq!(shown(Failure::ParseUrl(e())), "parse url: e");
    assert_eq!(shown(Failure::Connect("h:1".to_string(), e())), "connect h:1: e");
    assert_eq!(shown(Failure::Handshake(e())), "tds handshake: e");
    assert_eq!(shown(Failure::Query(e())), "query: e");
    assert_eq!(shown(Failure::ReadRows(e())), "read rows: e");
    assert_eq!(shown(Failure::Execute(e())), "execute: e");
    assert_eq!(shown(Failure::SimpleQuery(e())), "simple_query: e");
    assert_eq!(shown(Failure::Read(e())), "read: e");
    assert_eq!(shown(Failure::Begin(e())), "begin: e");
    assert_eq!(shown(Failure::Statement(e())), "statement failed (rolled back): e");
    assert_eq!(shown(Failure::Commit(e())), "commit: e");
    assert_eq!(shown(Failure::Panicked), "stryke-mssql handler panicked");
}
