use llm_wiki::transaction::{
    undo_destination, PaperTransaction, RollbackAction, RollbackOutcome, RollbackRun, StepKind,
    StepOutcome, TxError, TxStep, Undo,
};

#[test]
fn rollback_plan_undoes_in_reverse() {
    let mut tx = PaperTransaction::new("/c/papers/unclassified/p.md".into());
    tx.record_step(TxStep::MovedToStaging { staging_path: "/c/papers/.staging/p.md".into() });
    tx.record_step(TxStep::GeminiClassified { category: "nlp".into() });
    tx.record_step(TxStep::MovedToTarget { target_path: "/c/papers/nlp/p.md".into() });
    let plan = tx.rollback_plan();
    assert_eq!(plan.len(), 3);
    assert!(matches!(&plan[0], RollbackAction { step: StepKind::MovedToTarget, undo: Undo::MoveToUnclassified { from } } if from == "/c/papers/nlp/p.md"));
    assert!(matches!(&plan[1], RollbackAction { step: StepKind::GeminiClassified, undo: Undo::Nothing }));
    assert!(matches!(&plan[2], RollbackAction { step: StepKind::MovedToStaging, undo: Undo::MoveToUnclassified { .. } }));
    assert_eq!(plan[0].step.label(), "MovedToTarget");
}

#[test]
fn empty_transaction_has_nothing_to_undo() {
    let tx = PaperTransaction::new("/c/p.md".into());
    assert!(tx.rollback_plan().is_empty());
    let out = RollbackOutcome::from_results(&vec![], vec![]);
    assert!(out.all_ok());
}

#[test]
fn rollback_outcome_reports_failures() {
    let plan = vec![
        RollbackAction { step: StepKind::MovedToTarget, undo: Undo::Nothing },
        RollbackAction { step: StepKind::MovedToStaging, undo: Undo::Nothing },
    ];
    let out = RollbackOutcome::from_results(&plan, vec![Ok(()), Err("gone".into())]);
    assert!(!out.all_ok());
    assert_eq!(out.steps[1].step, "MovedToStaging");
    assert_eq!(out.steps[1].error.as_deref(), Some("gone"));
    let s = StepOutcome::from_result("X", Ok(()));
    assert!(s.ok && s.error.is_none());
}

#[test]
fn undo_puts_the_file_back_in_unclassified() {
    assert_eq!(undo_destination("/c", "/c/papers/nlp/p.md"), "/c/papers/unclassified/p.md");
    let e = TxError::new("MovedToTarget", "denied", "/c/p.md");
    assert_eq!(e.step, "MovedToTarget");
    assert_eq!(e.paper_path, "/c/p.md");
    assert!(!e.timestamp.is_empty());
}

#[test]
fn rollback_run_hands_out_each_undo_once_and_goes_on_after_a_failure() {
    let mut tx = PaperTransaction::new("/c/papers/unclassified/p.md".into());
    tx.record_step(TxStep::MovedToStaging { staging_path: "/c/papers/.staging/p.md".into() });
    tx.record_step(TxStep::GeminiClassified { category: "nlp".into() });
    tx.record_step(TxStep::MovedToTarget { target_path: "/c/papers/nlp/p.md".into() });
    tx.record_step(TxStep::ZoteroCollectionChanged {
        item_key: "K1".into(),
        previous_collection: "inbox".into(),
        new_collection: "nlp".into(),
    });
    tx.record_step(TxStep::ZotMovConfirmed { pdf_path: "/pdfs/nlp/p.pdf".into() });
    let mut run = RollbackRun::new(tx.rollback_plan());
    let mut handed = Vec::new();
    while let Some(u) = run.next_undo() {
        let failed = matches!(u, Undo::RestoreCollection { .. });
        handed.push(u);
        run.record(if failed { Err("offline".into()) } else { Ok(()) });
    }
    assert_eq!(handed.len(), 3);
    assert!(matches!(&handed[0], Undo::RestoreCollection { item_key, collection } if item_key == "K1" && collection == "inbox"));
    assert!(matches!(&handed[1], Undo::MoveToUnclassified { from } if from == "/c/papers/nlp/p.md"));
    assert!(matches!(&handed[2], Undo::MoveToUnclassified { from } if from == "/c/papers/.staging/p.md"));
    let out = run.outcome();
    let names: Vec<&str> = out.steps.iter().map(|s| s.step.as_str()).collect();
    assert_eq!(names, vec![
        "ZotMovConfirmed",
        "ZoteroCollectionChanged",
        "MovedToTarget",
        "GeminiClassified",
        "MovedToStaging",
    ]);
    assert!(out.steps[0].ok && out.steps[0].error.is_none());
    assert!(!out.steps[1].ok);
    assert_eq!(out.steps[1].error.as_deref(), Some("offline"));
    assert!(out.steps[2].ok && out.steps[3].ok && out.steps[4].ok);
    assert_eq!(tx.completed_steps.len(), 5);
}

#[test]
fn rollback_run_of_nothing_is_done_at_once() {
    let mut run = RollbackRun::new(vec![]);
    assert!(run.next_undo().is_none());
    assert!(run.outcome().steps.is_empty());
}

#[test]
fn test_rollback_order() {
    let mut tx = PaperTransaction::new("/r/dummy.md".into());
    tx.record_step(TxStep::MovedToStaging { staging_path: "/r/papers/.staging/dummy.md".into() });
    tx.record_step(TxStep::GeminiClassified { category: "test-category".into() });
    tx.record_step(TxStep::MovedToTarget { target_path: "/r/papers/test-category/dummy.md".into() });
    let mut run = RollbackRun::new(tx.rollback_plan());
    while run.next_undo().is_some() {
        run.record(Err("no such file".into()));
    }
    let outcome = run.outcome();
    assert_eq!(outcome.steps.len(), 3, "Expected 3 rollback entries");
    assert_eq!(outcome.steps[0].step, "MovedToTarget", "First undone step should be the last recorded");
    assert_eq!(outcome.steps[1].step, "GeminiClassified");
    assert_eq!(outcome.steps[2].step, "MovedToStaging");
}

#[test]
fn test_empty_rollback() {
    let tx = PaperTransaction::new("/r/nonexistent.md".into());
    let mut run = RollbackRun::new(tx.rollback_plan());
    assert!(run.next_undo().is_none());
    let outcome = run.outcome();
    assert!(outcome.steps.is_empty(), "Empty transaction should produce no rollback steps");
    assert!(outcome.all_ok(), "Empty rollback is trivially all_ok");
}
