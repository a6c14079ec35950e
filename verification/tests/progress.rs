use wordpiece::train::{NoOpProgress, PrintProgress, ProgressCallback, TrainingProgress};

#[test]
fn test_noop_progress() {
    let mut progress_callback = NoOpProgress;
    progress_callback.on_start(10_000, 1_000);
    progress_callback.on_progress(&TrainingProgress {
        current_vocab_size: 5_000,
        target_vocab_size: 10_000,
        iteration: 20,
        merged_pair: None,
        merged_token: None,
    });
    progress_callback.on_complete(10_000);
    // Should not panic
}

#[test]
fn print_progress_reporting_schedule() {
    let p = PrintProgress::new(10);
    assert!(p.should_report(1));
    assert!(p.should_report(10));
    assert!(p.should_report(20));
    assert!(!p.should_report(15));
    assert!(p.should_report(0));
    let d = PrintProgress::default();
    assert_eq!(d.print_every_n_iteration, 100);
    assert!(d.should_report(100));
    assert!(!d.should_report(99));
    let z = PrintProgress::new(0);
    assert!(z.should_report(0));
    assert!(z.should_report(1));
    assert!(!z.should_report(5));
}

