use open_task::model::Tick;
use open_task::sampler::{arg_value, interval_micros, PassResult, SamplerAction, SamplerState};
use open_task::view::accepts_snapshot;

#[test]
fn a_successful_pass_publishes_the_next_tick_and_clears_errors() {
    let mut s = SamplerState::default();
    assert_eq!(s.after_pass(PassResult::Failed), SamplerAction::Retry);
    assert_eq!(s.after_pass(PassResult::Failed), SamplerAction::Retry);
    assert_eq!(s.consecutive_errors, 2);
    assert_eq!(s.after_pass(PassResult::Sampled), SamplerAction::Publish(Tick(1)));
    assert_eq!(s.consecutive_errors, 0);
    assert_eq!(s.after_pass(PassResult::Sampled), SamplerAction::Publish(Tick(2)));
    assert_eq!(s.tick, Tick(2));
}

#[test]
fn an_unsupported_platform_idles_with_saturated_errors() {
    let mut s = SamplerState::default();
    assert_eq!(s.after_pass(PassResult::Unsupported), SamplerAction::Idle);
    assert_eq!(s.consecutive_errors, u64::MAX);
    assert_eq!(s.tick, Tick(0));
}

#[test]
fn interval_is_at_least_one_microsecond() {
    assert_eq!(interval_micros(0), 1);
    assert_eq!(interval_micros(1_000_000), 1_000_000);
}

#[test]
fn arg_value_reads_the_word_after_a_flag() {
    let args: Vec<String> = ["--theme", "dark", "--passes", "5", "--view"].iter().map(|s| s.to_string()).collect();
    assert_eq!(arg_value(&args, "--theme"), Some("dark"));
    assert_eq!(arg_value(&args, "--passes"), Some("5"));
    assert_eq!(arg_value(&args, "--view"), None);
    assert_eq!(arg_value(&args, "--missing"), None);
}

#[test]
fn same_tick_is_not_double_counted() {
    let mut g = open_task::sampler::TickGate::default();
    assert!(!g.take(true, Tick(1)), "an empty snapshot is ignored");
    assert_eq!(g.last_tick, None);
    assert!(g.take(false, Tick(1)));
    assert!(!g.take(false, Tick(1)));
    assert!(g.take(false, Tick(2)));
    assert_eq!(g.last_tick, Some(Tick(2)));
}

#[test]
fn the_view_takes_in_only_new_non_empty_snapshots() {
    assert!(!accepts_snapshot(true, Tick(5), true, Tick(0)));
    assert!(accepts_snapshot(false, Tick(5), true, Tick(5)));
    assert!(!accepts_snapshot(false, Tick(5), false, Tick(5)));
    assert!(accepts_snapshot(false, Tick(6), false, Tick(5)));
    assert!(!accepts_snapshot(true, Tick(6), false, Tick(5)));
}
