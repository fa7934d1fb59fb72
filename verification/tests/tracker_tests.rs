use focustrack::tracker::{idle_label, Tracker};
use focustrack::IDLE_THRESHOLD_MS;

#[test]
fn idle_label_contains_a_separator() {
    // No cleaned window title can contain a separator, so the idle bucket
    // can never collide with a window bucket.
    assert!(idle_label().contains('/'));
}

#[test]
fn fresh_tracker_is_empty_and_active() {
    let t = Tracker::new(0);
    assert_eq!(t.bucket_count(), 0);
    assert!(!t.is_idle());
    assert_eq!(t.current_label(), "");
}

#[test]
fn first_window_is_recorded_without_credit() {
    let mut t = Tracker::new(0);
    let r = t.sample(1000, Some("Notepad"), 0);
    assert!(!r.went_idle);
    assert_eq!(r.idle_credited_ms, None);
    assert_eq!(r.switched_to, None);
    assert_eq!(t.current_label(), "Notepad");
    assert_eq!(t.bucket_count(), 0);
}

#[test]
fn switching_credits_the_previous_window() {
    let mut t = Tracker::new(0);
    t.sample(0, Some("Notepad"), 0);
    let r = t.sample(3000, Some("Chrome"), 0);
    assert_eq!(r.switched_to.as_deref(), Some("Chrome"));
    assert_eq!(t.total_for("Notepad"), 3000);
    assert_eq!(t.total_for("Chrome"), 0);
    assert_eq!(t.current_label(), "Chrome");
}

#[test]
fn unchanged_focus_credits_nothing() {
    let mut t = Tracker::new(0);
    t.sample(0, Some("Notepad"), 0);
    t.sample(500, Some("Notepad"), 0);
    t.sample(1000, Some("Notepad"), 0);
    assert_eq!(t.bucket_count(), 0);
    assert_eq!(t.total_for("Notepad"), 0);
}

#[test]
fn lost_focus_changes_nothing() {
    let mut t = Tracker::new(0);
    t.sample(0, Some("Notepad"), 0);
    t.sample(2000, None, 0);
    assert_eq!(t.current_label(), "Notepad");
    assert_eq!(t.bucket_count(), 0);
}

#[test]
fn titles_with_equal_basenames_share_a_bucket() {
    let mut t = Tracker::new(0);
    t.sample(0, Some("C:\\old\\notes.txt"), 0);
    // The cleaned label is unchanged, so this is not a transition.
    t.sample(4000, Some("D:\\new\\notes.txt"), 0);
    assert_eq!(t.current_label(), "notes.txt");
    assert_eq!(t.bucket_count(), 0);
    // A real transition credits the shared bucket.
    t.sample(9000, Some("Chrome"), 0);
    assert_eq!(t.total_for("notes.txt"), 9000);
}

#[test]
fn switching_away_and_back_accumulates_one_key() {
    // A -> B -> A -> B without idle: B gets exactly its focused time, and
    // the two A intervals land under the same key.
    let mut t = Tracker::new(0);
    t.sample(0, Some("A"), 0);
    t.sample(3000, Some("B"), 0);
    t.sample(7000, Some("A"), 0);
    t.sample(12000, Some("B"), 0);
    assert_eq!(t.total_for("A"), 3000 + 5000);
    assert_eq!(t.total_for("B"), 4000);
    assert_eq!(t.bucket_count(), 2);
}

#[test]
fn idle_spell_credits_only_the_idle_bucket() {
    // Idle threshold is 60 s: the stream stays focused on one window,
    // crosses the threshold at t=10 s and drops back at t=30 s.
    let mut t = Tracker::new(0);
    t.sample(0, Some("A"), 0);
    let enter = t.sample(10_000, Some("A"), IDLE_THRESHOLD_MS + 1000);
    assert!(enter.went_idle);
    assert!(t.is_idle());
    t.sample(15_000, Some("A"), IDLE_THRESHOLD_MS + 6000);
    let exit = t.sample(30_000, Some("A"), 5000);
    assert!(!exit.went_idle);
    assert_eq!(exit.idle_credited_ms, Some(20_000));
    assert!(!t.is_idle());
    assert_eq!(t.total_for(&idle_label()), 20_000);
    assert_eq!(t.total_for("A"), 0);
    assert_eq!(t.bucket_count(), 1);
}

#[test]
fn brief_dips_between_samples_do_not_split_the_spell() {
    // While idle, samples that stay at or above the threshold keep the
    // spell open, whatever window is focused.
    let mut t = Tracker::new(0);
    t.sample(0, Some("A"), 0);
    t.sample(5_000, Some("A"), IDLE_THRESHOLD_MS);
    t.sample(8_000, Some("B"), IDLE_THRESHOLD_MS + 3000);
    assert!(t.is_idle());
    // The focus change while idle credited nothing.
    assert_eq!(t.bucket_count(), 0);
    let exit = t.sample(25_000, Some("B"), 100);
    assert_eq!(exit.idle_credited_ms, Some(20_000));
    assert_eq!(t.total_for("A"), 0);
    assert_eq!(t.total_for("B"), 0);
}

#[test]
fn scenario_notepad_chrome_idle() {
    // Samples at t=0 and t=2 focus Notepad, t=5 switches to Chrome, t=9
    // crosses the idle threshold, t=20 drops back with Notepad focused:
    // the ledger then holds Notepad at 5 s and the idle bucket at 11 s,
    // with Notepad current and nothing yet credited to it anew.
    let mut t = Tracker::new(0);
    t.sample(0, Some("Notepad"), 0);
    t.sample(2_000, Some("Notepad"), 0);
    t.sample(5_000, Some("Chrome"), 0);
    t.sample(9_000, Some("Chrome"), IDLE_THRESHOLD_MS + 500);
    t.sample(20_000, Some("Notepad"), 5_000);
    assert_eq!(t.total_for("Notepad"), 5_000);
    assert_eq!(t.total_for(&idle_label()), 11_000);
    assert_eq!(t.total_for("Chrome"), 0);
    assert_eq!(t.bucket_count(), 2);
    assert_eq!(t.current_label(), "Notepad");
    assert!(!t.is_idle());
}

#[test]
fn sum_of_credits_spans_first_to_last_transition() {
    // With no idle crossing, the credited totals sum to the wall-clock
    // time from the first transition to the last one.
    let mut t = Tracker::new(123);
    t.sample(1_000, Some("A"), 0);
    t.sample(2_500, Some("B"), 0);
    t.sample(2_500, Some("B"), 0);
    t.sample(6_000, Some("C"), 0);
    t.sample(9_000, Some("A"), 0);
    let sum = t.total_for("A") + t.total_for("B") + t.total_for("C");
    assert_eq!(sum, 9_000 - 1_000);
}

#[test]
fn window_titled_like_the_idle_label_cannot_reach_its_bucket() {
    let mut t = Tracker::new(0);
    t.sample(0, Some("A"), 0);
    // The raw title contains a separator, so cleaning renames it.
    t.sample(2_000, Some("[/idle]"), 0);
    assert_eq!(t.current_label(), "idle]");
    t.sample(5_000, Some("A"), 0);
    assert_eq!(t.total_for("idle]"), 3_000);
    assert_eq!(t.total_for(&idle_label()), 0);
}

#[test]
fn report_is_sorted_by_duration_descending() {
    let mut t = Tracker::new(0);
    t.sample(0, Some("short"), 0);
    t.sample(1_000, Some("long"), 0);
    t.sample(9_000, Some("middle"), 0);
    t.sample(12_000, Some("short"), 0);
    let entries = t.report();
    assert_eq!(entries.len(), 3);
    assert_eq!(entries[0].label, "long");
    assert_eq!(entries[0].total_ms, 8_000);
    assert_eq!(entries[1].label, "middle");
    assert_eq!(entries[1].total_ms, 3_000);
    assert_eq!(entries[2].label, "short");
    assert_eq!(entries[2].total_ms, 1_000);
}
