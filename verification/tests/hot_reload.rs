use git_craft::render::hot_reload::{validate_wgsl, ShaderWatcher, POLL_INTERVAL_MS};

const GOOD: &str = "@vertex fn vs() -> @builtin(position) vec4<f32> { return vec4(0.0); }";

#[test]
fn valid_wgsl_passes() {
    assert!(validate_wgsl(GOOD).is_ok());
}

#[test]
fn syntax_error_is_reported_not_panicked() {
    assert!(validate_wgsl("@vertex fn vs( {").is_err());
}

#[test]
fn type_error_is_reported() {
    assert!(validate_wgsl("@vertex fn vs() -> @builtin(position) vec4<f32> { return 1; }").is_err());
}

#[test]
fn watcher_polls_at_most_every_interval() {
    let mut w = ShaderWatcher::new("a.wgsl".to_string(), Some(5), 1000);
    assert!(!w.due(1000));
    assert!(!w.due(1000 + POLL_INTERVAL_MS - 1));
    assert!(w.due(1000 + POLL_INTERVAL_MS));
    assert_eq!(w.last_check_ms, 1000 + POLL_INTERVAL_MS);
    assert!(!w.due(1000 + POLL_INTERVAL_MS + 10));
    // A clock that reads earlier than the last check is never due.
    assert!(!w.due(10));
}

#[test]
fn watcher_reloads_only_changed_valid_sources() {
    let mut w = ShaderWatcher::new("a.wgsl".to_string(), Some(5), 0);
    assert!(!w.changed(5));
    assert!(w.changed(6));
    let bad = w.accept(6, "@vertex fn vs( {".to_string());
    assert!(bad.is_err(), "an invalid save is reported, not returned");
    assert_eq!(w.last_mtime, Some(6), "the failed save is not retried until it changes");
    assert!(!w.changed(6));
    let good = w.accept(7, GOOD.to_string());
    assert_eq!(good, Ok(GOOD.to_string()));
    assert_eq!(w.last_mtime, Some(7));
    let fresh = ShaderWatcher::new("b.wgsl".to_string(), None, 0);
    assert!(fresh.changed(0), "a file first seen is a change");
}

use git_craft::render::hot_reload::ShaderSet;

#[test]
fn shader_set_polls_each_watcher_on_its_own() {
    let mut set = ShaderSet::default();
    set.watch("terrain", "terrain.wgsl".to_string(), Some(1), 0);
    set.watch("sky", "sky.wgsl".to_string(), Some(1), 400);
    assert_eq!(set.len(), 2);
    assert_eq!(set.name(1), "sky");
    assert_eq!(set.path(0), "terrain.wgsl");
    // At 500 ms only the first watcher's throttle has run out.
    assert!(set.due(0, 500));
    assert!(!set.due(1, 500));
    assert!(set.changed(0, 2));
    assert!(!set.changed(1, 1));
    let got = set.accept(0, 2, GOOD.to_string());
    assert_eq!(got, Ok(("terrain", GOOD.to_string())));
    assert!(!set.changed(0, 2));
    assert!(set.accept(1, 3, "fn (".to_string()).is_err());
    assert!(!set.changed(1, 3));
}
