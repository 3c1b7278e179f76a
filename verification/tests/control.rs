use macmon::control::{
    asked_interval, handle_key_event, is_done, next_sample_time, starting_interval,
    stream_interval, tick_due, Event, Key,
};

fn plain(c: char) -> Option<Event> {
    handle_key_event(Key::Char { c, control: false })
}

#[test]
fn keys() {
    assert!(matches!(plain('q'), Some(Event::Quit)));
    assert!(matches!(plain('c'), Some(Event::ChangeColor)));
    assert!(matches!(plain('v'), Some(Event::ChangeView)));
    assert!(matches!(plain('+'), Some(Event::IncInterval)));
    assert!(matches!(plain('='), Some(Event::IncInterval)));
    assert!(matches!(plain('-'), Some(Event::DecInterval)));
    assert!(plain('Q').is_none());
    assert!(plain('C').is_none());
    assert!(plain(' ').is_none());
    assert!(handle_key_event(Key::Other).is_none());
}

#[test]
fn keys_with_control() {
    let held = |c: char| handle_key_event(Key::Char { c, control: true });
    assert!(matches!(held('c'), Some(Event::Quit)));
    assert!(matches!(held('q'), Some(Event::Quit)));
    assert!(matches!(held('v'), Some(Event::ChangeView)));
    assert!(matches!(held('-'), Some(Event::DecInterval)));
    assert!(held('x').is_none());
}

#[test]
fn intervals_stay_within_bounds() {
    assert_eq!(starting_interval(None, 1000), 1000);
    assert_eq!(starting_interval(Some(250), 1000), 250);
    assert_eq!(starting_interval(Some(0), 1000), 100);
    assert_eq!(starting_interval(Some(100), 1000), 100);
    assert_eq!(starting_interval(Some(99), 1000), 100);
    assert_eq!(starting_interval(Some(10_000), 1000), 10_000);
    assert_eq!(starting_interval(Some(10_001), 1000), 10_000);
    assert_eq!(starting_interval(None, 5), 100);
    assert_eq!(starting_interval(None, u32::MAX), 10_000);
}

#[test]
fn a_default_interval_is_not_asked_for() {
    assert_eq!(asked_interval(true, 1000), Some(1000));
    assert_eq!(asked_interval(false, 1000), None);
}

#[test]
fn streams_sample_ten_times_a_second_at_most() {
    assert_eq!(stream_interval(0), 100);
    assert_eq!(stream_interval(99), 100);
    assert_eq!(stream_interval(101), 101);
    assert_eq!(stream_interval(u32::MAX), u32::MAX);
}

#[test]
fn the_first_sample_does_not_wait() {
    assert_eq!(next_sample_time(0, 5000), 100);
    assert_eq!(next_sample_time(1, 5000), 5000);
    assert_eq!(next_sample_time(u64::MAX, 7), 7);
}

#[test]
fn ticks() {
    assert!(!tick_due(249, 250));
    assert!(tick_due(250, 250));
    assert!(tick_due(251, 250));
    assert!(tick_due(0, 0));
}

#[test]
fn runs_end_after_their_samples() {
    assert!(!is_done(0, 0));
    assert!(!is_done(0, u64::MAX));
    assert!(!is_done(3, 2));
    assert!(is_done(3, 3));
    assert!(is_done(3, 4));
    assert!(is_done(u32::MAX, 1 << 32));
}
