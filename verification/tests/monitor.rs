use pong::{
    App, AppEvent, Effect, KeyAction, KeyCode, KeyEvent, PingOutcome, PingResult,
};

fn key(c: char) -> AppEvent {
    AppEvent::Key(KeyEvent { code: KeyCode::Char(c), ctrl: false })
}

fn code(code: KeyCode) -> AppEvent {
    AppEvent::Key(KeyEvent { code, ctrl: false })
}

fn ping(host_index: usize, seq: u16, outcome: PingOutcome) -> AppEvent {
    AppEvent::Ping(PingResult { host_index, seq, outcome })
}

#[test]
fn new_monitor() {
    let app = App::new(3, 100);
    assert_eq!(app.stats().len(), 3);
    assert_eq!(app.selected_host(), 0);
    assert!(!app.should_quit());
    assert_eq!(app.total_sent(), 0);
    assert_eq!(app.total_received(), 0);
    assert!(!app.all_hosts_done());
}

#[test]
fn key_actions() {
    assert_eq!(pong::key_action(KeyEvent { code: KeyCode::Char('q'), ctrl: false }), KeyAction::Quit);
    assert_eq!(pong::key_action(KeyEvent { code: KeyCode::Esc, ctrl: false }), KeyAction::Quit);
    assert_eq!(pong::key_action(KeyEvent { code: KeyCode::Char('c'), ctrl: true }), KeyAction::Quit);
    assert_eq!(pong::key_action(KeyEvent { code: KeyCode::Char('c'), ctrl: false }), KeyAction::Ignore);
    assert_eq!(pong::key_action(KeyEvent { code: KeyCode::Char('j'), ctrl: false }), KeyAction::SelectNext);
    assert_eq!(pong::key_action(KeyEvent { code: KeyCode::BackTab, ctrl: false }), KeyAction::SelectPrev);
    assert_eq!(pong::key_action(KeyEvent { code: KeyCode::Char('='), ctrl: false }), KeyAction::ZoomIn);
    assert_eq!(pong::key_action(KeyEvent { code: KeyCode::Char('-'), ctrl: false }), KeyAction::ZoomOut);
    assert_eq!(pong::key_action(KeyEvent { code: KeyCode::Char('r'), ctrl: true }), KeyAction::Reset);
    assert_eq!(pong::key_action(KeyEvent { code: KeyCode::Other, ctrl: false }), KeyAction::Ignore);
}

#[test]
fn quit_keys() {
    let mut app = App::new(1, 10);
    assert_eq!(app.handle_event(key('x')), Effect::Nothing);
    assert!(!app.should_quit());
    assert_eq!(app.handle_event(key('c')), Effect::Nothing);
    assert!(!app.should_quit());
    app.handle_event(AppEvent::Key(KeyEvent { code: KeyCode::Char('c'), ctrl: true }));
    assert!(app.should_quit());

    let mut app = App::new(1, 10);
    app.handle_event(code(KeyCode::Esc));
    assert!(app.should_quit());

    let mut app = App::new(1, 10);
    app.handle_event(key('q'));
    assert!(app.should_quit());
}

#[test]
fn selection_wraps_both_ways() {
    let mut app = App::new(3, 10);
    app.handle_event(code(KeyCode::Tab));
    assert_eq!(app.selected_host(), 1);
    app.handle_event(code(KeyCode::Down));
    app.handle_event(key('j'));
    assert_eq!(app.selected_host(), 0);
    app.handle_event(code(KeyCode::BackTab));
    assert_eq!(app.selected_host(), 2);
    app.handle_event(code(KeyCode::Up));
    app.handle_event(key('k'));
    assert_eq!(app.selected_host(), 0);
    // forward then back returns to the same host
    app.handle_event(code(KeyCode::Tab));
    app.handle_event(code(KeyCode::BackTab));
    assert_eq!(app.selected_host(), 0);
}

#[test]
fn selection_with_no_hosts() {
    let mut app = App::new(0, 10);
    app.handle_event(code(KeyCode::Tab));
    app.handle_event(code(KeyCode::Up));
    assert_eq!(app.selected_host(), 0);
    // with no hosts every host is done
    assert!(app.all_hosts_done());
}

#[test]
fn zoom_keys() {
    let mut app = App::new(1, 10);
    assert_eq!(app.handle_event(key('+')), Effect::ZoomIn);
    assert_eq!(app.handle_event(key('=')), Effect::ZoomIn);
    assert_eq!(app.handle_event(key('-')), Effect::ZoomOut);
}

#[test]
fn pings_update_host_and_totals() {
    let mut app = App::new(2, 10);
    assert_eq!(app.handle_event(ping(0, 0, PingOutcome::Success { rtt: 5 })), Effect::Nothing);
    app.handle_event(ping(1, 0, PingOutcome::Timeout));
    app.handle_event(ping(1, 1, PingOutcome::Success { rtt: 9 }));
    // unknown host: ignored
    app.handle_event(ping(7, 0, PingOutcome::Success { rtt: 1 }));
    assert_eq!(app.total_sent(), 3);
    assert_eq!(app.total_received(), 2);
    let stats = app.stats();
    assert_eq!(stats[0].sent(), 1);
    assert_eq!(stats[1].sent(), 2);
    assert_eq!(stats[1].received(), 1);
    // the totals are the sums over the hosts
    let sum: u64 = stats.iter().map(|s| s.sent()).sum();
    assert_eq!(sum, app.total_sent());
    assert_eq!(app.chart_max_rtt(10), 9);
}

#[test]
fn reset_key_clears_everything() {
    let mut app = App::new(2, 10);
    app.handle_event(ping(0, 0, PingOutcome::Success { rtt: 5 }));
    app.handle_event(ping(1, 0, PingOutcome::Timeout));
    assert_eq!(app.handle_event(key('r')), Effect::ResetClock);
    assert_eq!(app.total_sent(), 0);
    assert_eq!(app.total_received(), 0);
    assert!(app.stats().iter().all(|s| s.sent() == 0));
    assert_eq!(app.chart_max_rtt(10), 0);
}

#[test]
fn host_done_schedules_quit_when_all_done() {
    let mut app = App::new(2, 10);
    assert_eq!(app.handle_event(AppEvent::HostDone(1)), Effect::Nothing);
    assert_eq!(app.handle_event(AppEvent::HostDone(5)), Effect::Nothing);
    assert_eq!(app.handle_event(AppEvent::HostDone(0)), Effect::ScheduleQuit);
    assert!(app.all_hosts_done());
    assert!(!app.should_quit());
}

#[test]
fn tick_and_resize_redraw() {
    let mut app = App::new(1, 10);
    assert_eq!(app.handle_event(AppEvent::Resize), Effect::Redraw);
    assert_eq!(app.handle_event(AppEvent::Tick { quit_due: false }), Effect::Redraw);
    assert!(!app.should_quit());
    assert_eq!(app.handle_event(AppEvent::Tick { quit_due: true }), Effect::Redraw);
    assert!(app.should_quit());
}
