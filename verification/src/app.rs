use vstd::prelude::*;

use crate::stats::{history_of, rtt_of, successes, visible, window_max_rtt, HostStats, LogEntry};
use crate::types::{PingOutcome, PingResult};

verus! {

/// A key, as far as the monitor tells keys apart.
#[derive(Debug, Clone, Copy, PartialEq, Eq, Structural)]
pub enum KeyCode {
    Char(char),
    Esc,
    Tab,
    BackTab,
    Up,
    Down,
    Other,
}

/// A key press: the key and whether Control was held.
#[derive(Debug, Clone, Copy, PartialEq, Eq, Structural)]
pub struct KeyEvent {
    pub code: KeyCode,
    pub ctrl: bool,
}

/// What a key press asks for.
#[derive(Debug, Clone, Copy, PartialEq, Eq, Structural)]
pub enum KeyAction {
    Quit,
    SelectNext,
    SelectPrev,
    Reset,
    ZoomIn,
    ZoomOut,
    Ignore,
}

/// Everything the monitor reacts to.
#[derive(Debug, Clone)]
pub enum AppEvent {
    /// The result of one ping.
    Ping(PingResult),
    /// A key press.
    Key(KeyEvent),
    /// The terminal was resized.
    Resize,
    /// The refresh timer fired; `quit_due` tells whether a scheduled quit time has passed.
    Tick { quit_due: bool },
    /// A host finished all its pings (its count was reached).
    HostDone(usize),
}

/// What the caller has to do after the monitor handled an event.
#[derive(Debug, Clone, Copy, PartialEq, Eq, Structural)]
pub enum Effect {
    /// Nothing.
    Nothing,
    /// Draw the screen again.
    Redraw,
    /// Zoom the chart in (its scale times 0.8, at least 0.1).
    ZoomIn,
    /// Zoom the chart out (its scale times 1.25, at most 10).
    ZoomOut,
    /// The statistics were reset: restart the elapsed-time clock.
    ResetClock,
    /// Every host is done: quit shortly.
    ScheduleQuit,
}

/// The action a character key asks for.
pub open spec fn char_action(c: char, ctrl: bool) -> KeyAction {
    if c == 'q' || (c == 'c' && ctrl) {
        KeyAction::Quit
    } else if c == 'j' {
        KeyAction::SelectNext
    } else if c == 'k' {
        KeyAction::SelectPrev
    } else if c == 'r' {
        KeyAction::Reset
    } else if c == '+' || c == '=' {
        KeyAction::ZoomIn
    } else if c == '-' {
        KeyAction::ZoomOut
    } else {
        KeyAction::Ignore
    }
}

/// The action a key press asks for: `q`, Esc and Ctrl+C quit; Tab, Down and
/// `j` select the next host; BackTab, Up and `k` the previous one; `r`
/// resets; `+` and `=` zoom in; `-` zooms out.
pub open spec fn key_action_of(k: KeyEvent) -> KeyAction {
    match k.code {
        KeyCode::Char(c) => char_action(c, k.ctrl),
        KeyCode::Esc => KeyAction::Quit,
        KeyCode::Tab | KeyCode::Down => KeyAction::SelectNext,
        KeyCode::BackTab | KeyCode::Up => KeyAction::SelectPrev,
        KeyCode::Other => KeyAction::Ignore,
    }
}

/// Classifies a key press.
pub fn key_action(key: KeyEvent) -> (res: KeyAction)
    ensures
        res == key_action_of(key),
{
    match key.code {
        KeyCode::Char('q') | KeyCode::Esc => KeyAction::Quit,
        KeyCode::Char('c') if key.ctrl => KeyAction::Quit,
        KeyCode::Tab | KeyCode::Down | KeyCode::Char('j') => KeyAction::SelectNext,
        KeyCode::BackTab | KeyCode::Up | KeyCode::Char('k') => KeyAction::SelectPrev,
        KeyCode::Char('r') => KeyAction::Reset,
        KeyCode::Char('+') | KeyCode::Char('=') => KeyAction::ZoomIn,
        KeyCode::Char('-') => KeyAction::ZoomOut,
        _ => KeyAction::Ignore,
    }
}

/// The number of pings recorded over all hosts.
pub open spec fn total_sent_of(s: Seq<HostStats>) -> nat
    decreases s.len(),
{
    if s.len() == 0 {
        0
    } else {
        total_sent_of(s.drop_last()) + s.last().log().len()
    }
}

/// The number of replies recorded over all hosts.
pub open spec fn total_received_of(s: Seq<HostStats>) -> nat
    decreases s.len(),
{
    if s.len() == 0 {
        0
    } else {
        total_received_of(s.drop_last()) + s.last().replies().len()
    }
}

/// Whether every host finished all its pings.
pub open spec fn all_done(done: Seq<bool>) -> bool {
    forall|j: int| 0 <= j < done.len() ==> #[trigger] done[j]
}

/// The host selected after moving one step forward, wrapping around.
pub open spec fn next_selection(selected: nat, n: nat) -> nat {
    if n == 0 {
        selected
    } else {
        (selected + 1) % n
    }
}

/// The host selected after moving one step back, wrapping around.
pub open spec fn prev_selection(selected: nat, n: nat) -> nat {
    if n == 0 {
        selected
    } else if selected == 0 {
        (n - 1) as nat
    } else {
        (selected - 1) as nat
    }
}

/// Moving the selection forward and then back returns to the same host,
/// and so does moving back and then forward.
pub proof fn lemma_selection_roundtrip(selected: nat, n: nat)
    requires
        selected < n,
    ensures
        next_selection(selected, n) < n,
        prev_selection(selected, n) < n,
        prev_selection(next_selection(selected, n), n) == selected,
        next_selection(prev_selection(selected, n), n) == selected,
{
    if selected + 1 < n {
        vstd::arithmetic::div_mod::lemma_small_mod(selected + 1, n);
    } else {
        vstd::arithmetic::div_mod::lemma_mod_self_0(n as int);
    }
    if selected == 0 {
        vstd::arithmetic::div_mod::lemma_mod_self_0(n as int);
    } else {
        vstd::arithmetic::div_mod::lemma_small_mod(selected, n);
    }
}

/// Moving the selection with two or more hosts always selects another host:
/// forward goes to the following host, or from the last back to the first;
/// back goes to the preceding host, or from the first to the last.
pub proof fn lemma_selection_moves(selected: nat, n: nat)
    requires
        selected < n,
    ensures
        n > 1 ==> next_selection(selected, n) != selected,
        n > 1 ==> prev_selection(selected, n) != selected,
        selected + 1 < n ==> next_selection(selected, n) == selected + 1,
        selected + 1 == n ==> next_selection(selected, n) == 0,
        selected > 0 ==> prev_selection(selected, n) + 1 == selected,
        selected == 0 ==> prev_selection(selected, n) + 1 == n,
        next_selection(selected, n) == (selected + 1) as int % (n as int),
        prev_selection(selected, n) == (selected + n - 1) % (n as int),
{
    if selected + 1 < n {
        vstd::arithmetic::div_mod::lemma_small_mod(selected + 1, n);
    } else {
        vstd::arithmetic::div_mod::lemma_mod_self_0(n as int);
    }
    if selected == 0 {
        vstd::arithmetic::div_mod::lemma_small_mod((n - 1) as nat, n);
    } else {
        vstd::arithmetic::div_mod::lemma_mod_add_multiples_vanish((selected - 1) as int, n as int);
        vstd::arithmetic::div_mod::lemma_small_mod((selected - 1) as nat, n);
    }
}

/// The chart's largest round-trip time over all hosts is at least each
/// host's largest, and is 0 or the largest of one of the hosts.
pub proof fn lemma_hosts_max_rtt(s: Seq<HostStats>, max_points: nat)
    ensures
        forall|i: int|
            0 <= i < s.len() ==> window_max_rtt(
                visible(history_of((#[trigger] s[i]).log(), s[i].capacity()), max_points),
            ) <= hosts_max_rtt(s, max_points),
        hosts_max_rtt(s, max_points) == 0 || exists|i: int|
            0 <= i < s.len() && window_max_rtt(
                visible(history_of((#[trigger] s[i]).log(), s[i].capacity()), max_points),
            ) == hosts_max_rtt(s, max_points),
    decreases s.len(),
{
    if s.len() > 0 {
        let t = s.drop_last();
        lemma_hosts_max_rtt(t, max_points);
        assert forall|i: int| 0 <= i < t.len() implies #[trigger] t[i] == s[i] by {}
        assert(s.last() == s[s.len() - 1]);
        assert forall|i: int| 0 <= i < s.len() implies window_max_rtt(
            visible(history_of((#[trigger] s[i]).log(), s[i].capacity()), max_points),
        ) <= hosts_max_rtt(s, max_points) by {
            if i < t.len() {
                assert(t[i] == s[i]);
                assert(window_max_rtt(visible(history_of(t[i].log(), t[i].capacity()), max_points))
                    <= hosts_max_rtt(t, max_points));
            }
        }
        if hosts_max_rtt(s, max_points) != 0 && hosts_max_rtt(s, max_points) == hosts_max_rtt(
            t,
            max_points,
        ) {
            let i = choose|i: int|
                0 <= i < t.len() && window_max_rtt(
                    visible(history_of((#[trigger] t[i]).log(), t[i].capacity()), max_points),
                ) == hosts_max_rtt(t, max_points);
            assert(t[i] == s[i]);
        }
    }
}

/// The largest round-trip time shown on the chart over all hosts, or 0.
pub open spec fn hosts_max_rtt(s: Seq<HostStats>, max_points: nat) -> u64
    decreases s.len(),
{
    if s.len() == 0 {
        0
    } else {
        let m = hosts_max_rtt(s.drop_last(), max_points);
        let h = s.last();
        let x = window_max_rtt(visible(history_of(h.log(), h.capacity()), max_points));
        if x > m {
            x
        } else {
            m
        }
    }
}

proof fn lemma_totals_update(s: Seq<HostStats>, i: int, x: HostStats)
    requires
        0 <= i < s.len(),
    ensures
        total_sent_of(s.update(i, x)) == total_sent_of(s) - s[i].log().len() + x.log().len(),
        total_received_of(s.update(i, x)) == total_received_of(s) - s[i].replies().len()
            + x.replies().len(),
    decreases s.len(),
{
    let u = s.update(i, x);
    if i == s.len() - 1 {
        assert(u.drop_last() =~= s.drop_last());
    } else {
        assert(u.drop_last() =~= s.drop_last().update(i, x));
        lemma_totals_update(s.drop_last(), i, x);
    }
}

proof fn lemma_totals_bounds(s: Seq<HostStats>, i: int)
    requires
        0 <= i < s.len(),
    ensures
        s[i].log().len() <= total_sent_of(s),
        s[i].replies().len() <= total_received_of(s),
    decreases s.len(),
{
    if i < s.len() - 1 {
        lemma_totals_bounds(s.drop_last(), i);
    }
}

/// Over all hosts there are never more replies than pings.
pub proof fn lemma_received_le_sent(s: Seq<HostStats>)
    ensures
        total_received_of(s) <= total_sent_of(s),
    decreases s.len(),
{
    if s.len() > 0 {
        lemma_received_le_sent(s.drop_last());
        crate::stats::lemma_replies_le_log(s.last().log());
    }
}

proof fn lemma_totals_empty(s: Seq<HostStats>)
    requires
        forall|i: int| 0 <= i < s.len() ==> (#[trigger] s[i]).log().len() == 0,
    ensures
        total_sent_of(s) == 0,
        total_received_of(s) == 0,
    decreases s.len(),
{
    if s.len() > 0 {
        let t = s.drop_last();
        assert forall|i: int| 0 <= i < t.len() implies (#[trigger] t[i]).log().len() == 0 by {
            assert(t[i] == s[i]);
        }
        lemma_totals_empty(t);
        assert(s.last() == s[s.len() - 1]);
        assert(s.last().log() =~= Seq::<LogEntry>::empty());
    }
}

/// The monitor: per-host statistics, the selected host, and the quit decision.
pub struct App {
    stats: Vec<HostStats>,
    selected_host: usize,
    should_quit: bool,
    hosts_done: Vec<bool>,
    total_sent: u64,
    total_received: u64,
}

impl App {
    /// The statistics of every host, in host order.
    pub closed spec fn stats_seq(&self) -> Seq<HostStats> {
        self.stats@
    }

    /// Which hosts finished all their pings.
    pub closed spec fn done_seq(&self) -> Seq<bool> {
        self.hosts_done@
    }

    pub closed spec fn selected_spec(&self) -> nat {
        self.selected_host as nat
    }

    pub closed spec fn quit_spec(&self) -> bool {
        self.should_quit
    }

    /// The monitor is consistent: one statistics record and one done flag per
    /// host, the selection names a host, and the totals are the sums over hosts.
    pub closed spec fn wf(&self) -> bool {
        &&& self.stats@.len() == self.hosts_done@.len()
        &&& forall|i: int| 0 <= i < self.stats@.len() ==> (#[trigger] self.stats@[i]).wf()
        &&& (self.stats@.len() == 0 ==> self.selected_host == 0)
        &&& (self.stats@.len() > 0 ==> self.selected_host < self.stats@.len())
        &&& self.total_sent == total_sent_of(self.stats@)
        &&& self.total_received == total_received_of(self.stats@)
    }

    /// Whatever events a monitor handled: it keeps one statistics record and
    /// one done flag per host, its totals are the sums over the hosts (as
    /// `total_sent` and `total_received` return them), at most as many replies
    /// as pings, and the selection names a host when there is one.
    pub proof fn lemma_consistent(&self)
        requires
            self.wf(),
        ensures
            self.stats_seq().len() == self.done_seq().len(),
            total_received_of(self.stats_seq()) <= total_sent_of(self.stats_seq()),
            total_sent_of(self.stats_seq()) <= u64::MAX,
            self.stats_seq().len() > 0 ==> self.selected_spec() < self.stats_seq().len(),
            forall|i: int| 0 <= i < self.stats_seq().len() ==> (#[trigger] self.stats_seq()[i]).wf(),
    {
        lemma_received_le_sent(self.stats@);
    }

    /// A monitor for `host_count` hosts whose charts keep `graph_history` points.
    pub fn new(host_count: usize, graph_history: usize) -> (res: Self)
        ensures
            res.wf(),
            res.stats_seq().len() == host_count,
            forall|i: int|
                0 <= i < host_count ==> (#[trigger] res.stats_seq()[i]).log().len() == 0
                    && res.stats_seq()[i].capacity() == graph_history,
            res.done_seq() == Seq::new(host_count as nat, |i: int| false),
            res.selected_spec() == 0,
            !res.quit_spec(),
    {
        let mut stats: Vec<HostStats> = Vec::new();
        let mut hosts_done: Vec<bool> = Vec::new();
        let mut i: usize = 0;
        while i < host_count
            invariant
                i <= host_count,
                stats@.len() == i,
                hosts_done@ == Seq::new(i as nat, |j: int| false),
                forall|j: int|
                    0 <= j < i ==> (#[trigger] stats@[j]).wf() && stats@[j].log().len() == 0
                        && stats@[j].capacity() == graph_history,
            decreases host_count - i,
        {
            stats.push(HostStats::new(graph_history));
            hosts_done.push(false);
            assert(hosts_done@ =~= Seq::new((i + 1) as nat, |j: int| false));
            i = i + 1;
        }
        proof {
            lemma_totals_empty(stats@);
        }
        App {
            stats,
            selected_host: 0,
            should_quit: false,
            hosts_done,
            total_sent: 0,
            total_received: 0,
        }
    }

    /// The statistics of every host, in host order.
    pub fn stats(&self) -> (res: &Vec<HostStats>)
        requires
            self.wf(),
        ensures
            res@ == self.stats_seq(),
            forall|i: int| 0 <= i < res@.len() ==> (#[trigger] res@[i]).wf(),
    {
        &self.stats
    }

    /// The selected host.
    pub fn selected_host(&self) -> (res: usize)
        ensures
            res == self.selected_spec(),
            self.wf() && self.stats_seq().len() > 0 ==> res < self.stats_seq().len(),
            self.wf() && self.stats_seq().len() == 0 ==> res == 0,
    {
        self.selected_host
    }

    /// Whether the monitor should stop.
    pub fn should_quit(&self) -> (res: bool)
        ensures
            res == self.quit_spec(),
    {
        self.should_quit
    }

    /// The number of pings recorded over all hosts since the last reset.
    pub fn total_sent(&self) -> (res: u64)
        requires
            self.wf(),
        ensures
            res == total_sent_of(self.stats_seq()),
    {
        self.total_sent
    }

    /// The number of replies recorded over all hosts since the last reset.
    pub fn total_received(&self) -> (res: u64)
        requires
            self.wf(),
        ensures
            res == total_received_of(self.stats_seq()),
    {
        self.total_received
    }

    /// Records a ping result; one for an unknown host is ignored.
    pub fn on_ping(&mut self, result: &PingResult)
        requires
            old(self).wf(),
            total_sent_of(old(self).stats_seq()) < u64::MAX,
        ensures
            final(self).wf(),
            final(self).stats_seq() == if result.host_index < old(self).stats_seq().len() {
                old(self).stats_seq().update(
                    result.host_index as int,
                    final(self).stats_seq()[result.host_index as int],
                )
            } else {
                old(self).stats_seq()
            },
            result.host_index < old(self).stats_seq().len() ==> {
                let i = result.host_index as int;
                &&& final(self).stats_seq()[i].log() == old(self).stats_seq()[i].log().push(
                    (result.seq, result.outcome),
                )
                &&& final(self).stats_seq()[i].capacity() == old(self).stats_seq()[i].capacity()
            },
            final(self).done_seq() == old(self).done_seq(),
            final(self).selected_spec() == old(self).selected_spec(),
            final(self).quit_spec() == old(self).quit_spec(),
    {
        let idx = result.host_index;
        if idx < self.stats.len() {
            let ghost old_stats = self.stats@;
            proof {
                lemma_totals_bounds(old_stats, idx as int);
                lemma_received_le_sent(old_stats);
            }
            self.total_sent = self.total_sent + 1;
            if matches!(result.outcome, PingOutcome::Success { .. }) {
                self.total_received = self.total_received + 1;
            }
            self.stats[idx].record(result);
            proof {
                let i = idx as int;
                let e: LogEntry = (result.seq, result.outcome);
                let l = old_stats[i].log();
                assert(l.push(e).drop_last() =~= l);
                assert(self.stats@ == old_stats.update(i, self.stats@[i]));
                lemma_totals_update(old_stats, i, self.stats@[i]);
                assert(successes(l.push(e)).len() == successes(l).len() + if rtt_of(e.1) is Some {
                    1int
                } else {
                    0int
                });
                assert forall|j: int| 0 <= j < self.stats@.len() implies (
                #[trigger] self.stats@[j]).wf() by {
                    if j != i {
                        assert(self.stats@[j] == old_stats[j]);
                    }
                }
            }
        }
    }
    /// Reacts to a key press.
    pub fn handle_key(&mut self, key: KeyEvent) -> (res: Effect)
        requires
            old(self).wf(),
        ensures
            final(self).wf(),
            ({
                let a = key_action_of(key);
                let n = old(self).stats_seq().len();
                &&& final(self).quit_spec() == (old(self).quit_spec() || a == KeyAction::Quit)
                &&& final(self).selected_spec() == match a {
                    KeyAction::SelectNext => next_selection(old(self).selected_spec(), n),
                    KeyAction::SelectPrev => prev_selection(old(self).selected_spec(), n),
                    _ => old(self).selected_spec(),
                }
                &&& (n > 0 && a == KeyAction::SelectNext) ==> final(self).selected_spec() == (old(
                    self,
                ).selected_spec() + 1) as int % (n as int)
                &&& (n > 0 && a == KeyAction::SelectPrev) ==> final(self).selected_spec() == (old(
                    self,
                ).selected_spec() + n - 1) % (n as int)
                &&& a != KeyAction::Reset ==> final(self).stats_seq() == old(self).stats_seq()
                &&& a == KeyAction::Reset ==> {
                    &&& final(self).stats_seq().len() == n
                    &&& forall|i: int|
                        0 <= i < n ==> (#[trigger] final(self).stats_seq()[i]).log().len() == 0
                            && final(self).stats_seq()[i].capacity() == old(
                            self,
                        ).stats_seq()[i].capacity()
                }
                &&& res == match a {
                    KeyAction::Reset => Effect::ResetClock,
                    KeyAction::ZoomIn => Effect::ZoomIn,
                    KeyAction::ZoomOut => Effect::ZoomOut,
                    _ => Effect::Nothing,
                }
            }),
            final(self).done_seq() == old(self).done_seq(),
    {
        proof {
            if self.stats@.len() > 0 {
                lemma_selection_moves(self.selected_host as nat, self.stats@.len());
            }
        }
        match key_action(key) {
            KeyAction::Quit => {
                self.should_quit = true;
                Effect::Nothing
            },
            KeyAction::SelectNext => {
                if self.stats.len() > 0 {
                    self.selected_host = (self.selected_host + 1) % self.stats.len();
                }
                Effect::Nothing
            },
            KeyAction::SelectPrev => {
                if self.stats.len() > 0 {
                    self.selected_host = if self.selected_host == 0 {
                        self.stats.len() - 1
                    } else {
                        self.selected_host - 1
                    };
                }
                Effect::Nothing
            },
            KeyAction::Reset => {
                self.reset_all();
                Effect::ResetClock
            },
            KeyAction::ZoomIn => Effect::ZoomIn,
            KeyAction::ZoomOut => Effect::ZoomOut,
            KeyAction::Ignore => Effect::Nothing,
        }
    }

    /// Resets the statistics of every host and the totals.
    fn reset_all(&mut self)
        requires
            old(self).wf(),
        ensures
            final(self).wf(),
            final(self).stats@.len() == old(self).stats@.len(),
            forall|i: int|
                0 <= i < old(self).stats@.len() ==> (#[trigger] final(self).stats@[i]).log().len()
                    == 0 && final(self).stats@[i].capacity() == old(self).stats@[i].capacity(),
            final(self).hosts_done == old(self).hosts_done,
            final(self).selected_host == old(self).selected_host,
            final(self).should_quit == old(self).should_quit,
    {
        let ghost old_stats = self.stats@;
        let n = self.stats.len();
        let mut i: usize = 0;
        while i < n
            invariant
                n == self.stats@.len(),
                n == old_stats.len(),
                i <= n,
                forall|j: int|
                    0 <= j < i ==> (#[trigger] self.stats@[j]).wf() && self.stats@[j].log().len()
                        == 0 && self.stats@[j].capacity() == old_stats[j].capacity(),
                forall|j: int| i <= j < n ==> #[trigger] self.stats@[j] == old_stats[j],
                forall|j: int| 0 <= j < n ==> (#[trigger] old_stats[j]).wf(),
                self.hosts_done == old(self).hosts_done,
                self.selected_host == old(self).selected_host,
                self.should_quit == old(self).should_quit,
                self.stats@.len() == self.hosts_done@.len(),
                n == 0 ==> self.selected_host == 0,
                n > 0 ==> self.selected_host < n,
            decreases n - i,
        {
            self.stats[i].reset();
            i = i + 1;
        }
        proof {
            lemma_totals_empty(self.stats@);
        }
        self.total_sent = 0;
        self.total_received = 0;
    }

    /// Reacts to one event; the caller then performs the returned effect and
    /// stops once `should_quit` holds.
    pub fn handle_event(&mut self, event: AppEvent) -> (res: Effect)
        requires
            old(self).wf(),
            event is Ping ==> total_sent_of(old(self).stats_seq()) < u64::MAX,
        ensures
            final(self).wf(),
            final(self).stats_seq().len() == old(self).stats_seq().len(),
            final(self).done_seq().len() == old(self).done_seq().len(),
            total_received_of(final(self).stats_seq()) <= total_sent_of(final(self).stats_seq()),
            event matches AppEvent::Ping(r) ==> {
                &&& res == Effect::Nothing
                &&& final(self).done_seq() == old(self).done_seq()
                &&& final(self).quit_spec() == old(self).quit_spec()
                &&& final(self).selected_spec() == old(self).selected_spec()
                &&& if r.host_index < old(self).stats_seq().len() {
                    let i = r.host_index as int;
                    &&& final(self).stats_seq() == old(self).stats_seq().update(
                        i,
                        final(self).stats_seq()[i],
                    )
                    &&& final(self).stats_seq()[i].log() == old(self).stats_seq()[i].log().push(
                        (r.seq, r.outcome),
                    )
                    &&& final(self).stats_seq()[i].capacity() == old(self).stats_seq()[i].capacity()
                } else {
                    final(self).stats_seq() == old(self).stats_seq()
                }
            },
            event matches AppEvent::Key(k) ==> {
                let a = key_action_of(k);
                let n = old(self).stats_seq().len();
                &&& final(self).done_seq() == old(self).done_seq()
                &&& final(self).quit_spec() == (old(self).quit_spec() || a == KeyAction::Quit)
                &&& final(self).selected_spec() == match a {
                    KeyAction::SelectNext => next_selection(old(self).selected_spec(), n),
                    KeyAction::SelectPrev => prev_selection(old(self).selected_spec(), n),
                    _ => old(self).selected_spec(),
                }
                &&& (n > 0 && a == KeyAction::SelectNext) ==> final(self).selected_spec() == (old(
                    self,
                ).selected_spec() + 1) as int % (n as int)
                &&& (n > 0 && a == KeyAction::SelectPrev) ==> final(self).selected_spec() == (old(
                    self,
                ).selected_spec() + n - 1) % (n as int)
                &&& a != KeyAction::Reset ==> final(self).stats_seq() == old(self).stats_seq()
                &&& a == KeyAction::Reset ==> {
                    &&& final(self).stats_seq().len() == n
                    &&& forall|i: int|
                        0 <= i < n ==> (#[trigger] final(self).stats_seq()[i]).log().len() == 0
                            && final(self).stats_seq()[i].capacity() == old(
                            self,
                        ).stats_seq()[i].capacity()
                }
                &&& res == match a {
                    KeyAction::Reset => Effect::ResetClock,
                    KeyAction::ZoomIn => Effect::ZoomIn,
                    KeyAction::ZoomOut => Effect::ZoomOut,
                    _ => Effect::Nothing,
                }
            },
            event is Resize ==> res == Effect::Redraw && *final(self) == *old(self),
            event matches AppEvent::Tick { quit_due } ==> {
                &&& res == Effect::Redraw
                &&& final(self).quit_spec() == (old(self).quit_spec() || quit_due)
                &&& final(self).stats_seq() == old(self).stats_seq()
                &&& final(self).done_seq() == old(self).done_seq()
                &&& final(self).selected_spec() == old(self).selected_spec()
            },
            event matches AppEvent::HostDone(idx) ==> {
                let done = if idx < old(self).done_seq().len() {
                    old(self).done_seq().update(idx as int, true)
                } else {
                    old(self).done_seq()
                };
                &&& final(self).done_seq() == done
                &&& res == if all_done(done) {
                    Effect::ScheduleQuit
                } else {
                    Effect::Nothing
                }
                &&& final(self).stats_seq() == old(self).stats_seq()
                &&& final(self).quit_spec() == old(self).quit_spec()
                &&& final(self).selected_spec() == old(self).selected_spec()
            },
    {
        let res = match event {
            AppEvent::Ping(result) => {
                self.on_ping(&result);
                Effect::Nothing
            },
            AppEvent::Key(key) => self.handle_key(key),
            AppEvent::Resize => Effect::Redraw,
            AppEvent::Tick { quit_due } => {
                if quit_due {
                    self.should_quit = true;
                }
                Effect::Redraw
            },
            AppEvent::HostDone(idx) => {
                if idx < self.hosts_done.len() {
                    self.hosts_done.set(idx, true);
                }
                if self.all_hosts_done() {
                    Effect::ScheduleQuit
                } else {
                    Effect::Nothing
                }
            },
        };
        proof {
            lemma_received_le_sent(self.stats@);
        }
        res
    }

    /// The largest round-trip time that the chart shows, over all hosts, when
    /// each host shows its latest `max_points` history entries; 0 when none
    /// of them got a reply.
    pub fn chart_max_rtt(&self, max_points: usize) -> (res: u64)
        requires
            self.wf(),
        ensures
            res == hosts_max_rtt(self.stats_seq(), max_points as nat),
            forall|i: int|
                0 <= i < self.stats_seq().len() ==> window_max_rtt(
                    visible(
                        history_of(
                            (#[trigger] self.stats_seq()[i]).log(),
                            self.stats_seq()[i].capacity(),
                        ),
                        max_points as nat,
                    ),
                ) <= res,
            res == 0 || exists|i: int|
                0 <= i < self.stats_seq().len() && window_max_rtt(
                    visible(
                        history_of(
                            (#[trigger] self.stats_seq()[i]).log(),
                            self.stats_seq()[i].capacity(),
                        ),
                        max_points as nat,
                    ),
                ) == res,
    {
        let mut best: u64 = 0;
        let mut i: usize = 0;
        while i < self.stats.len()
            invariant
                self.wf(),
                i <= self.stats@.len(),
                best == hosts_max_rtt(self.stats@.subrange(0, i as int), max_points as nat),
            decreases self.stats@.len() - i,
        {
            let x = self.stats[i].chart_max_rtt(max_points);
            assert(self.stats@.subrange(0, i + 1).drop_last() =~= self.stats@.subrange(0, i as int));
            if x > best {
                best = x;
            }
            i = i + 1;
        }
        assert(self.stats@.subrange(0, self.stats@.len() as int) =~= self.stats@);
        proof {
            let mp = max_points as nat;
            lemma_hosts_max_rtt(self.stats@, mp);
            if best != 0 {
                let i = choose|i: int|
                    0 <= i < self.stats@.len() && window_max_rtt(
                        visible(
                            history_of((#[trigger] self.stats@[i]).log(), self.stats@[i].capacity()),
                            mp,
                        ),
                    ) == hosts_max_rtt(self.stats@, mp);
                assert(self.stats_seq()[i] == self.stats@[i]);
            }
        }
        best
    }

    /// Whether every host finished all its pings.
    pub fn all_hosts_done(&self) -> (res: bool)
        ensures
            res == all_done(self.done_seq()),
    {
        let mut i: usize = 0;
        while i < self.hosts_done.len()
            invariant
                i <= self.hosts_done@.len(),
                forall|j: int| 0 <= j < i ==> #[trigger] self.hosts_done@[j],
            decreases self.hosts_done@.len() - i,
        {
            if !self.hosts_done[i] {
                assert(!self.done_seq()[i as int]);
                return false;
            }
            i = i + 1;
        }
        true
    }
}

} // verus!
