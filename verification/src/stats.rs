use std::collections::VecDeque;

use vstd::prelude::*;

use crate::types::{HostStatus, PingOutcome, PingResult};
use crate::wide::{from_u128, half_base, minus, plus, product, quarter_base, U256};

verus! {

/// A reply slower than this many nanoseconds (100 ms) marks the host as elevated.
pub const ELEVATED_THRESHOLD_NS: u64 = 100_000_000;

/// This many failures in a row mark the host as down.
pub const DOWN_AFTER_FAILURES: u64 = 5;

// ---------------------------------------------------------------------------
// The model: everything a `HostStats` reports is a function of the log of
// results recorded since it was made or last reset, and of its history
// capacity.
// ---------------------------------------------------------------------------

/// One recorded result: its sequence number and its outcome.
pub type LogEntry = (u16, PingOutcome);

/// The round-trip time of an outcome, if it was a reply.
pub open spec fn rtt_of(o: PingOutcome) -> Option<u64> {
    match o {
        PingOutcome::Success { rtt } => Some(rtt),
        _ => None,
    }
}

/// The round-trip times of the replies in the log, oldest first.
pub open spec fn successes(log: Seq<LogEntry>) -> Seq<u64>
    decreases log.len(),
{
    if log.len() == 0 {
        Seq::empty()
    } else {
        let before = successes(log.drop_last());
        match rtt_of(log.last().1) {
            Some(r) => before.push(r),
            None => before,
        }
    }
}

/// The round-trip time of the latest result, if it was a reply.
pub open spec fn last_rtt_of(log: Seq<LogEntry>) -> Option<u64> {
    if log.len() == 0 {
        None
    } else {
        rtt_of(log.last().1)
    }
}

/// The round-trip time of the result before the latest, if it was a reply.
pub open spec fn prev_rtt_of(log: Seq<LogEntry>) -> Option<u64> {
    if log.len() == 0 {
        None
    } else {
        last_rtt_of(log.drop_last())
    }
}

/// How many results at the end of the log are failures.
pub open spec fn trailing_failures(log: Seq<LogEntry>) -> nat
    decreases log.len(),
{
    if log.len() == 0 {
        0
    } else if rtt_of(log.last().1) is Some {
        0
    } else {
        trailing_failures(log.drop_last()) + 1
    }
}

/// The message of the latest error, unless a timeout came after it.
/// Replies leave it as it was.
pub open spec fn last_error_of(log: Seq<LogEntry>) -> Option<Seq<char>>
    decreases log.len(),
{
    if log.len() == 0 {
        None
    } else {
        match log.last().1 {
            PingOutcome::Success { .. } => last_error_of(log.drop_last()),
            PingOutcome::Timeout => None,
            PingOutcome::Error(m) => Some(m@),
        }
    }
}

/// The smallest element of a non-empty sequence.
pub open spec fn seq_min(s: Seq<u64>) -> u64
    recommends
        s.len() > 0,
    decreases s.len(),
{
    if s.len() <= 1 {
        s[0]
    } else {
        let m = seq_min(s.drop_last());
        if s.last() < m {
            s.last()
        } else {
            m
        }
    }
}

/// The largest element of a non-empty sequence.
pub open spec fn seq_max(s: Seq<u64>) -> u64
    recommends
        s.len() > 0,
    decreases s.len(),
{
    if s.len() <= 1 {
        s[0]
    } else {
        let m = seq_max(s.drop_last());
        if s.last() > m {
            s.last()
        } else {
            m
        }
    }
}

/// The sum of a sequence.
pub open spec fn seq_sum(s: Seq<u64>) -> nat
    decreases s.len(),
{
    if s.len() == 0 {
        0
    } else {
        seq_sum(s.drop_last()) + s.last() as nat
    }
}

/// The sum of the squares of a sequence.
pub open spec fn seq_sum_sq(s: Seq<u64>) -> nat
    decreases s.len(),
{
    if s.len() == 0 {
        0
    } else {
        seq_sum_sq(s.drop_last()) + (s.last() as nat) * (s.last() as nat)
    }
}

/// How many entries the history keeps: the capacity, but at least one.
pub open spec fn history_keep(capacity: nat) -> nat {
    if capacity == 0 {
        1
    } else {
        capacity
    }
}

/// The last `n` elements of `s` (all of them when it has fewer).
pub open spec fn last_n<A>(s: Seq<A>, n: nat) -> Seq<A> {
    if s.len() <= n {
        s
    } else {
        s.subrange(s.len() - n, s.len() as int)
    }
}

/// A log entry as the chart history holds it: sequence number and round-trip time.
pub open spec fn history_entry(e: LogEntry) -> (u16, Option<u64>) {
    (e.0, rtt_of(e.1))
}

/// The chart history: the latest entries of the log, as many as it keeps.
pub open spec fn history_of(log: Seq<LogEntry>, capacity: nat) -> Seq<(u16, Option<u64>)> {
    last_n(log.map_values(|e: LogEntry| history_entry(e)), history_keep(capacity))
}

/// The status of a host with this log.
pub open spec fn status_of(log: Seq<LogEntry>) -> HostStatus {
    if log.len() == 0 {
        HostStatus::Unknown
    } else if trailing_failures(log) >= DOWN_AFTER_FAILURES {
        HostStatus::Down
    } else {
        match last_rtt_of(log) {
            Some(r) => if r > ELEVATED_THRESHOLD_NS {
                HostStatus::Elevated
            } else {
                HostStatus::Up
            },
            None => if successes(log).len() > 0 {
                HostStatus::Elevated
            } else {
                HostStatus::Down
            },
        }
    }
}

/// The part of the history that a chart of `max_points` points shows.
pub open spec fn visible(h: Seq<(u16, Option<u64>)>, max_points: nat) -> Seq<(u16, Option<u64>)> {
    last_n(h, max_points)
}

/// The chart points of a window: for each entry with a reply, its position
/// in the window and its round-trip time, in order.
pub open spec fn chart_points(w: Seq<(u16, Option<u64>)>) -> Seq<(usize, u64)>
    decreases w.len(),
{
    if w.len() == 0 {
        Seq::empty()
    } else {
        let before = chart_points(w.drop_last());
        match w.last().1 {
            Some(r) => before.push(((w.len() - 1) as usize, r)),
            None => before,
        }
    }
}

/// The largest round-trip time in a window, or 0 when it holds no reply.
pub open spec fn window_max_rtt(w: Seq<(u16, Option<u64>)>) -> u64
    decreases w.len(),
{
    if w.len() == 0 {
        0
    } else {
        let m = window_max_rtt(w.drop_last());
        match w.last().1 {
            Some(r) => if r > m {
                r
            } else {
                m
            },
            None => m,
        }
    }
}

/// The numerator of the sample variance: `n·Σx² - (Σx)²`; the variance is
/// this over `n·(n - 1)`.
pub open spec fn variance_numerator(s: Seq<u64>) -> int {
    s.len() * seq_sum_sq(s) - seq_sum(s) * seq_sum(s)
}

/// `o` viewed as an optional sequence of characters.
pub open spec fn opt_string_view(o: Option<String>) -> Option<Seq<char>> {
    match o {
        Some(s) => Some(s@),
        None => None,
    }
}

/// The difference between the latest two round-trip times, when both were replies.
pub open spec fn jitter_of(log: Seq<LogEntry>) -> Option<u64> {
    match (last_rtt_of(log), prev_rtt_of(log)) {
        (Some(a), Some(b)) => Some(if a >= b { (a - b) as u64 } else { (b - a) as u64 }),
        _ => None,
    }
}

// ---------------------------------------------------------------------------
// Lemmas
// ---------------------------------------------------------------------------

/// A host never has more replies than pings sent.
pub proof fn lemma_replies_le_log(log: Seq<LogEntry>)
    ensures
        successes(log).len() <= log.len(),
    decreases log.len(),
{
    if log.len() > 0 {
        lemma_replies_le_log(log.drop_last());
    }
}

proof fn lemma_trailing_failures_len(log: Seq<LogEntry>)
    ensures
        trailing_failures(log) <= log.len(),
        trailing_failures(log) > 0 ==> last_rtt_of(log) is None,
    decreases log.len(),
{
    if log.len() > 0 {
        lemma_trailing_failures_len(log.drop_last());
    }
}

proof fn lemma_sum_bound(s: Seq<u64>)
    ensures
        seq_sum(s) <= s.len() * (u64::MAX as int),
    decreases s.len(),
{
    if s.len() > 0 {
        lemma_sum_bound(s.drop_last());
        assert((s.len() - 1) * (u64::MAX as int) + u64::MAX == s.len() * (u64::MAX as int))
            by (nonlinear_arith);
    }
}

proof fn lemma_sum_sq_monotone(s: Seq<u64>, r: u64)
    ensures
        seq_sum_sq(s.push(r)) == seq_sum_sq(s) + r * r,
        seq_sum(s.push(r)) == seq_sum(s) + r,
{
    assert(s.push(r).drop_last() =~= s);
}

/// For every `x`: `Σ(sᵢ - x)² = Σsᵢ² - 2xΣsᵢ + n·x² >= 0`.
proof fn lemma_square_deviation(s: Seq<u64>, x: int)
    ensures
        seq_sum_sq(s) - 2 * x * seq_sum(s) + s.len() * x * x >= 0,
    decreases s.len(),
{
    if s.len() > 0 {
        let t = s.drop_last();
        let y = s.last() as int;
        lemma_square_deviation(t, x);
        let q = seq_sum_sq(t) as int;
        let a = seq_sum(t) as int;
        let n = t.len() as int;
        assert((y - x) * (y - x) >= 0) by (nonlinear_arith);
        assert(seq_sum_sq(s) == q + y * y);
        assert(seq_sum(s) == a + y);
        assert(seq_sum_sq(s) - 2 * x * seq_sum(s) + s.len() * x * x == (q - 2 * x * a + n * x * x)
            + (y - x) * (y - x)) by (nonlinear_arith)
            requires
                seq_sum_sq(s) == q + y * y,
                seq_sum(s) == a + y,
                s.len() == n + 1,
        ;
    } else {
        assert(seq_sum_sq(s) == 0 && seq_sum(s) == 0);
        assert(seq_sum_sq(s) - 2 * x * seq_sum(s) + s.len() * x * x == 0) by (nonlinear_arith)
            requires
                s.len() == 0,
                seq_sum_sq(s) == 0,
                seq_sum(s) == 0,
        ;
    }
}

proof fn lemma_sum_sq_bound(s: Seq<u64>)
    ensures
        seq_sum_sq(s) <= s.len() * ((u64::MAX as int) * (u64::MAX as int)),
    decreases s.len(),
{
    let mm = (u64::MAX as int) * (u64::MAX as int);
    if s.len() > 0 {
        let t = s.drop_last();
        let y = s.last() as int;
        lemma_sum_sq_bound(t);
        assert(y * y <= mm) by (nonlinear_arith)
            requires
                0 <= y <= u64::MAX,
                mm == (u64::MAX as int) * (u64::MAX as int),
        ;
        assert(s.len() * mm == t.len() * mm + mm) by (nonlinear_arith)
            requires
                s.len() == t.len() + 1,
        ;
    }
}

/// The sample variance is never negative: `n·Σx² >= (Σx)²`.
pub proof fn lemma_variance_nonnegative(s: Seq<u64>)
    ensures
        s.len() * seq_sum_sq(s) >= seq_sum(s) * seq_sum(s),
    decreases s.len(),
{
    if s.len() > 0 {
        let t = s.drop_last();
        let y = s.last() as int;
        lemma_variance_nonnegative(t);
        lemma_square_deviation(t, y);
        let q = seq_sum_sq(t) as int;
        let a = seq_sum(t) as int;
        let n = t.len() as int;
        assert((n + 1) * (q + y * y) - (a + y) * (a + y) == (n * q - a * a) + (q - 2 * y * a + n * y
            * y)) by (nonlinear_arith);
    }
}

/// The smallest reply is at most every reply, and the largest at least every reply.
pub proof fn lemma_min_max_bounds(s: Seq<u64>)
    requires
        s.len() > 0,
    ensures
        forall|i: int| 0 <= i < s.len() ==> seq_min(s) <= #[trigger] s[i] && s[i] <= seq_max(s),
        s.contains(seq_min(s)),
        s.contains(seq_max(s)),
    decreases s.len(),
{
    if s.len() > 1 {
        let t = s.drop_last();
        lemma_min_max_bounds(t);
        assert forall|i: int| 0 <= i < s.len() implies seq_min(s) <= #[trigger] s[i] && s[i]
            <= seq_max(s) by {
            if i < s.len() - 1 {
                assert(s[i] == t[i]);
            }
        }
        let jmin = choose|j: int| 0 <= j < t.len() && t[j] == seq_min(t);
        let jmax = choose|j: int| 0 <= j < t.len() && t[j] == seq_max(t);
        assert(s[jmin] == t[jmin]);
        assert(s[jmax] == t[jmax]);
        assert(s[s.len() - 1] == s.last());
    } else {
        assert(s[0] == seq_min(s));
    }
}

/// `n·min <= Σx <= n·max`: the mean lies between the smallest and the largest reply.
pub proof fn lemma_mean_between_min_max(s: Seq<u64>)
    requires
        s.len() > 0,
    ensures
        s.len() * seq_min(s) <= seq_sum(s) <= s.len() * seq_max(s),
    decreases s.len(),
{
    if s.len() == 1 {
        assert(s.drop_last().len() == 0);
        assert(seq_sum(s.drop_last()) == 0);
        assert(seq_sum(s) == s[0]);
    } else {
        let t = s.drop_last();
        lemma_mean_between_min_max(t);
        let n = t.len() as int;
        let mt = seq_min(t) as int;
        let xt = seq_max(t) as int;
        let m = seq_min(s) as int;
        let x = seq_max(s) as int;
        let y = s.last() as int;
        assert(m <= mt && m <= y);
        assert(x >= xt && x >= y);
        assert(n * m <= n * mt) by (nonlinear_arith)
            requires
                m <= mt,
                n >= 0,
        ;
        assert(n * xt <= n * x) by (nonlinear_arith)
            requires
                xt <= x,
                n >= 0,
        ;
        assert((n + 1) * m == n * m + m) by (nonlinear_arith);
        assert((n + 1) * x == n * x + x) by (nonlinear_arith);
    }
}

/// The chart history holds the latest entries, as many as it keeps: all of
/// them while fewer were recorded, else exactly the capacity (at least one).
pub proof fn lemma_history_len(log: Seq<LogEntry>, capacity: nat)
    ensures
        history_of(log, capacity).len() == if log.len() <= history_keep(capacity) {
            log.len()
        } else {
            history_keep(capacity)
        },
{
}

/// Recording one more result shifts the history by one entry.
proof fn lemma_history_push(log: Seq<LogEntry>, capacity: nat, e: LogEntry)
    ensures
        history_of(log.push(e), capacity) == ({
            let h = history_of(log, capacity);
            let dropped = if h.len() >= capacity && h.len() > 0 {
                h.subrange(1, h.len() as int)
            } else {
                h
            };
            dropped.push(history_entry(e))
        }),
{
    let f = |e: LogEntry| history_entry(e);
    let m = log.map_values(f);
    let m2 = log.push(e).map_values(f);
    assert(m2 =~= m.push(history_entry(e)));
    let k = history_keep(capacity);
    let h = history_of(log, capacity);
    let dropped = if h.len() >= capacity && h.len() > 0 {
        h.subrange(1, h.len() as int)
    } else {
        h
    };
    assert(history_of(log.push(e), capacity) =~= dropped.push(history_entry(e)));
}

/// The rounded-down mean of the replies lies between the smallest and the largest reply.
pub proof fn lemma_avg_between_min_max(s: Seq<u64>)
    requires
        s.len() > 0,
    ensures
        seq_min(s) <= seq_sum(s) / s.len() <= seq_max(s),
{
    lemma_mean_between_min_max(s);
    let n = s.len() as int;
    let t = seq_sum(s) as int;
    let lo = seq_min(s) as int;
    let hi = seq_max(s) as int;
    assert(lo <= t / n <= hi) by (nonlinear_arith)
        requires
            n * lo <= t <= n * hi,
            n > 0,
    ;
}

/// Every chart point names an entry of the window that got a reply, by its
/// position and with its round-trip time; positions increase.
pub proof fn lemma_chart_points_in_window(w: Seq<(u16, Option<u64>)>)
    requires
        w.len() <= usize::MAX,
    ensures
        forall|k: int|
            0 <= k < chart_points(w).len() ==> {
                let (i, r) = #[trigger] chart_points(w)[k];
                &&& i < w.len()
                &&& w[i as int].1 == Some(r)
            },
        forall|k: int, l: int|
            0 <= k < l < chart_points(w).len() ==> (#[trigger] chart_points(w)[k]).0 < (
            #[trigger] chart_points(w)[l]).0,
        chart_points(w).len() <= w.len(),
    decreases w.len(),
{
    if w.len() > 0 {
        let t = w.drop_last();
        lemma_chart_points_in_window(t);
        let p = chart_points(t);
        let cp = chart_points(w);
        let last = (w.len() - 1) as int;
        assert forall|k: int| 0 <= k < cp.len() implies {
            let (i, r) = #[trigger] cp[k];
            &&& i < w.len()
            &&& w[i as int].1 == Some(r)
        } by {
            if k < p.len() {
                assert(cp[k] == p[k]);
                assert(w[p[k].0 as int] == t[p[k].0 as int]);
            }
        }
        assert forall|k: int, l: int| 0 <= k < l < cp.len() implies (#[trigger] cp[k]).0 < (
        #[trigger] cp[l]).0 by {
            assert(cp[k] == p[k]);
            if l < p.len() {
                assert(cp[l] == p[l]);
            } else {
                assert(cp[l].0 == last);
            }
        }
    }
}

/// The largest round-trip time of a window is at least every round-trip time in it.
pub proof fn lemma_window_max_bounds(w: Seq<(u16, Option<u64>)>)
    ensures
        forall|i: int|
            0 <= i < w.len() ==> ((#[trigger] w[i]).1 matches Some(r) ==> r <= window_max_rtt(w)),
    decreases w.len(),
{
    if w.len() > 0 {
        let t = w.drop_last();
        lemma_window_max_bounds(t);
        assert forall|i: int| 0 <= i < w.len() implies ((#[trigger] w[i]).1 matches Some(r) ==> r
            <= window_max_rtt(w)) by {
            if i < w.len() - 1 {
                assert(w[i] == t[i]);
            }
        }
    }
}

/// What the status says: unknown exactly before the first ping; down after
/// five failures in a row; otherwise up when the latest reply took at most
/// 100 ms, elevated when it took longer or when the latest ping failed after
/// earlier replies, and down when no ping got a reply yet.
pub proof fn lemma_status_cases(log: Seq<LogEntry>)
    ensures
        (status_of(log) == HostStatus::Unknown) <==> log.len() == 0,
        log.len() > 0 && trailing_failures(log) >= DOWN_AFTER_FAILURES ==> status_of(log)
            == HostStatus::Down,
        trailing_failures(log) < DOWN_AFTER_FAILURES ==> (last_rtt_of(log) matches Some(r) ==> (
        status_of(log) == HostStatus::Up <==> r <= ELEVATED_THRESHOLD_NS)),
        log.len() > 0 && trailing_failures(log) < DOWN_AFTER_FAILURES && last_rtt_of(log) is None
            ==> (status_of(log) == HostStatus::Elevated <==> successes(log).len() > 0),
{
}

/// A host has a reply in its log exactly when some recorded ping got one.
pub proof fn lemma_replies_exist(log: Seq<LogEntry>)
    ensures
        successes(log).len() > 0 <==> exists|i: int|
            0 <= i < log.len() && (#[trigger] rtt_of(log[i].1)) is Some,
    decreases log.len(),
{
    if log.len() > 0 {
        let t = log.drop_last();
        lemma_replies_exist(t);
        if exists|i: int| 0 <= i < t.len() && (#[trigger] rtt_of(t[i].1)) is Some {
            let i = choose|i: int| 0 <= i < t.len() && (#[trigger] rtt_of(t[i].1)) is Some;
            assert(log[i] == t[i]);
        }
        if exists|i: int| 0 <= i < log.len() && (#[trigger] rtt_of(log[i].1)) is Some {
            let i = choose|i: int| 0 <= i < log.len() && (#[trigger] rtt_of(log[i].1)) is Some;
            if i < log.len() - 1 {
                assert(log[i] == t[i]);
            }
        }
    }
}

/// At least `k` failures end the log exactly when its last `k` pings all failed.
pub proof fn lemma_trailing_failures_at_least(log: Seq<LogEntry>, k: nat)
    requires
        k <= log.len(),
    ensures
        trailing_failures(log) >= k <==> forall|j: int|
            log.len() - k <= j < log.len() ==> (#[trigger] rtt_of(log[j].1)) is None,
    decreases k,
{
    if k > 0 {
        let t = log.drop_last();
        lemma_trailing_failures_at_least(t, (k - 1) as nat);
        assert forall|j: int| t.len() - (k - 1) <= j < t.len() implies #[trigger] t[j] == log[j] by {}
        if forall|j: int| log.len() - k <= j < log.len() ==> (#[trigger] rtt_of(log[j].1)) is None {
            assert(rtt_of(log[log.len() - 1].1) is None);
            assert(log.last() == log[log.len() - 1]);
            assert forall|j: int| t.len() - (k - 1) <= j < t.len() implies (#[trigger] rtt_of(
                t[j].1)) is None by {
                assert(rtt_of(log[j].1) is None);
            }
        }
        if trailing_failures(log) >= k {
            assert(log.last() == log[log.len() - 1]);
            assert forall|j: int| log.len() - k <= j < log.len() implies (#[trigger] rtt_of(
                log[j].1)) is None by {
                if j < log.len() - 1 {
                    assert(t[j] == log[j]);
                }
            }
        }
    }
}

/// What the status says, read off the recorded pings:
/// - unknown exactly before the first ping;
/// - down when no ping got a reply yet;
/// - down when the last five pings all failed;
/// - up when the latest ping got a reply within 100 ms, elevated when it took longer;
/// - elevated when the latest ping failed, an earlier one got a reply, and one
///   of the last five got a reply.
pub proof fn lemma_status_from_pings(log: Seq<LogEntry>)
    ensures
        (status_of(log) == HostStatus::Unknown) <==> log.len() == 0,
        log.len() > 0 && (forall|i: int| 0 <= i < log.len() ==> (#[trigger] rtt_of(log[i].1)) is None)
            ==> status_of(log) == HostStatus::Down,
        log.len() >= 5 && (forall|j: int|
            log.len() - 5 <= j < log.len() ==> (#[trigger] rtt_of(log[j].1)) is None)
            ==> status_of(log) == HostStatus::Down,
        log.len() > 0 ==> (log.last().1 matches PingOutcome::Success { rtt } ==> status_of(log) == (
        if rtt > 100_000_000 {
            HostStatus::Elevated
        } else {
            HostStatus::Up
        })),
        log.len() > 0 && !(log.last().1 is Success) && (exists|i: int|
            0 <= i < log.len() && (#[trigger] rtt_of(log[i].1)) is Some) && (exists|j: int|
            log.len() - 5 <= j < log.len() && 0 <= j && (#[trigger] rtt_of(log[j].1)) is Some)
            ==> status_of(log) == HostStatus::Elevated,
        status_of(log) != HostStatus::Up || (log.len() > 0 && log.last().1 is Success),
{
    lemma_replies_exist(log);
    lemma_trailing_failures_len(log);
    if log.len() > 0 {
        let n = log.len();
        if n >= 5 {
            lemma_trailing_failures_at_least(log, 5);
        } else {
            // fewer than five pings: fewer than five failures end the log
        }
        if exists|j: int| n - 5 <= j < n && 0 <= j && (#[trigger] rtt_of(log[j].1)) is Some {
            let j = choose|j: int| n - 5 <= j < n && 0 <= j && (#[trigger] rtt_of(log[j].1)) is Some;
            if n >= 5 {
                assert(trailing_failures(log) < 5);
            } else {
                assert(trailing_failures(log) < 5);
            }
        }
        assert(log.last() == log[n - 1]);
        if forall|i: int| 0 <= i < n ==> (#[trigger] rtt_of(log[i].1)) is None {
            assert(rtt_of(log[n - 1].1) is None);
        }
    }
}

/// Every entry of a window that got a reply is a chart point, at its
/// position in the window.
pub proof fn lemma_chart_points_complete(w: Seq<(u16, Option<u64>)>)
    requires
        w.len() <= usize::MAX,
    ensures
        forall|i: int|
            0 <= i < w.len() ==> ((#[trigger] w[i]).1 matches Some(r) ==> chart_points(w).contains(
                (i as usize, r),
            )),
    decreases w.len(),
{
    if w.len() > 0 {
        let t = w.drop_last();
        lemma_chart_points_complete(t);
        let cp = chart_points(w);
        let p = chart_points(t);
        assert forall|i: int| 0 <= i < w.len() implies ((#[trigger] w[i]).1 matches Some(r)
            ==> cp.contains((i as usize, r))) by {
            if i < w.len() - 1 {
                assert(w[i] == t[i]);
                if let Some(r) = w[i].1 {
                    assert(p.contains((i as usize, r)));
                    let k = choose|k: int| 0 <= k < p.len() && p[k] == (i as usize, r);
                    assert(cp[k] == p[k]);
                }
            } else {
                assert(w.last() == w[i]);
                if let Some(r) = w[i].1 {
                    assert(cp[cp.len() - 1] == (i as usize, r));
                }
            }
        }
    }
}

/// The largest round-trip time of a window is 0 when nothing in it got a
/// reply, and otherwise the round-trip time of one of its entries.
pub proof fn lemma_window_max_attained(w: Seq<(u16, Option<u64>)>)
    ensures
        (forall|i: int| 0 <= i < w.len() ==> (#[trigger] w[i]).1 is None) ==> window_max_rtt(w)
            == 0,
        window_max_rtt(w) == 0 || exists|i: int|
            0 <= i < w.len() && (#[trigger] w[i]).1 == Some(window_max_rtt(w)),
    decreases w.len(),
{
    if w.len() > 0 {
        let t = w.drop_last();
        lemma_window_max_attained(t);
        if forall|i: int| 0 <= i < w.len() ==> (#[trigger] w[i]).1 is None {
            assert forall|i: int| 0 <= i < t.len() implies (#[trigger] t[i]).1 is None by {
                assert(t[i] == w[i]);
            }
            assert(w.last() == w[w.len() - 1]);
        }
        if window_max_rtt(w) != 0 {
            if window_max_rtt(w) == window_max_rtt(t) {
                let i = choose|i: int| 0 <= i < t.len() && (#[trigger] t[i]).1 == Some(
                    window_max_rtt(t),
                );
                assert(w[i] == t[i]);
            } else {
                assert(w[w.len() - 1] == w.last());
            }
        }
    }
}

/// Statistics answer every query from their log and capacity alone, and a
/// reset empties the log and keeps the capacity. So statistics after a reset
/// and fresh statistics of the same capacity, given the same results
/// afterwards, agree on every query: counts, replies, status, loss, round-trip
/// times, jitter, last error, history and chart.
pub proof fn lemma_reset_like_fresh(
    after_reset: HostStats,
    fresh: HostStats,
    results: Seq<LogEntry>,
    max_points: nat,
)
    requires
        after_reset.log() == Seq::<LogEntry>::empty(),
        fresh.log() == Seq::<LogEntry>::empty(),
        after_reset.capacity() == fresh.capacity(),
    ensures
        ({
            let a = after_reset.log() + results;
            let b = fresh.log() + results;
            let ha = history_of(a, after_reset.capacity());
            let hb = history_of(b, fresh.capacity());
            &&& a.len() == b.len()
            &&& successes(a) == successes(b)
            &&& status_of(a) == status_of(b)
            &&& last_rtt_of(a) == last_rtt_of(b)
            &&& prev_rtt_of(a) == prev_rtt_of(b)
            &&& jitter_of(a) == jitter_of(b)
            &&& last_error_of(a) == last_error_of(b)
            &&& ha == hb
            &&& chart_points(visible(ha, max_points)) == chart_points(visible(hb, max_points))
            &&& window_max_rtt(visible(ha, max_points)) == window_max_rtt(visible(hb, max_points))
        }),
{
    assert(after_reset.log() + results =~= fresh.log() + results);
}

// ---------------------------------------------------------------------------
// Per-host statistics
// ---------------------------------------------------------------------------

/// An exact fraction `num / den`; the screen turns it into a decimal.
#[derive(Debug, Clone, Copy)]
pub struct Ratio {
    pub num: U256,
    pub den: u128,
}

/// Per-host statistics, updated one result at a time.
pub struct HostStats {
    sent: u64,
    received: u64,
    last_rtt: Option<u64>,
    prev_rtt: Option<u64>,
    min_rtt: Option<u64>,
    max_rtt: Option<u64>,
    rtt_sum: u128,
    rtt_sum_sq: U256,
    /// Chart data: sequence number and round-trip time of the latest results.
    history: VecDeque<(u16, Option<u64>)>,
    history_capacity: usize,
    consecutive_failures: u64,
    last_error: Option<String>,
    log: Ghost<Seq<LogEntry>>,
}

impl HostStats {
    /// The results recorded since the statistics were made or last reset, oldest first.
    pub closed spec fn log(&self) -> Seq<LogEntry> {
        self.log@
    }

    /// How many history entries the statistics were made to keep.
    pub closed spec fn capacity(&self) -> nat {
        self.history_capacity as nat
    }

    /// The replies since the last reset.
    pub open spec fn replies(&self) -> Seq<u64> {
        successes(self.log())
    }

    /// Every field agrees with the log.
    pub closed spec fn wf(&self) -> bool {
        let log = self.log@;
        let s = successes(log);
        &&& self.sent == log.len()
        &&& self.received == s.len()
        &&& self.last_rtt == last_rtt_of(log)
        &&& self.prev_rtt == prev_rtt_of(log)
        &&& self.min_rtt == (if s.len() > 0 {
            Some(seq_min(s))
        } else {
            None
        })
        &&& self.max_rtt == (if s.len() > 0 {
            Some(seq_max(s))
        } else {
            None
        })
        &&& self.rtt_sum == seq_sum(s)
        &&& self.rtt_sum_sq.value() == seq_sum_sq(s)
        &&& self.history@ == history_of(log, self.history_capacity as nat)
        &&& self.consecutive_failures == trailing_failures(log)
        &&& opt_string_view(self.last_error) == last_error_of(log)
    }

    /// Fresh statistics whose chart history keeps `history_capacity` entries
    /// (at least one).
    pub fn new(history_capacity: usize) -> (res: Self)
        ensures
            res.wf(),
            res.log() == Seq::<LogEntry>::empty(),
            res.capacity() == history_capacity,
    {
        let res = HostStats {
            sent: 0,
            received: 0,
            last_rtt: None,
            prev_rtt: None,
            min_rtt: None,
            max_rtt: None,
            rtt_sum: 0,
            rtt_sum_sq: from_u128(0),
            history: VecDeque::new(),
            history_capacity,
            consecutive_failures: 0,
            last_error: None,
            log: Ghost(Seq::empty()),
        };
        assert(res.history@ =~= history_of(Seq::empty(), history_capacity as nat));
        res
    }

    /// Records the result of one ping.
    pub fn record(&mut self, result: &PingResult)
        requires
            old(self).wf(),
            old(self).log().len() < u64::MAX,
        ensures
            final(self).wf(),
            final(self).log() == old(self).log().push((result.seq, result.outcome)),
            final(self).capacity() == old(self).capacity(),
            result.outcome matches PingOutcome::Success { rtt } ==> {
                let before = old(self).replies();
                &&& final(self).replies() == before.push(rtt)
                &&& seq_min(final(self).replies()) == if before.len() == 0 || rtt < seq_min(
                    before,
                ) {
                    rtt
                } else {
                    seq_min(before)
                }
                &&& seq_max(final(self).replies()) == if before.len() == 0 || rtt > seq_max(
                    before,
                ) {
                    rtt
                } else {
                    seq_max(before)
                }
            },
            !(result.outcome is Success) ==> final(self).replies() == old(self).replies(),
    {
        let ghost old_log = self.log@;
        let ghost e: LogEntry = (result.seq, result.outcome);
        let ghost new_log = old_log.push(e);
        proof {
            assert(new_log.drop_last() =~= old_log);
            lemma_replies_le_log(old_log);
            lemma_trailing_failures_len(old_log);
            lemma_history_push(old_log, self.history_capacity as nat, e);
        }
        self.sent = self.sent + 1;
        match &result.outcome {
            PingOutcome::Success { rtt } => {
                let rtt = *rtt;
                let ghost s = successes(old_log);
                proof {
                    assert(successes(new_log) == s.push(rtt));
                    lemma_sum_sq_monotone(s, rtt);
                    lemma_sum_bound(s);
                    assert(s.push(rtt).drop_last() =~= s);
                    assert(s.len() + 1 <= u64::MAX);
                    assert((s.len() + 1) * (u64::MAX as int) <= u128::MAX) by (nonlinear_arith)
                        requires
                            s.len() + 1 <= u64::MAX,
                    ;
                    assert(seq_sum(s) + rtt <= (s.len() + 1) * (u64::MAX as int)) by (
                    nonlinear_arith)
                        requires
                            seq_sum(s) <= s.len() * (u64::MAX as int),
                            rtt <= u64::MAX,
                    ;
                }
                self.received = self.received + 1;
                self.consecutive_failures = 0;
                self.prev_rtt = self.last_rtt;
                self.last_rtt = Some(rtt);
                self.rtt_sum = self.rtt_sum + rtt as u128;
                assert((rtt as int) * (rtt as int) <= (u64::MAX as int) * (u64::MAX as int)) by (
                nonlinear_arith)
                    requires
                        rtt <= u64::MAX,
                ;
                assert((u64::MAX as int) * (u64::MAX as int) <= u128::MAX) by (nonlinear_arith);
                let sq: u128 = (rtt as u128) * (rtt as u128);
                proof {
                    lemma_sum_sq_bound(s);
                    let mm = (u64::MAX as int) * (u64::MAX as int);
                    assert(seq_sum_sq(s) + sq <= half_base() * half_base()) by (nonlinear_arith)
                        requires
                            seq_sum_sq(s) <= s.len() * mm,
                            s.len() + 1 <= u64::MAX,
                            sq <= mm,
                            mm == (u64::MAX as int) * (u64::MAX as int),
                            half_base() == u128::MAX as int + 1,
                    ;
                }
                self.rtt_sum_sq = plus(self.rtt_sum_sq, from_u128(sq));
                self.min_rtt = Some(
                    match self.min_rtt {
                        Some(prev) => if rtt < prev {
                            rtt
                        } else {
                            prev
                        },
                        None => rtt,
                    },
                );
                self.max_rtt = Some(
                    match self.max_rtt {
                        Some(prev) => if rtt > prev {
                            rtt
                        } else {
                            prev
                        },
                        None => rtt,
                    },
                );
                self.push_history(result.seq, Some(rtt));
            },
            PingOutcome::Timeout => {
                self.consecutive_failures = self.consecutive_failures + 1;
                self.prev_rtt = self.last_rtt;
                self.last_rtt = None;
                self.last_error = None;
                self.push_history(result.seq, None);
            },
            PingOutcome::Error(msg) => {
                self.consecutive_failures = self.consecutive_failures + 1;
                self.prev_rtt = self.last_rtt;
                self.last_rtt = None;
                self.last_error = Some(msg.clone());
                self.push_history(result.seq, None);
            },
        }
        proof {
            self.log@ = new_log;
        }
    }

    /// How many pings were recorded since the last reset.
    pub fn sent(&self) -> (res: u64)
        requires
            self.wf(),
        ensures
            res == self.log().len(),
    {
        self.sent
    }

    /// How many of them got a reply.
    pub fn received(&self) -> (res: u64)
        requires
            self.wf(),
        ensures
            res == self.replies().len(),
    {
        self.received
    }

    /// The round-trip time of the latest ping, if it got a reply.
    pub fn last_rtt(&self) -> (res: Option<u64>)
        requires
            self.wf(),
        ensures
            res == last_rtt_of(self.log()),
    {
        self.last_rtt
    }

    /// The round-trip time of the ping before the latest, if it got a reply.
    pub fn prev_rtt(&self) -> (res: Option<u64>)
        requires
            self.wf(),
        ensures
            res == prev_rtt_of(self.log()),
    {
        self.prev_rtt
    }

    /// The message of the latest error, unless a timeout came after it.
    pub fn last_error(&self) -> (res: &Option<String>)
        requires
            self.wf(),
        ensures
            opt_string_view(*res) == last_error_of(self.log()),
    {
        &self.last_error
    }

    /// The chart history: sequence number and round-trip time of the latest pings.
    pub fn history(&self) -> (res: &VecDeque<(u16, Option<u64>)>)
        requires
            self.wf(),
        ensures
            res@ == history_of(self.log(), self.capacity()),
    {
        &self.history
    }

    /// The status of the host.
    pub fn status(&self) -> (res: HostStatus)
        requires
            self.wf(),
        ensures
            res == status_of(self.log()),
            self.log().len() > 0 && self.replies().len() == 0 ==> res == HostStatus::Down,
    {
        proof {
            lemma_status_from_pings(self.log@);
            lemma_replies_exist(self.log@);
        }
        if self.sent == 0 {
            return HostStatus::Unknown;
        }
        if self.consecutive_failures >= DOWN_AFTER_FAILURES {
            return HostStatus::Down;
        }
        if let Some(rtt) = self.last_rtt {
            if rtt > ELEVATED_THRESHOLD_NS {
                return HostStatus::Elevated;
            }
            HostStatus::Up
        } else if self.received > 0 {
            HostStatus::Elevated
        } else {
            HostStatus::Down
        }
    }

    /// Packet loss as the exact fraction of pings without a reply, lost over
    /// sent (0 over 1 before the first ping); the percentage is 100 times it.
    pub fn packet_loss_pct(&self) -> (res: Ratio)
        requires
            self.wf(),
        ensures
            res.num.value() == self.log().len() - self.replies().len(),
            res.den == if self.log().len() == 0 {
                1
            } else {
                self.log().len()
            },
            res.num.value() <= res.den,
    {
        proof {
            lemma_replies_le_log(self.log@);
        }
        if self.sent == 0 {
            return Ratio { num: from_u128(0), den: 1 };
        }
        Ratio { num: from_u128((self.sent - self.received) as u128), den: self.sent as u128 }
    }

    /// The smallest round-trip time since the last reset, in whole nanoseconds
    /// (the screen shows it in milliseconds).
    pub fn min_ms(&self) -> (res: Option<u64>)
        requires
            self.wf(),
        ensures
            res == (if self.replies().len() > 0 {
                Some(seq_min(self.replies()))
            } else {
                None
            }),
    {
        self.min_rtt
    }

    /// The largest round-trip time since the last reset, in whole nanoseconds
    /// (the screen shows it in milliseconds).
    pub fn max_ms(&self) -> (res: Option<u64>)
        requires
            self.wf(),
        ensures
            res == (if self.replies().len() > 0 {
                Some(seq_max(self.replies()))
            } else {
                None
            }),
    {
        self.max_rtt
    }

    /// The mean round-trip time since the last reset, as the exact fraction
    /// of the sum of the replies' round-trip times (nanoseconds) over their
    /// number; `None` before the first reply.
    pub fn avg_ms(&self) -> (res: Option<Ratio>)
        requires
            self.wf(),
        ensures
            res is Some <==> self.replies().len() > 0,
            res matches Some(r) ==> r.num.value() == seq_sum(self.replies()) && r.den
                == self.replies().len(),
    {
        if self.received == 0 {
            None
        } else {
            Some(Ratio { num: from_u128(self.rtt_sum), den: self.received as u128 })
        }
    }

    /// The sample variance of the round-trip times since the last reset,
    /// whose square root is the standard deviation: the exact fraction
    /// `(n·Σx² - (Σx)²) / (n·(n - 1))` in square nanoseconds over the `n`
    /// replies; `None` with fewer than two replies.
    pub fn stddev_ms(&self) -> (res: Option<Ratio>)
        requires
            self.wf(),
        ensures
            res is Some <==> self.replies().len() >= 2,
            res matches Some(r) ==> {
                let n = self.replies().len();
                &&& r.num.value() == variance_numerator(self.replies())
                &&& r.den == n * (n - 1)
            },
    {
        let ghost s = successes(self.log@);
        if self.received < 2 {
            return None;
        }
        let n = self.received as u128;
        let q = self.rtt_sum_sq;
        let ghost mm = (u64::MAX as int) * (u64::MAX as int);
        proof {
            lemma_sum_sq_bound(s);
            lemma_variance_nonnegative(s);
            assert(mm < half_base()) by (nonlinear_arith)
                requires
                    mm == (u64::MAX as int) * (u64::MAX as int),
                    half_base() == u128::MAX as int + 1,
            ;
            let bb = half_base();
            let qq = quarter_base();
            let nn = n as int;
            let v = q.value() as int;
            assert(bb == qq * qq);
            assert(v <= nn * mm);
            assert(nn * mm <= (qq - 1) * mm) by (nonlinear_arith)
                requires
                    nn <= qq - 1,
                    mm >= 0,
            ;
            assert((qq - 1) * mm < qq * bb) by (nonlinear_arith)
                requires
                    mm < bb,
                    qq > 0,
                    mm >= 0,
            ;
            assert(q.hi * bb <= v) by (nonlinear_arith)
                requires
                    v == q.hi * bb + q.lo,
                    q.lo >= 0,
            ;
            assert(q.hi < qq) by (nonlinear_arith)
                requires
                    q.hi * bb < qq * bb,
                    bb > 0,
            ;
            assert(nn * v <= nn * (nn * mm)) by (nonlinear_arith)
                requires
                    v <= nn * mm,
                    nn >= 0,
            ;
            assert(nn * (nn * mm) < bb * bb) by (nonlinear_arith)
                requires
                    nn * mm < qq * bb,
                    nn < qq,
                    nn >= 0,
                    bb == qq * qq,
                    mm >= 0,
                    bb > 0,
            ;
            assert(n * q.hi <= u128::MAX) by (nonlinear_arith)
                requires
                    n < quarter_base(),
                    q.hi < quarter_base(),
                    quarter_base() == u64::MAX as int + 1,
            ;
            assert(n * (n - 1) <= u128::MAX) by (nonlinear_arith)
                requires
                    n <= u64::MAX,
                    n >= 2,
            ;
            assert(n * (n - 1) > 0) by (nonlinear_arith)
                requires
                    n >= 2,
            ;
            assert(n * q.hi * half_base() + n * q.lo == n * q.value()) by (nonlinear_arith)
                requires
                    q.value() == q.hi * half_base() + q.lo,
            ;
        }
        let high = U256 { hi: n * q.hi, lo: 0 };
        let nq = plus(high, product(n, q.lo));
        let s2 = product(self.rtt_sum, self.rtt_sum);
        let d = minus(nq, s2);
        let m: u128 = n * (n - 1);
        Some(Ratio { num: d, den: m })
    }

    /// The difference between the latest two round-trip times, in nanoseconds,
    /// when both got a reply.
    pub fn jitter_ms(&self) -> (res: Option<u64>)
        requires
            self.wf(),
        ensures
            res == jitter_of(self.log()),
    {
        match (self.last_rtt, self.prev_rtt) {
            (Some(a), Some(b)) => Some(if a >= b { a - b } else { b - a }),
            _ => None,
        }
    }

    /// Chart points of the latest `max_points` history entries: for each
    /// entry with a reply, its position in that window and its round-trip time.
    pub fn chart_data(&self, max_points: usize) -> (res: Vec<(usize, u64)>)
        requires
            self.wf(),
        ensures
            res@ == chart_points(visible(history_of(self.log(), self.capacity()), max_points as nat)),
            ({
                let w = visible(history_of(self.log(), self.capacity()), max_points as nat);
                &&& forall|i: int|
                    0 <= i < w.len() ==> ((#[trigger] w[i]).1 matches Some(r) ==> res@.contains(
                        (i as usize, r),
                    ))
                &&& forall|k: int|
                    0 <= k < res@.len() ==> {
                        let (i, r) = #[trigger] res@[k];
                        &&& i < w.len()
                        &&& w[i as int].1 == Some(r)
                    }
            }),
    {
        let ghost h = self.history@;
        let len = self.history.len();
        let skip = len.saturating_sub(max_points);
        let mut out: Vec<(usize, u64)> = Vec::new();
        let mut i = skip;
        assert(h.subrange(skip as int, skip as int) =~= Seq::<(u16, Option<u64>)>::empty());
        while i < len
            invariant
                h == self.history@,
                len == h.len(),
                skip <= i <= len,
                out@ == chart_points(h.subrange(skip as int, i as int)),
            decreases len - i,
        {
            let entry = self.history[i];
            proof {
                assert(h.subrange(skip as int, i + 1).drop_last() =~= h.subrange(skip as int, i as int));
                assert(h.subrange(skip as int, i + 1).last() == h[i as int]);
            }
            match entry.1 {
                Some(r) => out.push((i - skip, r)),
                None => {},
            }
            i = i + 1;
        }
        assert(h.subrange(skip as int, len as int) =~= visible(h, max_points as nat));
        proof {
            lemma_chart_points_complete(visible(h, max_points as nat));
            lemma_chart_points_in_window(visible(h, max_points as nat));
        }
        out
    }

    /// The largest round-trip time among the latest `max_points` history
    /// entries, or 0 when none of them got a reply.
    pub fn chart_max_rtt(&self, max_points: usize) -> (res: u64)
        requires
            self.wf(),
        ensures
            res == window_max_rtt(visible(history_of(self.log(), self.capacity()), max_points as nat)),
            ({
                let w = visible(history_of(self.log(), self.capacity()), max_points as nat);
                &&& forall|i: int|
                    0 <= i < w.len() ==> ((#[trigger] w[i]).1 matches Some(r) ==> r <= res)
                &&& res == 0 || exists|i: int| 0 <= i < w.len() && (#[trigger] w[i]).1 == Some(res)
            }),
    {
        let ghost h = self.history@;
        let len = self.history.len();
        let skip = len.saturating_sub(max_points);
        let mut best: u64 = 0;
        let mut i = skip;
        assert(h.subrange(skip as int, skip as int) =~= Seq::<(u16, Option<u64>)>::empty());
        while i < len
            invariant
                h == self.history@,
                len == h.len(),
                skip <= i <= len,
                best == window_max_rtt(h.subrange(skip as int, i as int)),
            decreases len - i,
        {
            let entry = self.history[i];
            proof {
                assert(h.subrange(skip as int, i + 1).drop_last() =~= h.subrange(skip as int, i as int));
                assert(h.subrange(skip as int, i + 1).last() == h[i as int]);
            }
            match entry.1 {
                Some(r) => if r > best {
                    best = r;
                },
                None => {},
            }
            i = i + 1;
        }
        assert(h.subrange(skip as int, len as int) =~= visible(h, max_points as nat));
        proof {
            lemma_window_max_bounds(visible(h, max_points as nat));
            lemma_window_max_attained(visible(h, max_points as nat));
        }
        best
    }

    /// Forgets every recorded result; the history capacity stays.
    pub fn reset(&mut self)
        requires
            old(self).wf(),
        ensures
            final(self).wf(),
            final(self).log() == Seq::<LogEntry>::empty(),
            final(self).capacity() == old(self).capacity(),
    {
        self.sent = 0;
        self.received = 0;
        self.last_rtt = None;
        self.prev_rtt = None;
        self.min_rtt = None;
        self.max_rtt = None;
        self.rtt_sum = 0;
        self.rtt_sum_sq = from_u128(0);
        self.history.clear();
        self.consecutive_failures = 0;
        self.last_error = None;
        proof {
            self.log@ = Seq::empty();
            assert(self.history@ =~= history_of(Seq::empty(), self.history_capacity as nat));
        }
    }

    /// Appends an entry to the chart history, dropping the oldest one when it is full.
    fn push_history(&mut self, seq: u16, rtt: Option<u64>)
        ensures
            final(self).history@ == ({
                let h = old(self).history@;
                let dropped = if h.len() >= old(self).history_capacity && h.len() > 0 {
                    h.subrange(1, h.len() as int)
                } else {
                    h
                };
                dropped.push((seq, rtt))
            }),
            final(self).sent == old(self).sent,
            final(self).received == old(self).received,
            final(self).last_rtt == old(self).last_rtt,
            final(self).prev_rtt == old(self).prev_rtt,
            final(self).min_rtt == old(self).min_rtt,
            final(self).max_rtt == old(self).max_rtt,
            final(self).rtt_sum == old(self).rtt_sum,
            final(self).rtt_sum_sq.value() == old(self).rtt_sum_sq.value(),
            final(self).history_capacity == old(self).history_capacity,
            final(self).consecutive_failures == old(self).consecutive_failures,
            final(self).last_error == old(self).last_error,
            final(self).log == old(self).log,
    {
        if self.history.len() >= self.history_capacity {
            self.history.pop_front();
        }
        self.history.push_back((seq, rtt));
    }
}

} // verus!
