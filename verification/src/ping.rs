use vstd::prelude::*;

verus! {

/// What a ping loop does next.
#[derive(Debug, Clone, Copy, PartialEq, Eq, Structural)]
pub enum PingStep {
    /// Send the ping with this sequence number.
    Send(u16),
    /// The count is reached: report the host as done and stop.
    Finish,
}

/// The schedule of the ping loop of one host: how many pings it may send
/// and which sequence number comes next.
pub struct PingSchedule {
    count: Option<u64>,
    seq: u16,
    sent_count: u64,
}

/// The sequence number of the ping sent after `sent` others: they wrap at 2^16.
pub open spec fn seq_after(sent: nat) -> u16 {
    (sent % 0x1_0000) as u16
}

impl PingSchedule {
    /// How many pings the loop was asked to send, if limited.
    pub closed spec fn count_spec(&self) -> Option<u64> {
        self.count
    }

    /// How many pings were sent so far.
    pub closed spec fn sent_spec(&self) -> nat {
        self.sent_count as nat
    }

    /// What the loop does next: finish once `count` pings went out, else send
    /// the next ping.
    pub open spec fn next_step_spec(&self) -> PingStep {
        match self.count_spec() {
            Some(c) => if self.sent_spec() >= c {
                PingStep::Finish
            } else {
                PingStep::Send(seq_after(self.sent_spec()))
            },
            None => PingStep::Send(seq_after(self.sent_spec())),
        }
    }

    pub closed spec fn wf(&self) -> bool {
        self.seq == seq_after(self.sent_count as nat)
    }

    /// A schedule that has sent nothing yet; `count` limits the number of pings.
    pub fn new(count: Option<u64>) -> (res: Self)
        ensures
            res.wf(),
            res.count_spec() == count,
            res.sent_spec() == 0,
    {
        PingSchedule { count, seq: 0, sent_count: 0 }
    }

    /// How many pings were sent so far.
    pub fn sent_count(&self) -> (res: u64)
        ensures
            res == self.sent_spec(),
    {
        self.sent_count
    }

    /// What to do next: finish once the count is reached, else send the next ping.
    pub fn next_step(&self) -> (res: PingStep)
        requires
            self.wf(),
        ensures
            res == self.next_step_spec(),
    {
        if let Some(count) = self.count {
            if self.sent_count >= count {
                return PingStep::Finish;
            }
        }
        PingStep::Send(self.seq)
    }

    /// Notes that the ping announced by `next_step` was sent.
    pub fn record_sent(&mut self)
        requires
            old(self).wf(),
            old(self).sent_spec() < u64::MAX,
        ensures
            final(self).wf(),
            final(self).count_spec() == old(self).count_spec(),
            final(self).sent_spec() == old(self).sent_spec() + 1,
    {
        let ghost n = self.sent_count as int;
        self.sent_count = self.sent_count + 1;
        self.seq = self.seq.wrapping_add(1);
        assert(self.seq as int == (n + 1) % 0x1_0000);
    }
}

/// With a count of `c`, the loop sends exactly `c` pings: it sends while fewer
/// than `c` went out and finishes once `c` did.
pub proof fn lemma_schedule_sends_count(s: PingSchedule, c: u64)
    requires
        s.wf(),
        s.count_spec() == Some(c),
    ensures
        s.sent_spec() < c ==> s.next_step_spec() is Send,
        s.sent_spec() >= c ==> s.next_step_spec() == PingStep::Finish,
{
}

} // verus!
