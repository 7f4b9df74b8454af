//! Sliding-window congestion control and RTT estimation.
//!
//! Classic additive-increase / multiplicative-decrease over a window counted
//! in datagrams, with a smoothed RTT and variance feeding the retransmission
//! timeout.

use vstd::prelude::*;

verus! {

/// Largest congestion window, in datagrams.
pub const CC_MAXIMUM_THRESHOLD: usize = 2000;

/// Constant slack added to every retransmission timeout, in milliseconds.
pub const CC_ADDITIONAL_VARIANCE: u64 = 30;

/// Tick interval, in milliseconds.
pub const CC_SYN: u64 = 10;

/// RTT samples are clamped to this many milliseconds before smoothing.
pub const RTT_SAMPLE_CAP: u64 = 60000;

/// Congestion state of one session.
pub struct SlidingWindow {
    pub srtt: u64,
    pub rttvar: u64,
    pub cwnd: usize,
    pub ssthresh: usize,
    pub acks_since_growth: usize,
}

/// A sample clamped to the supported range.
pub open spec fn clamp_rtt(sample: u64) -> u64 {
    if sample > RTT_SAMPLE_CAP {
        RTT_SAMPLE_CAP
    } else {
        sample
    }
}

impl SlidingWindow {
    pub open spec fn wf(self) -> bool {
        &&& self.srtt <= RTT_SAMPLE_CAP
        &&& self.rttvar <= RTT_SAMPLE_CAP
        &&& 1 <= self.cwnd <= CC_MAXIMUM_THRESHOLD
        &&& 1 <= self.ssthresh <= CC_MAXIMUM_THRESHOLD
        &&& self.acks_since_growth <= CC_MAXIMUM_THRESHOLD
    }

    pub fn new() -> (r: SlidingWindow)
        ensures
            r.wf(),
            r.cwnd == 1,
            r.ssthresh == CC_MAXIMUM_THRESHOLD,
    {
        SlidingWindow { srtt: 0, rttvar: 0, cwnd: 1, ssthresh: CC_MAXIMUM_THRESHOLD, acks_since_growth: 0 }
    }

    /// Current retransmission timeout: smoothed RTT plus four deviations plus
    /// the constant slack, and never below one tick.
    pub fn rto(&self) -> (r: u64)
        requires
            self.wf(),
        ensures
            r == if self.srtt + 4 * self.rttvar + CC_ADDITIONAL_VARIANCE > CC_SYN {
                (self.srtt + 4 * self.rttvar + CC_ADDITIONAL_VARIANCE) as int
            } else {
                CC_SYN as int
            },
    {
        let base = self.srtt + 4 * self.rttvar + CC_ADDITIONAL_VARIANCE;
        if base > CC_SYN {
            base
        } else {
            CC_SYN
        }
    }

    /// Feeds one acknowledged round trip in: the smoothed RTT moves one
    /// eighth of the way to the sample, the variance one quarter of the way
    /// to the new deviation, and the window grows — by one whole datagram in
    /// slow start, else by one for every windowful of acknowledgements.
    pub fn on_ack(&mut self, rtt_sample: u64)
        requires
            old(self).wf(),
        ensures
            final(self).wf(),
            final(self).srtt == (7 * old(self).srtt + clamp_rtt(rtt_sample)) / 8,
            final(self).rttvar == (3 * old(self).rttvar + (if clamp_rtt(rtt_sample) >= old(self).srtt {
                clamp_rtt(rtt_sample) - old(self).srtt
            } else {
                old(self).srtt - clamp_rtt(rtt_sample)
            })) / 4,
            final(self).ssthresh == old(self).ssthresh,
            old(self).cwnd < old(self).ssthresh && old(self).cwnd < CC_MAXIMUM_THRESHOLD ==> final(self).cwnd == old(self).cwnd + 1,
            old(self).cwnd >= old(self).ssthresh && old(self).acks_since_growth + 1 >= old(self).cwnd && old(self).cwnd < CC_MAXIMUM_THRESHOLD ==> final(self).cwnd == old(self).cwnd
                + 1,
            old(self).cwnd >= old(self).ssthresh && old(self).acks_since_growth + 1 < old(self).cwnd ==> final(self).cwnd == old(self).cwnd,
            final(self).cwnd >= old(self).cwnd,
    {
        let s = if rtt_sample > RTT_SAMPLE_CAP {
            RTT_SAMPLE_CAP
        } else {
            rtt_sample
        };
        let dev = if s >= self.srtt {
            s - self.srtt
        } else {
            self.srtt - s
        };
        self.srtt = (7 * self.srtt + s) / 8;
        self.rttvar = (3 * self.rttvar + dev) / 4;
        if self.cwnd < self.ssthresh {
            if self.cwnd < CC_MAXIMUM_THRESHOLD {
                self.cwnd = self.cwnd + 1;
            }
        } else {
            if self.acks_since_growth + 1 >= self.cwnd {
                self.acks_since_growth = 0;
                if self.cwnd < CC_MAXIMUM_THRESHOLD {
                    self.cwnd = self.cwnd + 1;
                }
            } else {
                self.acks_since_growth = self.acks_since_growth + 1;
            }
        }
    }

    /// A lost datagram halves the window and sets the slow-start threshold to
    /// the halved value, never below one datagram.
    pub fn on_nak(&mut self)
        requires
            old(self).wf(),
        ensures
            final(self).wf(),
            final(self).cwnd == if old(self).cwnd / 2 >= 1 {
                (old(self).cwnd / 2) as int
            } else {
                1int
            },
            final(self).ssthresh == final(self).cwnd,
            final(self).srtt == old(self).srtt,
            final(self).rttvar == old(self).rttvar,
    {
        let half = self.cwnd / 2;
        let w = if half >= 1 {
            half
        } else {
            1
        };
        self.cwnd = w;
        self.ssthresh = w;
    }
}

} // verus!
