//! Telemetry counters, independent of any exporter.

use vstd::prelude::*;

verus! {

/// Event totals since start. Each wraps around at 64 bits.
#[derive(Debug, Clone, Copy, PartialEq, Eq, Structural)]
pub struct Counters {
    pub status_2xx: u64,
    pub status_3xx: u64,
    pub status_4xx: u64,
    pub status_5xx: u64,
    pub bytes_sent: u64,
    /// Requests answered 503 because the waiting room for file I/O was full.
    pub sheds: u64,
    /// Responses cut off by the whole-response deadline or the write timeout.
    pub deadline_aborts: u64,
    /// Responses that the client left before their end.
    pub client_aborts: u64,
    /// Unexpected filesystem faults.
    pub io_faults: u64,
    /// Docroots found changed and pinned anew.
    pub repins: u64,
}

/// A counter after one more event.
pub open spec fn bumped(n: u64) -> u64 {
    n.wrapping_add(1)
}

/// The counters after a response with the given status.
pub open spec fn with_status(c: Counters, status: u16) -> Counters {
    if 200 <= status <= 299 {
        Counters { status_2xx: bumped(c.status_2xx), ..c }
    } else if 300 <= status <= 399 {
        Counters { status_3xx: bumped(c.status_3xx), ..c }
    } else if 400 <= status <= 499 {
        Counters { status_4xx: bumped(c.status_4xx), ..c }
    } else {
        Counters { status_5xx: bumped(c.status_5xx), ..c }
    }
}

pub open spec fn pair_views(pairs: Seq<(&'static str, u64)>) -> Seq<(Seq<char>, u64)> {
    pairs.map_values(|p: (&'static str, u64)| (p.0@, p.1))
}

/// The names and values for exporters.
pub open spec fn exported(c: Counters) -> Seq<(Seq<char>, u64)> {
    seq![
        ("crenel_status_2xx_total"@, c.status_2xx),
        ("crenel_status_3xx_total"@, c.status_3xx),
        ("crenel_status_4xx_total"@, c.status_4xx),
        ("crenel_status_5xx_total"@, c.status_5xx),
        ("crenel_bytes_sent_total"@, c.bytes_sent),
        ("crenel_io_sheds_total"@, c.sheds),
        ("crenel_deadline_aborts_total"@, c.deadline_aborts),
        ("crenel_client_aborts_total"@, c.client_aborts),
        ("crenel_io_faults_total"@, c.io_faults),
        ("crenel_root_repins_total"@, c.repins),
    ]
}

impl Default for Counters {
    fn default() -> (r: Counters)
        ensures
            r == (Counters {
                status_2xx: 0,
                status_3xx: 0,
                status_4xx: 0,
                status_5xx: 0,
                bytes_sent: 0,
                sheds: 0,
                deadline_aborts: 0,
                client_aborts: 0,
                io_faults: 0,
                repins: 0,
            }),
    {
        Counters {
            status_2xx: 0,
            status_3xx: 0,
            status_4xx: 0,
            status_5xx: 0,
            bytes_sent: 0,
            sheds: 0,
            deadline_aborts: 0,
            client_aborts: 0,
            io_faults: 0,
            repins: 0,
        }
    }
}

impl Counters {
    /// Counts a response in the bucket of its status class.
    pub fn record_status(&mut self, status: u16)
        ensures
            *final(self) == with_status(*old(self), status),
    {
        if 200 <= status && status <= 299 {
            self.status_2xx = self.status_2xx.wrapping_add(1);
        } else if 300 <= status && status <= 399 {
            self.status_3xx = self.status_3xx.wrapping_add(1);
        } else if 400 <= status && status <= 499 {
            self.status_4xx = self.status_4xx.wrapping_add(1);
        } else {
            self.status_5xx = self.status_5xx.wrapping_add(1);
        }
    }

    /// Counts body bytes.
    pub fn add_bytes(&mut self, n: u64)
        ensures
            *final(self) == (Counters {
                bytes_sent: old(self).bytes_sent.wrapping_add(n),
                ..*old(self)
            }),
    {
        self.bytes_sent = self.bytes_sent.wrapping_add(n);
    }

    /// Stable pairs of name and value for exporters.
    pub fn snapshot(&self) -> (r: Vec<(&'static str, u64)>)
        ensures
            pair_views(r@) == exported(*self),
            pair_views(r@) == seq![
                ("crenel_status_2xx_total"@, self.status_2xx),
                ("crenel_status_3xx_total"@, self.status_3xx),
                ("crenel_status_4xx_total"@, self.status_4xx),
                ("crenel_status_5xx_total"@, self.status_5xx),
                ("crenel_bytes_sent_total"@, self.bytes_sent),
                ("crenel_io_sheds_total"@, self.sheds),
                ("crenel_deadline_aborts_total"@, self.deadline_aborts),
                ("crenel_client_aborts_total"@, self.client_aborts),
                ("crenel_io_faults_total"@, self.io_faults),
                ("crenel_root_repins_total"@, self.repins),
            ],
    {
        vec![
            ("crenel_status_2xx_total", self.status_2xx),
            ("crenel_status_3xx_total", self.status_3xx),
            ("crenel_status_4xx_total", self.status_4xx),
            ("crenel_status_5xx_total", self.status_5xx),
            ("crenel_bytes_sent_total", self.bytes_sent),
            ("crenel_io_sheds_total", self.sheds),
            ("crenel_deadline_aborts_total", self.deadline_aborts),
            ("crenel_client_aborts_total", self.client_aborts),
            ("crenel_io_faults_total", self.io_faults),
            ("crenel_root_repins_total", self.repins),
        ]
    }
}

} // verus!
