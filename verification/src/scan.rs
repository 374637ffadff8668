//! The scan orchestrator's state machine. A scanner holds the ports still
//! pending, the ports whose probes are in flight, and the findings so far;
//! `launch` hands out work only while a concurrency slot is free, and
//! `complete` records one probe's outcome. The driver that owns the sockets
//! calls these two; everything it may rely on is stated here and proved.

use vstd::prelude::*;

use crate::addr::IpAddress;

verus! {

/// How long a probe waits for a freshly connected service to send its
/// banner, in milliseconds. Compiled in, deliberately not configurable.
pub const BANNER_READ_TIMEOUT_MS: u64 = 200;

/// How many bytes of a banner a probe reads at most.
pub const BANNER_READ_LIMIT: usize = 128;

/// What one probe of one port ended in. Only `Open` carries information out
/// of a scan; a closed port, a timeout and a transport failure are recorded
/// and dropped alike.
pub enum ProbeOutcome {
    Open(Option<String>),
    Closed,
    TimedOut,
    Failed,
}

/// One open port: the scanned address, the port, and the sanitized banner if
/// the service sent one.
pub struct Finding {
    pub host: IpAddress,
    pub port: u16,
    pub banner: Option<String>,
}

impl Finding {
    /// The constant status every reported finding carries.
    pub fn status(&self) -> (r: &'static str)
        ensures
            r@ == "open"@,
    {
        "open"
    }
}

pub open spec fn distinct_seq(s: Seq<u16>) -> bool {
    forall|i: int, j: int| 0 <= i < j < s.len() ==> s[i] != s[j]
}

proof fn lemma_push_contains(s: Seq<u16>, x: u16)
    ensures
        forall|q: u16| #[trigger] s.push(x).contains(q) <==> (s.contains(q) || q == x),
{
    assert forall|q: u16| #[trigger] s.push(x).contains(q) implies (s.contains(q) || q == x) by {
        let i = choose|i: int| 0 <= i < s.push(x).len() && s.push(x)[i] == q;
        if i < s.len() {
            assert(s[i] == q);
        }
    }
    assert forall|q: u16| (s.contains(q) || q == x) implies #[trigger] s.push(x).contains(q) by {
        if s.contains(q) {
            let i = choose|i: int| 0 <= i < s.len() && s[i] == q;
            assert(s.push(x)[i] == q);
        } else {
            assert(s.push(x)[s.len() as int] == x);
        }
    }
}

proof fn lemma_skip1_contains(s: Seq<u16>)
    requires
        s.len() > 0,
        distinct_seq(s),
    ensures
        forall|q: u16| #[trigger] s.skip(1).contains(q) <==> (s.contains(q) && q != s[0]),
        distinct_seq(s.skip(1)),
{
    assert forall|q: u16| #[trigger] s.skip(1).contains(q) implies (s.contains(q) && q
        != s[0]) by {
        let i = choose|i: int| 0 <= i < s.skip(1).len() && s.skip(1)[i] == q;
        assert(s[i + 1] == q);
    }
    assert forall|q: u16| (s.contains(q) && q != s[0]) implies #[trigger] s.skip(1).contains(
        q,
    ) by {
        let i = choose|i: int| 0 <= i < s.len() && s[i] == q;
        assert(s.skip(1)[i - 1] == q);
    }
}

proof fn lemma_remove_contains(s: Seq<u16>, k: int)
    requires
        0 <= k < s.len(),
        distinct_seq(s),
    ensures
        forall|q: u16| #[trigger] s.remove(k).contains(q) <==> (s.contains(q) && q != s[k]),
        distinct_seq(s.remove(k)),
{
    assert forall|q: u16| #[trigger] s.remove(k).contains(q) implies (s.contains(q) && q
        != s[k]) by {
        let i = choose|i: int| 0 <= i < s.remove(k).len() && s.remove(k)[i] == q;
        if i < k {
            assert(s[i] == q);
        } else {
            assert(s[i + 1] == q);
        }
    }
    assert forall|q: u16| (s.contains(q) && q != s[k]) implies #[trigger] s.remove(k).contains(
        q,
    ) by {
        let i = choose|i: int| 0 <= i < s.len() && s[i] == q;
        if i < k {
            assert(s.remove(k)[i] == q);
        } else {
            assert(s.remove(k)[i - 1] == q);
        }
    }
}

/// The scan orchestrator's state. At most `concurrency` probes are in
/// flight at once; every port is in exactly one of pending, in flight, or
/// completed; and the report holds exactly the completed ports whose probe
/// found them open, in completion order.
pub struct Scanner {
    pub target: IpAddress,
    pub concurrency: usize,
    pub pending: Vec<u16>,
    pub in_flight: Vec<u16>,
    pub report: Vec<Finding>,
    /// The outcome each completed port's probe ended in.
    pub completed: Ghost<Map<u16, ProbeOutcome>>,
    /// Every port this scan was asked to probe.
    pub all_ports: Ghost<Seq<u16>>,
}

impl Scanner {
    /// Whether port `p` appears in the report.
    pub open spec fn reported(self, p: u16) -> bool {
        exists|i: int| 0 <= i < self.report@.len() && self.report@[i].port == p
    }

    /// Everything the scan maintains, from construction to the last
    /// completion.
    pub open spec fn well_formed(self) -> bool {
        &&& self.concurrency >= 1
        &&& self.in_flight@.len() <= self.concurrency
        &&& distinct_seq(self.pending@)
        &&& distinct_seq(self.in_flight@)
        &&& forall|p: u16|
            #[trigger] self.pending@.contains(p) ==> self.all_ports@.contains(p)
                && !self.in_flight@.contains(p) && !self.completed@.dom().contains(p)
        &&& forall|p: u16|
            #[trigger] self.in_flight@.contains(p) ==> self.all_ports@.contains(p)
                && !self.completed@.dom().contains(p)
        &&& forall|p: u16|
            #[trigger] self.completed@.dom().contains(p) ==> self.all_ports@.contains(p)
        &&& forall|p: u16|
            #[trigger] self.all_ports@.contains(p) ==> (self.pending@.contains(p)
                || self.in_flight@.contains(p) || self.completed@.dom().contains(p))
        &&& forall|i: int|
            0 <= i < self.report@.len() ==> {
                let f = #[trigger] self.report@[i];
                &&& f.host == self.target
                &&& self.completed@.dom().contains(f.port)
                &&& self.completed@[f.port] is Open
                &&& f.banner == self.completed@[f.port]->Open_0
            }
        &&& forall|p: u16|
            (#[trigger] self.completed@.dom().contains(p) && self.completed@[p] is Open)
                ==> self.reported(p)
        &&& forall|i: int, j: int|
            0 <= i < j < self.report@.len() ==> self.report@[i].port != self.report@[j].port
    }

    /// Nothing remains pending or in flight.
    pub open spec fn done_spec(self) -> bool {
        self.pending@.len() == 0 && self.in_flight@.len() == 0
    }

    /// Starts a scan of `ports` against `target` with at most `concurrency`
    /// probes in flight at once. The ports must be distinct, as
    /// `parse_ports` yields them.
    pub fn new(target: IpAddress, ports: Vec<u16>, concurrency: usize) -> (s: Scanner)
        requires
            concurrency >= 1,
            distinct_seq(ports@),
        ensures
            s.well_formed(),
            s.target == target,
            s.concurrency == concurrency,
            s.pending@ == ports@,
            s.in_flight@.len() == 0,
            s.report@.len() == 0,
            s.all_ports@ == ports@,
            s.completed@ == Map::<u16, ProbeOutcome>::empty(),
    {
        let ghost ap = ports@;
        Scanner {
            target,
            concurrency,
            in_flight: Vec::new(),
            report: Vec::new(),
            completed: Ghost(Map::empty()),
            all_ports: Ghost(ap),
            pending: ports,
        }
    }

    /// Takes the next port to probe, if any port remains and a concurrency
    /// slot is free; the port moves from pending to in flight. `None` means
    /// either nothing is pending or the bound is reached.
    pub fn launch(&mut self) -> (r: Option<u16>)
        requires
            old(self).well_formed(),
        ensures
            final(self).well_formed(),
            final(self).target == old(self).target,
            final(self).concurrency == old(self).concurrency,
            final(self).all_ports == old(self).all_ports,
            final(self).completed == old(self).completed,
            final(self).report == old(self).report,
            match r {
                Some(p) => {
                    &&& old(self).pending@.len() > 0
                    &&& old(self).in_flight@.len() < old(self).concurrency
                    &&& p == old(self).pending@[0]
                    &&& final(self).pending@ == old(self).pending@.skip(1)
                    &&& final(self).in_flight@ == old(self).in_flight@.push(p)
                },
                None => {
                    &&& (old(self).pending@.len() == 0 || old(self).in_flight@.len() >= old(
                        self,
                    ).concurrency)
                    &&& *final(self) == *old(self)
                },
            },
    {
        if self.pending.len() == 0 {
            return None;
        }
        if self.in_flight.len() >= self.concurrency {
            return None;
        }
        let ghost oldpend = self.pending@;
        let ghost oldfly = self.in_flight@;
        let p = self.pending.remove(0);
        self.in_flight.push(p);
        proof {
            assert(oldpend.remove(0) =~= oldpend.skip(1));
            lemma_skip1_contains(oldpend);
            lemma_push_contains(oldfly, p);
            assert(oldpend.contains(p));
            assert forall|i: int, j: int|
                0 <= i < j < self.in_flight@.len() implies self.in_flight@[i]
                != self.in_flight@[j] by {
                if j < oldfly.len() {
                } else {
                    assert(self.in_flight@[i] == oldfly[i]);
                    assert(oldfly.contains(oldfly[i]));
                }
            }
        }
        Some(p)
    }

    /// Records the outcome of the probe of `port`: the port leaves the
    /// in-flight set, and an open outcome appends a finding with its banner.
    pub fn complete(&mut self, port: u16, outcome: ProbeOutcome)
        requires
            old(self).well_formed(),
            old(self).in_flight@.contains(port),
        ensures
            final(self).well_formed(),
            final(self).target == old(self).target,
            final(self).concurrency == old(self).concurrency,
            final(self).all_ports == old(self).all_ports,
            final(self).pending == old(self).pending,
            final(self).in_flight@.len() == old(self).in_flight@.len() - 1,
            forall|q: u16|
                #[trigger] final(self).in_flight@.contains(q) <==> (old(
                    self,
                ).in_flight@.contains(q) && q != port),
            final(self).completed@ == old(self).completed@.insert(port, outcome),
            outcome is Open ==> final(self).report@ == old(self).report@.push(
                Finding { host: old(self).target, port, banner: outcome->Open_0 },
            ),
            !(outcome is Open) ==> final(self).report@ == old(self).report@,
    {
        let ghost oc = outcome;
        let ghost oldfly = self.in_flight@;
        let n = self.in_flight.len();
        let mut k: usize = 0;
        while k < n && self.in_flight[k] != port
            invariant
                k <= n,
                n == self.in_flight@.len(),
                self.in_flight@.contains(port),
                forall|i: int| 0 <= i < k ==> self.in_flight@[i] != port,
            decreases n - k,
        {
            k += 1;
        }
        proof {
            if k == n {
                let i = choose|i: int| 0 <= i < oldfly.len() && oldfly[i] == port;
                assert(false);
            }
        }
        self.in_flight.remove(k);
        proof {
            lemma_remove_contains(oldfly, k as int);
        }
        self.completed = Ghost(self.completed@.insert(port, oc));
        let ghost oldrep = self.report@;
        match outcome {
            ProbeOutcome::Open(b) => {
                let host = self.target;
                self.report.push(Finding { host, port, banner: b });
            },
            _ => {},
        }
        proof {
            assert forall|p: u16| #[trigger] self.completed@.dom().contains(p) implies self.all_ports@.contains(p) by {
                if p != port {
                    assert(old(self).completed@.dom().contains(p));
                }
            }
            if oc is Open {
                assert(self.report@.last() == Finding { host: self.target, port, banner: oc->Open_0 });
                assert forall|p: u16|
                    (#[trigger] self.completed@.dom().contains(p) && self.completed@[p] is Open)
                        implies self.reported(p) by {
                    if p == port {
                        assert(self.report@[self.report@.len() - 1].port == port);
                    } else {
                        assert(old(self).completed@.dom().contains(p));
                        assert(old(self).reported(p));
                        let i = choose|i: int|
                            0 <= i < oldrep.len() && oldrep[i].port == p;
                        assert(self.report@[i].port == p);
                    }
                }
                assert forall|i: int, j: int|
                    0 <= i < j < self.report@.len() implies self.report@[i].port
                    != self.report@[j].port by {
                    if j == self.report@.len() - 1 {
                        assert(!old(self).completed@.dom().contains(port));
                        assert(self.report@[i] == oldrep[i]);
                    }
                }
            } else {
                assert forall|p: u16|
                    (#[trigger] self.completed@.dom().contains(p) && self.completed@[p] is Open)
                        implies self.reported(p) by {
                    if p != port {
                        assert(old(self).completed@.dom().contains(p));
                        assert(old(self).reported(p));
                    }
                }
            }
        }
    }

    /// Whether every requested port has been probed to completion.
    pub fn is_done(&self) -> (r: bool)
        ensures
            r <==> self.done_spec(),
    {
        self.pending.len() == 0 && self.in_flight.len() == 0
    }

    /// How many probes are in flight right now.
    pub fn in_flight_count(&self) -> (r: usize)
        ensures
            r == self.in_flight@.len(),
    {
        self.in_flight.len()
    }

    /// Whether the probe of `port` is in flight; a driver checks this
    /// before calling `complete`.
    pub fn is_in_flight(&self, port: u16) -> (r: bool)
        ensures
            r <==> self.in_flight@.contains(port),
    {
        let n = self.in_flight.len();
        let mut k: usize = 0;
        while k < n
            invariant
                k <= n,
                n == self.in_flight@.len(),
                forall|i: int| 0 <= i < k ==> self.in_flight@[i] != port,
            decreases n - k,
        {
            if self.in_flight[k] == port {
                return true;
            }
            k += 1;
        }
        false
    }

    /// Hands the finished report out, in completion order.
    pub fn into_report(self) -> (r: Vec<Finding>)
        ensures
            r@ == self.report@,
    {
        self.report
    }
}

/// Law: a well-formed scanner never has more probes in flight than its
/// concurrency bound, whatever sequence of launches and completions built
/// it.
pub proof fn lemma_concurrency_bound(s: Scanner)
    requires
        s.well_formed(),
    ensures
        s.in_flight@.len() <= s.concurrency,
{
}

/// Law: when a scan is done, every requested port has a recorded outcome,
/// and the report holds exactly the ports whose probe found them open.
pub proof fn lemma_done_report(s: Scanner)
    requires
        s.well_formed(),
        s.done_spec(),
    ensures
        forall|p: u16|
            #[trigger] s.all_ports@.contains(p) ==> s.completed@.dom().contains(p),
        forall|p: u16|
            #[trigger] s.reported(p) <==> (s.all_ports@.contains(p)
                && s.completed@.dom().contains(p) && s.completed@[p] is Open),
{
    assert forall|p: u16| #[trigger] s.reported(p) implies (s.all_ports@.contains(p)
        && s.completed@.dom().contains(p) && s.completed@[p] is Open) by {
        let i = choose|i: int| 0 <= i < s.report@.len() && s.report@[i].port == p;
        assert(s.report@[i].port == p);
    }
}

/// Law: two finished scans of the same set of ports whose probes ended the
/// same way report the same set of open ports, whatever order the
/// completions arrived in either run.
pub proof fn lemma_scan_deterministic(s1: Scanner, s2: Scanner)
    requires
        s1.well_formed(),
        s2.well_formed(),
        s1.done_spec(),
        s2.done_spec(),
        forall|p: u16| #[trigger] s1.all_ports@.contains(p) <==> #[trigger] s2.all_ports@.contains(p),
        forall|p: u16|
            #[trigger] s1.all_ports@.contains(p) ==> (s1.completed@[p] is Open
                <==> s2.completed@[p] is Open),
    ensures
        forall|p: u16| #[trigger] s1.reported(p) <==> #[trigger] s2.reported(p),
{
    lemma_done_report(s1);
    lemma_done_report(s2);
}

} // verus!
