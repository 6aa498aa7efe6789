//! Port-scan bookkeeping. The network I/O itself lives in the application
//! layer; this module holds everything the scanner decides: which probe
//! outcomes make a port open, how per-host results aggregate, which hosts
//! survive into the final result set, the probe state machine, and the
//! admission gate that bounds how many attempts are ever in flight.

use vstd::prelude::*;

verus! {

/// One finished device observation, latency in whole milliseconds.
pub struct ScanResult {
    pub ip: String,
    pub mac: String,
    pub hostname: String,
    pub vendor: String,
    pub status: String,
    pub response_time_ms: u64,
    pub open_ports: Vec<u16>,
    pub discovery_method: String,
}

/// The well-known TCP ports offered as a default scan profile.
pub fn get_common_ports() -> (r: Vec<u16>)
    ensures
        r@ == seq![
            21u16, 22u16, 23u16, 25u16, 53u16, 80u16, 110u16, 111u16, 135u16, 139u16, 143u16,
            443u16, 445u16, 993u16, 995u16, 1723u16, 3306u16, 3389u16, 5432u16, 5900u16, 8080u16,
            8443u16,
        ],
{
    let r = vec![
        21u16, 22u16, 23u16, 25u16, 53u16, 80u16, 110u16, 111u16, 135u16, 139u16, 143u16, 443u16,
        445u16, 993u16, 995u16, 1723u16, 3306u16, 3389u16, 5432u16, 5900u16, 8080u16, 8443u16,
    ];
    proof {
        assert(r@ =~= seq![
            21u16, 22u16, 23u16, 25u16, 53u16, 80u16, 110u16, 111u16, 135u16, 139u16, 143u16,
            443u16, 445u16, 993u16, 995u16, 1723u16, 3306u16, 3389u16, 5432u16, 5900u16, 8080u16,
            8443u16,
        ]);
    }
    r
}

/// The ports whose probe came back within the timeout, in probe order.
pub open spec fn open_ports_spec(attempts: Seq<(u16, Option<u64>)>) -> Seq<u16>
    decreases attempts.len(),
{
    if attempts.len() == 0 {
        Seq::<u16>::empty()
    } else {
        open_ports_spec(attempts.drop_last()) + if attempts.last().1 is Some {
            seq![attempts.last().0]
        } else {
            Seq::<u16>::empty()
        }
    }
}

/// The least observed latency over the successful probes, if any.
pub open spec fn min_latency_spec(attempts: Seq<(u16, Option<u64>)>) -> Option<u64>
    decreases attempts.len(),
{
    if attempts.len() == 0 {
        None
    } else {
        let rest = min_latency_spec(attempts.drop_last());
        match attempts.last().1 {
            None => rest,
            Some(lat) => match rest {
                None => Some(lat),
                Some(m) => if lat < m {
                    Some(lat)
                } else {
                    Some(m)
                },
            },
        }
    }
}

/// The latency a host reports: the least observed one, or zero when no
/// probe succeeded. A heuristic proxy for round-trip time, not a precise
/// measurement.
pub open spec fn host_latency_spec(attempts: Seq<(u16, Option<u64>)>) -> u64 {
    match min_latency_spec(attempts) {
        None => 0u64,
        Some(m) => m,
    }
}

/// Aggregate one host's probe outcomes: its open ports in probe order and
/// its reported latency.
pub fn aggregate_host(attempts: &Vec<(u16, Option<u64>)>) -> (r: (Vec<u16>, u64))
    ensures
        r.0@ == open_ports_spec(attempts@),
        r.1 == host_latency_spec(attempts@),
{
    let mut open_ports: Vec<u16> = Vec::new();
    let mut best: Option<u64> = None;
    let mut i: usize = 0;
    while i < attempts.len()
        invariant
            i <= attempts@.len(),
            open_ports@ == open_ports_spec(attempts@.take(i as int)),
            best == min_latency_spec(attempts@.take(i as int)),
        decreases attempts@.len() - i,
    {
        proof {
            assert(attempts@.take(i as int + 1).drop_last() =~= attempts@.take(i as int));
            assert(attempts@.take(i as int + 1).last() == attempts@[i as int]);
        }
        let ghost prevp = open_ports@;
        match attempts[i].1 {
            Some(lat) => {
                open_ports.push(attempts[i].0);
                proof {
                    assert(open_ports@ =~= prevp + seq![attempts@[i as int].0]);
                }
                best = match best {
                    None => Some(lat),
                    Some(m) => if lat < m {
                        Some(lat)
                    } else {
                        Some(m)
                    },
                };
            },
            None => {
                proof {
                    assert(open_ports@ =~= open_ports_spec(attempts@.take(i as int + 1)));
                }
            },
        }
        i = i + 1;
    }
    proof {
        assert(attempts@.take(attempts@.len() as int) =~= attempts@);
    }
    let latency: u64 = match best {
        None => 0,
        Some(m) => m,
    };
    (open_ports, latency)
}

/// A host none of whose probes succeeded reports no open ports and zero
/// latency, so the result builder drops it from the final set.
pub proof fn lemma_silent_host_yields_nothing(attempts: Seq<(u16, Option<u64>)>)
    requires
        forall|k: int| 0 <= k < attempts.len() ==> (#[trigger] attempts[k]).1 is None,
    ensures
        open_ports_spec(attempts) == Seq::<u16>::empty(),
        host_latency_spec(attempts) == 0,
    decreases attempts.len(),
{
    if attempts.len() > 0 {
        lemma_silent_host_yields_nothing(attempts.drop_last());
        assert(open_ports_spec(attempts) =~= Seq::<u16>::empty());
    }
}

/// The per-host aggregates that stay in the final result set: exactly the
/// hosts with at least one open port.
pub open spec fn kept_hosts(hosts: Seq<(String, Vec<u16>, u64)>) -> Seq<(String, Vec<u16>, u64)>
    decreases hosts.len(),
{
    if hosts.len() == 0 {
        Seq::<(String, Vec<u16>, u64)>::empty()
    } else {
        kept_hosts(hosts.drop_last()) + if hosts.last().1@.len() != 0 {
            seq![hosts.last()]
        } else {
            Seq::<(String, Vec<u16>, u64)>::empty()
        }
    }
}

/// Turn per-host aggregates into the final result set: hosts with no open
/// port are dropped silently, the rest are reported with status `up`.
pub fn build_scan_results(hosts: Vec<(String, Vec<u16>, u64)>) -> (r: Vec<ScanResult>)
    ensures
        r@.len() == kept_hosts(hosts@).len(),
        forall|t: int|
            0 <= t < r@.len() ==> {
                let k = kept_hosts(hosts@)[t];
                (#[trigger] r@[t]).ip == k.0 && r@[t].open_ports@ == k.1@
                    && r@[t].response_time_ms == k.2 && r@[t].status@ == "up"@ && r@[t].mac@
                    == Seq::<char>::empty() && r@[t].hostname@ == Seq::<char>::empty()
                    && r@[t].vendor@ == Seq::<char>::empty() && r@[t].discovery_method@ == "tcp"@
            },
{
    let mut out: Vec<ScanResult> = Vec::new();
    let mut i: usize = 0;
    while i < hosts.len()
        invariant
            i <= hosts@.len(),
            out@.len() == kept_hosts(hosts@.take(i as int)).len(),
            forall|t: int|
                0 <= t < out@.len() ==> {
                    let k = kept_hosts(hosts@.take(i as int))[t];
                    (#[trigger] out@[t]).ip == k.0 && out@[t].open_ports@ == k.1@
                        && out@[t].response_time_ms == k.2 && out@[t].status@ == "up"@
                        && out@[t].mac@ == Seq::<char>::empty() && out@[t].hostname@
                        == Seq::<char>::empty() && out@[t].vendor@ == Seq::<char>::empty()
                        && out@[t].discovery_method@ == "tcp"@
                },
        decreases hosts@.len() - i,
    {
        proof {
            assert(hosts@.take(i as int + 1).drop_last() =~= hosts@.take(i as int));
            assert(hosts@.take(i as int + 1).last() == hosts@[i as int]);
        }
        let ghost prevk = kept_hosts(hosts@.take(i as int));
        if hosts[i].1.len() != 0 {
            let ip = hosts[i].0.clone();
            let mut ports: Vec<u16> = Vec::new();
            let mut t: usize = 0;
            while t < hosts[i].1.len()
                invariant
                    t <= hosts@[i as int].1@.len(),
                    i < hosts@.len(),
                    ports@ == hosts@[i as int].1@.take(t as int),
                decreases hosts@[i as int].1@.len() - t,
            {
                let p = hosts[i].1[t];
                ports.push(p);
                proof {
                    assert(ports@ =~= hosts@[i as int].1@.take(t as int + 1));
                }
                t = t + 1;
            }
            proof {
                assert(ports@ =~= hosts@[i as int].1@);
            }
            let entry = ScanResult {
                ip,
                mac: String::new(),
                hostname: String::new(),
                vendor: String::new(),
                status: String::from_str("up"),
                response_time_ms: hosts[i].2,
                open_ports: ports,
                discovery_method: String::from_str("tcp"),
            };
            out.push(entry);
            proof {
                assert(kept_hosts(hosts@.take(i as int + 1)) =~= prevk + seq![hosts@[i as int]]);
            }
        } else {
            proof {
                assert(kept_hosts(hosts@.take(i as int + 1)) =~= prevk);
            }
        }
        i = i + 1;
    }
    proof {
        assert(hosts@.take(hosts@.len() as int) =~= hosts@);
    }
    out
}

/// One probe's lifecycle.
#[derive(PartialEq, Eq, Structural, Clone, Copy, Debug)]
pub enum ProbeState {
    Pending,
    InFlight,
    Succeeded,
    TimedOut,
}

/// What the runtime reports about a probe.
#[derive(PartialEq, Eq, Structural, Clone, Copy, Debug)]
pub enum ProbeEvent {
    Admitted,
    Connected,
    Expired,
}

/// Advance one probe through `Pending -> InFlight -> {Succeeded,
/// TimedOut}`; an event that does not apply leaves the state alone.
pub fn probe_step(s: ProbeState, ev: ProbeEvent) -> (r: ProbeState)
    ensures
        s == ProbeState::Pending && ev == ProbeEvent::Admitted ==> r == ProbeState::InFlight,
        s == ProbeState::InFlight && ev == ProbeEvent::Connected ==> r == ProbeState::Succeeded,
        s == ProbeState::InFlight && ev == ProbeEvent::Expired ==> r == ProbeState::TimedOut,
        !((s == ProbeState::Pending && ev == ProbeEvent::Admitted) || (s == ProbeState::InFlight
            && (ev == ProbeEvent::Connected || ev == ProbeEvent::Expired))) ==> r == s,
{
    match (s, ev) {
        (ProbeState::Pending, ProbeEvent::Admitted) => ProbeState::InFlight,
        (ProbeState::InFlight, ProbeEvent::Connected) => ProbeState::Succeeded,
        (ProbeState::InFlight, ProbeEvent::Expired) => ProbeState::TimedOut,
        _ => s,
    }
}

/// The admission gate: a counting ticket pool that keeps the number of
/// in-flight connection attempts at or under the configured ceiling, the
/// scan's only global synchronization point.
pub struct ScanGate {
    limit: usize,
    in_flight: usize,
}

impl ScanGate {
    /// The configured ceiling.
    pub closed spec fn limit(&self) -> int {
        self.limit as int
    }

    /// How many attempts hold a ticket now.
    pub closed spec fn in_flight(&self) -> int {
        self.in_flight as int
    }

    /// Well-formedness: at most the configured ceiling is outstanding.
    pub open spec fn wf(&self) -> bool {
        self.in_flight() <= self.limit()
    }

    pub fn new(limit: usize) -> (g: ScanGate)
        ensures
            g.wf(),
            g.limit() == limit,
            g.in_flight() == 0,
    {
        ScanGate { limit, in_flight: 0 }
    }

    /// Ask for a ticket: granted exactly when a slot is free, so the count
    /// can never pass the ceiling.
    pub fn try_acquire(&mut self) -> (granted: bool)
        requires
            old(self).wf(),
        ensures
            final(self).wf(),
            final(self).limit() == old(self).limit(),
            granted ==> old(self).in_flight() < old(self).limit() && final(self).in_flight()
                == old(self).in_flight() + 1,
            !granted ==> old(self).in_flight() == old(self).limit() && final(self).in_flight()
                == old(self).in_flight(),
    {
        if self.in_flight < self.limit {
            self.in_flight = self.in_flight + 1;
            true
        } else {
            false
        }
    }

    /// Hand a ticket back once the attempt resolved, however it resolved.
    pub fn release(&mut self)
        requires
            old(self).wf(),
            old(self).in_flight() > 0,
        ensures
            final(self).wf(),
            final(self).limit() == old(self).limit(),
            final(self).in_flight() == old(self).in_flight() - 1,
    {
        self.in_flight = self.in_flight - 1;
    }
}

} // verus!
