//! The counters kept for each upstream server, the registry of link groups
//! that holds them, and the copy of one group that a report is built from.

use crate::reading::Binary64;
use vstd::prelude::*;

verus! {

/// The counters accumulated for one server, or summed over a link group.
#[derive(Debug)]
pub struct ServerStats {
    pub alias: String,
    /// All requests that were handled.
    pub requests: u64,
    /// Those among them that succeeded.
    pub successes: u64,
    pub success_on_first_attempt: u64,
    pub success_on_retry: u64,
    pub fail_network_down: u64,
    pub fail_bad_request: u64,
    pub fail_others: u64,
    /// The rolling average latency, in milliseconds.
    pub avg_latency_ms: Binary64,
    /// Above zero for a healthy server, with the size as confidence; zero
    /// without data; not finite without a sample.
    pub health_score: Binary64,
}

impl ServerStats {
    /// An owned copy.
    pub fn copy(&self) -> (stats: ServerStats)
        ensures
            stats == *self,
    {
        ServerStats {
            alias: self.alias.clone(),
            requests: self.requests,
            successes: self.successes,
            success_on_first_attempt: self.success_on_first_attempt,
            success_on_retry: self.success_on_retry,
            fail_network_down: self.fail_network_down,
            fail_bad_request: self.fail_bad_request,
            fail_others: self.fail_others,
            avg_latency_ms: self.avg_latency_ms,
            health_score: self.health_score,
        }
    }

    /// Whether the health score is finite and above zero.
    pub open spec fn is_healthy(self) -> bool {
        self.health_score@.is_positive()
    }
}

/// One candidate upstream server of a link group.
#[derive(Debug)]
pub struct TargetServer {
    pub stats: ServerStats,
}

/// A link group: a named set of candidate servers, in a fixed order.
#[derive(Debug)]
pub struct InputPort {
    pub name: String,
    pub all_servers_stats: ServerStats,
    pub target_servers: Vec<TargetServer>,
}

/// The shared routing state, as far as a report reads it.
#[derive(Debug)]
pub struct Globals {
    pub input_ports: Vec<InputPort>,
}

/// The position of the first link group named `name`, if there is one.
pub open spec fn find_port(ports: Seq<InputPort>, name: Seq<char>) -> Option<int>
    decreases ports.len(),
{
    if ports.len() == 0 {
        None
    } else {
        match find_port(ports.drop_last(), name) {
            Some(i) => Some(i),
            None => if ports.last().name@ == name {
                Some(ports.len() - 1)
            } else {
                None
            },
        }
    }
}

/// What `find_port` finds is a link group of that name, the first of them;
/// it finds nothing only where no link group has the name.
pub proof fn lemma_find_port(ports: Seq<InputPort>, name: Seq<char>)
    ensures
        match find_port(ports, name) {
            Some(i) => 0 <= i < ports.len() && ports[i].name@ == name && forall|k: int|
                0 <= k < i ==> (#[trigger] ports[k]).name@ != name,
            None => forall|k: int| 0 <= k < ports.len() ==> (#[trigger] ports[k]).name@ != name,
        },
    decreases ports.len(),
{
    if ports.len() > 0 {
        lemma_find_port(ports.drop_last(), name);
        assert forall|k: int| 0 <= k < ports.len() - 1 implies ports.drop_last()[k] == ports[k] by {}
        match find_port(ports.drop_last(), name) {
            Some(i) => {
                assert(ports.drop_last()[i] == ports[i]);
                assert forall|k: int| 0 <= k < i implies (#[trigger] ports[k]).name@ != name by {
                    assert(ports.drop_last()[k] == ports[k]);
                }
            },
            None => {
                assert forall|k: int| 0 <= k < ports.len() - 1 implies (#[trigger] ports[k]).name@
                    != name by {
                    assert(ports.drop_last()[k] == ports[k]);
                }
            },
        }
    }
}

/// The stats of each server of a link group, in the group's order.
pub open spec fn server_stats(servers: Seq<TargetServer>) -> Seq<ServerStats> {
    Seq::new(servers.len(), |i: int| servers[i].stats)
}

/// An owned copy of the counters of one link group.
#[derive(Debug)]
pub struct StatsSnapshot {
    pub all_servers_stats: ServerStats,
    pub target_servers_stats: Vec<ServerStats>,
}

impl StatsSnapshot {
    /// Whether this is a copy of `port`.
    pub open spec fn copies(self, port: InputPort) -> bool {
        &&& self.all_servers_stats == port.all_servers_stats
        &&& self.target_servers_stats@ == server_stats(port.target_servers@)
    }
}

impl Globals {
    /// The first link group with the given name.
    pub fn find_input_port_by_name(&self, name: &str) -> (found: Option<&InputPort>)
        ensures
            match find_port(self.input_ports@, name@) {
                Some(i) => found == Some(&self.input_ports[i]),
                None => found is None,
            },
    {
        let wanted = name.to_string();
        let mut i: usize = 0;
        proof {
            assert(self.input_ports@.take(0).len() == 0);
        }
        while i < self.input_ports.len()
            invariant
                i <= self.input_ports.len(),
                wanted@ == name@,
                find_port(self.input_ports@.take(i as int), name@) is None,
            decreases self.input_ports.len() - i,
        {
            proof {
                assert(self.input_ports@.take(i + 1).drop_last() == self.input_ports@.take(
                    i as int,
                ));
                assert(self.input_ports@.take(i + 1).last() == self.input_ports[i as int]);
            }
            if self.input_ports[i].name == wanted {
                proof {
                    lemma_find_port_prefix(self.input_ports@, name@, i + 1);
                }
                return Some(&self.input_ports[i]);
            }
            i = i + 1;
        }
        proof {
            assert(self.input_ports@.take(self.input_ports.len() as int) == self.input_ports@);
        }
        None
    }

    /// Copies the counters of the link group named `workdir`; `None` where
    /// there is no such group.
    pub fn snapshot(&self, workdir: &str) -> (snapshot: Option<StatsSnapshot>)
        ensures
            match find_port(self.input_ports@, workdir@) {
                Some(i) => snapshot is Some && snapshot->0.copies(self.input_ports[i]),
                None => snapshot is None,
            },
    {
        match self.find_input_port_by_name(workdir) {
            Some(port) => {
                let mut copied: Vec<ServerStats> = Vec::new();
                let mut i: usize = 0;
                while i < port.target_servers.len()
                    invariant
                        i <= port.target_servers.len(),
                        copied@ == server_stats(port.target_servers@.take(i as int)),
                    decreases port.target_servers.len() - i,
                {
                    copied.push(port.target_servers[i].stats.copy());
                    proof {
                        assert(copied@ =~= server_stats(port.target_servers@.take(i + 1)));
                    }
                    i = i + 1;
                }
                proof {
                    assert(port.target_servers@.take(port.target_servers.len() as int)
                        == port.target_servers@);
                }
                Some(
                    StatsSnapshot {
                        all_servers_stats: port.all_servers_stats.copy(),
                        target_servers_stats: copied,
                    },
                )
            },
            None => None,
        }
    }
}

/// What is found in the first `n` link groups is what is found in all of them.
proof fn lemma_find_port_prefix(ports: Seq<InputPort>, name: Seq<char>, n: int)
    requires
        0 <= n <= ports.len(),
        find_port(ports.take(n), name) is Some,
    ensures
        find_port(ports, name) == find_port(ports.take(n), name),
    decreases ports.len() - n,
{
    if n < ports.len() {
        assert(ports.take(n + 1).drop_last() == ports.take(n));
        lemma_find_port_prefix(ports, name, n + 1);
    } else {
        assert(ports.take(n) == ports);
    }
}

} // verus!
