//! How a peer of a benchmark run gets into its network, and learns of its end.

use crate::peer::Peer;
use crate::plaza::Elapsed;
use vstd::prelude::*;

verus! {

/// A peer of a run.
#[derive(Debug)]
pub enum Participant {
    Peer(Peer),
    BenchmarkPeer(Peer),
}

impl Participant {
    pub open spec fn peer(self) -> Peer {
        match self {
            Participant::Peer(peer) => peer,
            Participant::BenchmarkPeer(peer) => peer,
        }
    }
}

/// What all peers of a run have in common.
#[derive(Debug, Clone, Copy, PartialEq, Eq, Structural)]
pub struct Shared {
    pub fragment_size: u32,
    pub inner_k: u32,
    pub inner_n: u32,
    pub outer_k: u32,
    pub outer_n: u32,
}

/// The answer to a peer that joins.
#[derive(Debug, Clone, Copy, PartialEq, Eq, Structural)]
pub struct Join {
    pub id: u32,
    pub wait: Elapsed,
}

/// The answer to a peer that asks for its run.
#[derive(Debug)]
pub enum Run {
    Retry(Elapsed),
    Shutdown,
    Ready { participants: Vec<Participant>, shared: Shared },
}

/// A run that can begin.
#[derive(Debug)]
pub struct ReadyRun {
    pub participants: Vec<Participant>,
    pub shared: Shared,
    pub join_id: u32,
}

/// The message with which `peer` joins, and where it goes.
pub fn join_request(plaza: &str, peer: &Peer, benchmark: bool) -> (r: (String, Participant))
    ensures
        r.0@ == plaza@ + "/join"@,
        r.1 == (if benchmark {
            Participant::BenchmarkPeer(*peer)
        } else {
            Participant::Peer(*peer)
        }),
{
    let participant = if benchmark {
        Participant::BenchmarkPeer(peer.clone())
    } else {
        Participant::Peer(peer.clone())
    };
    (plaza.to_owned().concat("/join"), participant)
}

/// Where a peer that has joined asks for its run.
pub fn run_uri(plaza: &str) -> (r: String)
    ensures
        r@ == plaza@ + "/run"@,
{
    plaza.to_owned().concat("/run")
}

/// What a peer that has joined does next.
#[derive(Debug)]
pub enum NetworkStep {
    /// Waits, then asks for its run again.
    Ask(Elapsed),
    /// Stops: there is no run.
    Stop,
    /// Begins the run.
    Begin(ReadyRun),
}

/// What a peer does after `join`, and after each answer that it gets then.
pub fn join_network(join: Join, answer: Option<Run>) -> (r: NetworkStep)
    ensures
        match answer {
            None => r == NetworkStep::Ask(join.wait),
            Some(Run::Retry(interval)) => r == NetworkStep::Ask(interval),
            Some(Run::Shutdown) => r is Stop,
            Some(Run::Ready { participants, shared }) => r == NetworkStep::Begin(
                (ReadyRun { participants, shared, join_id: join.id }),
            ),
        },
{
    match answer {
        None => NetworkStep::Ask(join.wait),
        Some(Run::Retry(interval)) => NetworkStep::Ask(interval),
        Some(Run::Shutdown) => NetworkStep::Stop,
        Some(Run::Ready { participants, shared }) => NetworkStep::Begin(
            ReadyRun { participants, shared, join_id: join.id },
        ),
    }
}

/// The peers among the participants: all of them.
pub fn participating_peers(participants: Vec<Participant>) -> (r: Vec<Peer>)
    ensures
        r@ == participants@.map_values(|p: Participant| p.peer()),
{
    let mut peers: Vec<Peer> = Vec::new();
    let n = participants.len();
    let mut i: usize = 0;
    while i < n
        invariant
            i <= n,
            n == participants@.len(),
            peers@.len() == i,
            forall|j: int| 0 <= j < i ==> #[trigger] peers@[j] == participants@[j].peer(),
        decreases n - i,
    {
        let peer = match &participants[i] {
            Participant::Peer(peer) => peer.clone(),
            Participant::BenchmarkPeer(peer) => peer.clone(),
        };
        peers.push(peer);
        i += 1;
    }
    assert(peers@ =~= participants@.map_values(|p: Participant| p.peer()));
    peers
}

/// What a peer learns of the run when it polls.
#[derive(Debug, Clone, Copy, PartialEq, Eq, Structural)]
pub struct News {
    pub shutdown: bool,
    pub wait: Elapsed,
}

/// Where a peer polls.
pub fn news_uri(plaza: &str) -> (r: String)
    ensures
        r@ == plaza@ + "/news"@,
{
    plaza.to_owned().concat("/news")
}

/// How long a peer waits before it polls again, after the last news. There is no
/// next poll after the news of a shutdown.
pub fn poll_network(last: Option<News>) -> (r: Option<Elapsed>)
    ensures
        r == (match last {
            None => Some((Elapsed { secs: 1, nanos: 0 })),
            Some(news) => if news.shutdown {
                None
            } else {
                Some(news.wait)
            },
        }),
{
    match last {
        None => Some(Elapsed { secs: 1, nanos: 0 }),
        Some(news) => {
            if news.shutdown {
                None
            } else {
                Some(news.wait)
            }
        },
    }
}

} // verus!
