//! The meeting point where the participants of a run join, poll and leave.

use crate::common::hex_string;
use vstd::prelude::*;

verus! {

/// What the plaza keeps of a run.
pub struct PlazaView {
    pub num_participant: nat,
    pub num_join: nat,
    pub shutdown: bool,
    pub shutdown_server: bool,
    pub repair: bool,
}

/// The state of the plaza.
pub struct State {
    num_participant: usize,
    num_join: usize,
    shutdown: bool,
    shutdown_server: bool,
    repair: bool,
}

impl View for State {
    type V = PlazaView;

    closed spec fn view(&self) -> PlazaView {
        PlazaView {
            num_participant: self.num_participant as nat,
            num_join: self.num_join as nat,
            shutdown: self.shutdown,
            shutdown_server: self.shutdown_server,
            repair: self.repair,
        }
    }
}

/// No more participants are in than the run has. The server stops only after a
/// shutdown was asked for, and then as soon as nobody is in.
pub open spec fn consistent(p: PlazaView) -> bool {
    &&& p.num_join <= p.num_participant
    &&& p.shutdown_server ==> p.shutdown
    &&& p.shutdown && p.num_join == 0 ==> p.shutdown_server
}

/// The plaza after a participant joined.
pub open spec fn joined(p: PlazaView) -> PlazaView {
    PlazaView { num_join: p.num_join + 1, ..p }
}

/// The plaza after a participant left.
pub open spec fn left(p: PlazaView) -> PlazaView {
    PlazaView {
        num_join: (p.num_join - 1) as nat,
        shutdown_server: p.shutdown_server || (p.num_join == 1 && p.shutdown),
        ..p
    }
}

/// The plaza after a shutdown was asked for.
pub open spec fn shut_down(p: PlazaView) -> PlazaView {
    PlazaView { shutdown: true, shutdown_server: p.shutdown_server || p.num_join == 0, ..p }
}

impl State {
    pub fn new(num_participant: usize) -> (r: Self)
        ensures
            r@ == (PlazaView {
                num_participant: num_participant as nat,
                num_join: 0,
                shutdown: false,
                shutdown_server: false,
                repair: false,
            }),
            consistent(r@),
    {
        State { num_participant, num_join: 0, shutdown: false, shutdown_server: false, repair: false }
    }

    /// Whether another participant can join.
    pub fn can_join(&self) -> (r: bool)
        ensures
            r == (self@.num_join < self@.num_participant),
    {
        self.num_join < self.num_participant
    }

    /// Whether a participant is in that can leave.
    pub fn can_leave(&self) -> (r: bool)
        ensures
            r == (self@.num_join > 0),
    {
        self.num_join > 0
    }

    /// Whether the server is to stop.
    pub fn server_stopped(&self) -> (r: bool)
        ensures
            r == self@.shutdown_server,
    {
        self.shutdown_server
    }
}

/// Lets a participant in, and says whether it was the last one that the run
/// waited for.
pub fn join(data: &mut State) -> (ready: bool)
    requires
        old(data)@.num_join < old(data)@.num_participant,
    ensures
        final(data)@ == joined(old(data)@),
        ready == (final(data)@.num_join == final(data)@.num_participant),
        consistent(old(data)@) ==> consistent(final(data)@),
{
    data.num_join = data.num_join + 1;
    data.num_join == data.num_participant
}

/// Lets a participant out. The last one out stops the server, if a shutdown was
/// asked for.
pub fn leave(data: &mut State)
    requires
        old(data)@.num_join > 0,
    ensures
        final(data)@ == left(old(data)@),
        consistent(old(data)@) ==> consistent(final(data)@),
{
    let before = data.num_join;
    data.num_join = before - 1;
    if before == 1 && data.shutdown {
        data.shutdown_server = true;
    }
}

/// Whether every participant of the run is in.
pub fn poll_ready(data: &State) -> (r: bool)
    ensures
        r == (data@.num_join == data@.num_participant),
{
    data.num_join == data.num_participant
}

/// Asks the participants to leave. The server stops at once if nobody is in.
pub fn shutdown(data: &mut State)
    ensures
        final(data)@ == shut_down(old(data)@),
        consistent(old(data)@) ==> consistent(final(data)@),
{
    data.shutdown = true;
    if data.num_join == 0 {
        data.shutdown_server = true;
    }
}

/// Asks the participants to repair what they store.
pub fn repair(data: &mut State)
    ensures
        final(data)@ == (PlazaView { repair: true, ..old(data)@ }),
        consistent(old(data)@) ==> consistent(final(data)@),
{
    data.repair = true;
}

/// What a participant learns when it polls.
#[derive(Debug, Clone, Copy, PartialEq, Eq, Structural)]
pub struct PollMessage {
    pub shutdown: bool,
    pub repair: bool,
}

pub fn poll_status(data: &State) -> (r: PollMessage)
    ensures
        r == (PollMessage { shutdown: data@.shutdown, repair: data@.repair }),
{
    PollMessage { shutdown: data.shutdown, repair: data.repair }
}

/// A span of time: whole seconds, and nanoseconds below one second.
#[derive(Debug, Clone, Copy, PartialEq, Eq, Structural)]
pub struct Elapsed {
    pub secs: u64,
    pub nanos: u32,
}

/// The report that the repair of what is stored under `key` is done.
#[derive(Debug, Clone, Copy)]
pub struct RepairFinishMessage {
    pub key: [u8; 32],
    pub duration: Elapsed,
}

/// The start of the line that records a finished repair: an empty column and
/// the key. The duration in seconds follows it.
pub fn repair_finish(message: &RepairFinishMessage) -> (r: String)
    ensures
        r@ == ","@ + crate::common::hex(message.key@) + ","@,
{
    let mut line = String::new();
    line.append(",");
    line.append(hex_string(message.key.as_slice()).as_str());
    line.append(",");
    assert(line@ =~= ","@ + crate::common::hex(message.key@) + ","@);
    line
}

/// What is asked of the plaza and changes it.
pub enum Request {
    Join,
    Leave,
    Shutdown,
    Repair,
}

/// The plaza after the request, where the request can be met.
pub open spec fn answered(p: PlazaView, request: Request) -> Option<PlazaView> {
    match request {
        Request::Join => if p.num_join < p.num_participant {
            Some(joined(p))
        } else {
            None
        },
        Request::Leave => if p.num_join > 0 {
            Some(left(p))
        } else {
            None
        },
        Request::Shutdown => Some(shut_down(p)),
        Request::Repair => Some((PlazaView { repair: true, ..p })),
    }
}

/// The plaza of a run of `n` participants after the requests, one after the
/// other, where all of them can be met.
pub open spec fn after_requests(n: nat, requests: Seq<Request>) -> Option<PlazaView>
    decreases requests.len(),
{
    if requests.len() == 0 {
        Some(
            (PlazaView {
                num_participant: n,
                num_join: 0,
                shutdown: false,
                shutdown_server: false,
                repair: false,
            }),
        )
    } else {
        match after_requests(n, requests.drop_last()) {
            Some(p) => answered(p, requests.last()),
            None => None,
        }
    }
}

/// After the first `i` requests a shutdown was asked for and nobody is in.
pub open spec fn deserted(n: nat, requests: Seq<Request>, i: int) -> bool {
    after_requests(n, requests.take(i)) matches Some(p) && p.shutdown && p.num_join == 0
}

/// The server is to stop exactly when, at some time after a shutdown was asked
/// for, nobody was in.
pub proof fn server_stops_when_deserted(n: nat, requests: Seq<Request>)
    requires
        after_requests(n, requests) is Some,
    ensures
        consistent(after_requests(n, requests)->0),
        after_requests(n, requests)->0.shutdown_server <==> exists|i: int|
            0 <= i <= requests.len() && deserted(n, requests, i),
    decreases requests.len(),
{
    let p = after_requests(n, requests)->0;
    let len = requests.len() as int;
    assert(requests.take(len) =~= requests);
    if requests.len() > 0 {
        let front = requests.drop_last();
        server_stops_when_deserted(n, front);
        assert forall|i: int| 0 <= i < len implies deserted(n, front, i) == #[trigger] deserted(
            n,
            requests,
            i,
        ) by {
            assert(front.take(i) =~= requests.take(i));
        }
        if after_requests(n, front)->0.shutdown_server {
            let i = choose|i: int| 0 <= i <= front.len() && deserted(n, front, i);
            assert(deserted(n, requests, i));
        }
        if p.shutdown_server && !after_requests(n, front)->0.shutdown_server {
            assert(deserted(n, requests, len));
        }
        if exists|i: int| 0 <= i <= requests.len() && deserted(n, requests, i) {
            let i = choose|i: int| 0 <= i <= requests.len() && deserted(n, requests, i);
            if i < len {
                assert(deserted(n, front, i));
            }
        }
    } else {
        assert forall|i: int| 0 <= i <= requests.len() implies !deserted(n, requests, i) by {
            assert(requests.take(i) =~= requests);
        }
    }
}

/// How many participants joined and have not left.
pub open spec fn inside(requests: Seq<Request>) -> int {
    requests.to_multiset().count(Request::Join) - requests.to_multiset().count(Request::Leave)
}

proof fn lemma_last_request(requests: Seq<Request>)
    requires
        requests.len() > 0,
    ensures
        inside(requests) == inside(requests.drop_last()) + (if requests.last() is Join {
            1int
        } else if requests.last() is Leave {
            -1int
        } else {
            0int
        }),
        forall|r: Request| #[trigger]
            requests.contains(r) <==> requests.drop_last().contains(r) || r == requests.last(),
{
    let front = requests.drop_last();
    let last = requests.last();
    assert(front.push(last) =~= requests);
    vstd::seq_lib::to_multiset_build(front, last);
    assert forall|r: Request| #[trigger] requests.contains(r) <==> front.contains(r) || r == last by {
        if requests.contains(r) {
            let i = choose|i: int| 0 <= i < requests.len() && requests[i] == r;
            if i < front.len() {
                assert(front[i] == r);
            }
        }
        if front.contains(r) {
            let i = choose|i: int| 0 <= i < front.len() && front[i] == r;
            assert(requests[i] == r);
        }
        assert(requests[requests.len() - 1] == last);
    }
}

/// Whatever was asked of the plaza, and in whatever order: as many participants
/// are in as joined and did not leave, the run stays as large as it was made, and
/// a shutdown or a repair is announced exactly if it was asked for.
pub proof fn plaza_counts_joins_less_leaves(n: nat, requests: Seq<Request>)
    requires
        after_requests(n, requests) is Some,
    ensures
        ({
            let p = after_requests(n, requests)->0;
            let all = requests.to_multiset();
            &&& p.num_participant == n
            &&& p.num_join == all.count(Request::Join) - all.count(Request::Leave)
            &&& p.shutdown <==> requests.contains(Request::Shutdown)
            &&& p.repair <==> requests.contains(Request::Repair)
        }),
    decreases requests.len(),
{
    if requests.len() > 0 {
        plaza_counts_joins_less_leaves(n, requests.drop_last());
        lemma_last_request(requests);
    } else {
        requests.to_multiset_ensures();
    }
}

/// Requests can be met, one after the other, exactly if at no time more
/// participants are in than the run has, and none leaves that is not in.
pub proof fn requests_are_met_within_the_run(n: nat, requests: Seq<Request>)
    ensures
        after_requests(n, requests) is Some <==> forall|i: int|
            0 <= i <= requests.len() ==> 0 <= #[trigger] inside(requests.take(i)) <= n,
    decreases requests.len(),
{
    let len = requests.len() as int;
    assert(requests.take(len) =~= requests);
    if requests.len() > 0 {
        let front = requests.drop_last();
        requests_are_met_within_the_run(n, front);
        assert forall|i: int| 0 <= i < len implies #[trigger] requests.take(i) == front.take(i) by {
            assert(front.take(i) =~= requests.take(i));
        }
        lemma_last_request(requests);
        if after_requests(n, front) is Some {
            plaza_counts_joins_less_leaves(n, front);
            assert(inside(requests.take(len)) == inside(requests));
        }
        if forall|i: int| 0 <= i <= len ==> 0 <= #[trigger] inside(requests.take(i)) <= n {
            assert forall|i: int| 0 <= i <= front.len() implies 0 <= #[trigger] inside(
                front.take(i),
            ) <= n by {
                assert(0 <= inside(requests.take(i)) <= n);
            }
            assert(0 <= inside(requests.take(len)) <= n);
        }
        if after_requests(n, requests) is Some {
            assert forall|i: int| 0 <= i <= len implies 0 <= #[trigger] inside(requests.take(i))
                <= n by {
                if i < len {
                    assert(0 <= inside(front.take(i)) <= n);
                }
            }
        }
    } else {
        requests.to_multiset_ensures();
        assert forall|i: int| 0 <= i <= requests.len() implies 0 <= #[trigger] inside(
            requests.take(i),
        ) <= n by {
            assert(requests.take(i) =~= requests);
        }
    }
}

/// The server stops when the last participant has left after a shutdown was asked
/// for, or at the shutdown where nobody is in, and at no other time.
pub proof fn server_stops_when_the_last_one_left(n: nat, requests: Seq<Request>)
    requires
        after_requests(n, requests) is Some,
    ensures
        after_requests(n, requests)->0.shutdown_server <==> exists|i: int|
            0 <= i <= requests.len() && #[trigger] inside(requests.take(i)) == 0
                && requests.take(i).contains(Request::Shutdown),
{
    server_stops_when_deserted(n, requests);
    assert forall|i: int| 0 <= i <= requests.len() implies (deserted(n, requests, i)
        <==> #[trigger] inside(requests.take(i)) == 0 && requests.take(i).contains(
        Request::Shutdown,
    )) by {
        lemma_requests_before(n, requests, i);
        plaza_counts_joins_less_leaves(n, requests.take(i));
    }
    if exists|i: int| 0 <= i <= requests.len() && deserted(n, requests, i) {
        let i = choose|i: int| 0 <= i <= requests.len() && deserted(n, requests, i);
        assert(inside(requests.take(i)) == 0);
    }
}

/// Where all of the requests can be met, so can the first of them.
proof fn lemma_requests_before(n: nat, requests: Seq<Request>, i: int)
    requires
        after_requests(n, requests) is Some,
        0 <= i <= requests.len(),
    ensures
        after_requests(n, requests.take(i)) is Some,
    decreases requests.len(),
{
    if i == requests.len() {
        assert(requests.take(i) =~= requests);
    } else {
        lemma_requests_before(n, requests.drop_last(), i);
        assert(requests.drop_last().take(i) =~= requests.take(i));
    }
}

} // verus!
