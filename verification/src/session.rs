//! The session of a peer at the plaza: it joins, polls until it is asked to shut
//! down, and leaves.

use vstd::prelude::*;

verus! {

/// What a session waits for.
#[derive(Debug, Clone, Copy, PartialEq, Eq, Structural)]
pub enum Phase {
    /// The answer to its wish to join.
    Joining,
    /// The end of the pause between two polls.
    Sleeping,
    /// The answer to a poll, or the shutdown of its peer.
    Polling,
    /// The answer to its farewell.
    Leaving,
    /// Nothing any more.
    Ended,
}

/// What happens to a session.
#[derive(Debug, Clone, Copy, PartialEq, Eq, Structural)]
pub enum Event {
    /// A post was answered with success.
    Posted,
    /// The pause is over.
    Slept,
    /// A poll was answered: whether everyone is asked to shut down.
    Polled(bool),
    /// The peer of this session shuts down.
    Cancelled,
}

/// What a session does next.
pub enum Action {
    /// Posts to the URI.
    Post(String),
    /// Pauses for so many seconds.
    Sleep(u64),
    /// Gets the URI, unless the peer of this session shuts down first.
    Poll(String),
    /// Shuts the peer of this session down, and posts to the URI.
    ShutdownAndPost(String),
    /// Nothing any more.
    End,
}

/// The seconds between two polls.
pub const PAUSE: u64 = 1;

/// What follows when `event` happens in `phase`, if it can happen there.
pub open spec fn next_phase(phase: Phase, event: Event) -> Option<Phase> {
    match (phase, event) {
        (Phase::Joining, Event::Posted) => Some(Phase::Sleeping),
        (Phase::Sleeping, Event::Slept) => Some(Phase::Polling),
        (Phase::Polling, Event::Polled(shutdown)) => if shutdown {
            Some(Phase::Leaving)
        } else {
            Some(Phase::Sleeping)
        },
        (Phase::Polling, Event::Cancelled) => Some(Phase::Leaving),
        (Phase::Leaving, Event::Posted) => Some(Phase::Ended),
        _ => None,
    }
}

/// `action` is what is done on the way into `phase`.
pub open spec fn acts(plaza: Seq<char>, event: Event, phase: Phase, action: Action) -> bool {
    match phase {
        Phase::Joining => action matches Action::Post(uri) && uri@ == plaza + "/join"@,
        Phase::Sleeping => action == Action::Sleep(PAUSE),
        Phase::Polling => action matches Action::Poll(uri) && uri@ == plaza + "/shutdown"@,
        Phase::Leaving => match event {
            Event::Polled(_) => action matches Action::ShutdownAndPost(uri) && uri@ == plaza
                + "/leave"@,
            _ => action matches Action::Post(uri) && uri@ == plaza + "/leave"@,
        },
        Phase::Ended => action is End,
    }
}

/// A session at `plaza`.
#[derive(Debug)]
pub struct Session {
    plaza: String,
    phase: Phase,
}

pub struct SessionView {
    pub plaza: Seq<char>,
    pub phase: Phase,
}

impl View for Session {
    type V = SessionView;

    closed spec fn view(&self) -> SessionView {
        SessionView { plaza: self.plaza@, phase: self.phase }
    }
}

/// Starts a session at `plaza`.
pub fn plaza_session(plaza: String) -> (r: (Session, Action))
    ensures
        r.0@ == (SessionView { plaza: plaza@, phase: Phase::Joining }),
        r.1 matches Action::Post(uri) && uri@ == plaza@ + "/join"@,
{
    let uri = plaza.clone().concat("/join");
    (Session { plaza, phase: Phase::Joining }, Action::Post(uri))
}

impl Session {
    /// Whether `event` can happen now.
    pub fn expects(&self, event: Event) -> (r: bool)
        ensures
            r == next_phase(self@.phase, event) is Some,
    {
        match (self.phase, event) {
            (Phase::Joining, Event::Posted) => true,
            (Phase::Sleeping, Event::Slept) => true,
            (Phase::Polling, Event::Polled(_)) => true,
            (Phase::Polling, Event::Cancelled) => true,
            (Phase::Leaving, Event::Posted) => true,
            _ => false,
        }
    }

    /// Takes the event, and says what is to be done.
    pub fn step(&mut self, event: Event) -> (r: Action)
        requires
            next_phase(old(self)@.phase, event) is Some,
        ensures
            final(self)@.plaza == old(self)@.plaza,
            Some(final(self)@.phase) == next_phase(old(self)@.phase, event),
            acts(old(self)@.plaza, event, final(self)@.phase, r),
    {
        match (self.phase, event) {
            (Phase::Sleeping, _) => {
                self.phase = Phase::Polling;
                Action::Poll(self.plaza.clone().concat("/shutdown"))
            },
            (Phase::Polling, Event::Polled(shutdown)) => {
                if shutdown {
                    self.phase = Phase::Leaving;
                    Action::ShutdownAndPost(self.plaza.clone().concat("/leave"))
                } else {
                    self.phase = Phase::Sleeping;
                    Action::Sleep(PAUSE)
                }
            },
            (Phase::Polling, _) => {
                self.phase = Phase::Leaving;
                Action::Post(self.plaza.clone().concat("/leave"))
            },
            (Phase::Leaving, _) => {
                self.phase = Phase::Ended;
                Action::End
            },
            (_, _) => {
                self.phase = Phase::Sleeping;
                Action::Sleep(PAUSE)
            },
        }
    }
}

/// The phase after the events, one after the other, if they can happen so.
pub open spec fn phase_after(events: Seq<Event>) -> Option<Phase>
    decreases events.len(),
{
    if events.len() == 0 {
        Some(Phase::Joining)
    } else {
        match phase_after(events.drop_last()) {
            Some(phase) => next_phase(phase, events.last()),
            None => None,
        }
    }
}

/// How many of the events answer a post.
pub open spec fn posts(events: Seq<Event>) -> nat
    decreases events.len(),
{
    if events.len() == 0 {
        0
    } else if events.last() is Posted {
        posts(events.drop_last()) + 1
    } else {
        posts(events.drop_last())
    }
}

/// A session that ends joined once and left once.
pub proof fn ended_session_joined_and_left_once(events: Seq<Event>)
    requires
        phase_after(events) == Some(Phase::Ended),
    ensures
        posts(events) == 2,
        events.first() is Posted,
        events.last() is Posted,
{
    lemma_posts(events);
}

proof fn lemma_posts(events: Seq<Event>)
    requires
        phase_after(events) is Some,
    ensures
        posts(events) == match phase_after(events)->0 {
            Phase::Joining => 0nat,
            Phase::Ended => 2nat,
            _ => 1nat,
        },
        events.len() == 0 <==> phase_after(events) == Some(Phase::Joining),
        events.len() > 0 ==> events.first() is Posted,
    decreases events.len(),
{
    if events.len() > 0 {
        lemma_posts(events.drop_last());
        if events.len() > 1 {
            assert(events.drop_last().first() == events.first());
        }
    }
}

/// A session ends only after everyone was asked to shut down, or its peer was.
pub proof fn session_ends_on_shutdown_only(events: Seq<Event>)
    requires
        phase_after(events) == Some(Phase::Ended),
    ensures
        events.contains(Event::Polled(true)) || events.contains(Event::Cancelled),
{
    lemma_leaving(events);
}

proof fn lemma_leaving(events: Seq<Event>)
    requires
        phase_after(events) == Some(Phase::Ended) || phase_after(events) == Some(Phase::Leaving),
    ensures
        events.contains(Event::Polled(true)) || events.contains(Event::Cancelled),
    decreases events.len(),
{
    let front = events.drop_last();
    let n = events.len() - 1;
    assert(events[n] == events.last());
    if phase_after(events) == Some(Phase::Ended) {
        lemma_leaving(front);
        let e = if front.contains(Event::Polled(true)) {
            Event::Polled(true)
        } else {
            Event::Cancelled
        };
        let i = choose|i: int| 0 <= i < front.len() && front[i] == e;
        assert(events[i] == e);
    }
}

/// What may happen after `event`, which was the first to happen or not.
pub open spec fn may_follow(event: Event, first: bool, next: Event) -> bool {
    match event {
        Event::Posted => first && next is Slept,
        Event::Slept => next is Polled || next is Cancelled,
        Event::Polled(shutdown) => if shutdown {
            next is Posted
        } else {
            next is Slept
        },
        Event::Cancelled => next is Posted,
    }
}

/// What can happen to a session: first its wish to join is answered. After that, and
/// after each poll that asks for no shutdown, it pauses; after a pause it polls, until
/// a poll asks for the shutdown or its own peer shuts down. Then its farewell is
/// answered, and nothing happens any more.
pub proof fn session_goes_on_like_this(events: Seq<Event>)
    ensures
        phase_after(events) is Some <==> {
            &&& events.len() > 0 ==> events[0] is Posted
            &&& forall|i: int|
                1 <= i < events.len() ==> may_follow(events[i - 1], i == 1, #[trigger] events[i])
        },
        phase_after(events) is Some && events.len() > 0 ==> phase_after(events) == Some(
            match events.last() {
                Event::Posted => if events.len() == 1 {
                    Phase::Sleeping
                } else {
                    Phase::Ended
                },
                Event::Slept => Phase::Polling,
                Event::Polled(shutdown) => if shutdown {
                    Phase::Leaving
                } else {
                    Phase::Sleeping
                },
                Event::Cancelled => Phase::Leaving,
            },
        ),
        events.len() == 0 ==> phase_after(events) == Some(Phase::Joining),
    decreases events.len(),
{
    if events.len() > 0 {
        let front = events.drop_last();
        let n = events.len() - 1;
        session_goes_on_like_this(front);
        if forall|i: int|
            1 <= i < events.len() ==> may_follow(events[i - 1], i == 1, #[trigger] events[i]) {
            assert forall|i: int| 1 <= i < front.len() implies may_follow(
                front[i - 1],
                i == 1,
                #[trigger] front[i],
            ) by {
                assert(may_follow(events[i - 1], i == 1, events[i]));
            }
            if n >= 1 {
                assert(may_follow(events[n - 1], n == 1, events[n]));
            }
        }
        if phase_after(events) is Some {
            assert forall|i: int| 1 <= i < events.len() implies may_follow(
                events[i - 1],
                i == 1,
                #[trigger] events[i],
            ) by {
                if i < n {
                    assert(may_follow(front[i - 1], i == 1, front[i]));
                }
            }
            if n >= 1 {
                assert(front[0] == events[0]);
            }
        }
    }
}

/// What a session does after each event: it pauses for a second after it has joined,
/// and after a poll that asks for no shutdown; it polls after a pause; asked to shut
/// down, it shuts its peer down and takes leave; where its peer shuts down by itself,
/// it only takes leave; and that is all.
pub proof fn session_does_this(
    plaza: Seq<char>,
    phase: Phase,
    event: Event,
    next: Phase,
    action: Action,
)
    requires
        next_phase(phase, event) == Some(next),
        acts(plaza, event, next, action),
    ensures
        match event {
            Event::Posted => if phase is Joining {
                action == Action::Sleep(1)
            } else {
                phase is Leaving && action is End
            },
            Event::Slept => action matches Action::Poll(uri) && uri@ == plaza + "/shutdown"@,
            Event::Polled(shutdown) => if shutdown {
                action matches Action::ShutdownAndPost(uri) && uri@ == plaza + "/leave"@
            } else {
                action == Action::Sleep(1)
            },
            Event::Cancelled => action matches Action::Post(uri) && uri@ == plaza + "/leave"@,
        },
{
}

} // verus!
