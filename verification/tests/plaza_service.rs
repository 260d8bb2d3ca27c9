use entropy::benchmark_plaza::{
    join_network, join_request, news_uri, participating_peers, poll_network, run_uri, Join, News,
    NetworkStep, Participant, Run, Shared,
};
use entropy::peer::Peer;
use entropy::plaza::{
    join, leave, poll_ready, poll_status, repair, repair_finish, shutdown, Elapsed, PollMessage,
    RepairFinishMessage, State,
};
use entropy::session::{plaza_session, Action, Event};

#[test]
fn run_is_ready_when_all_have_joined() {
    let mut state = State::new(2);
    assert!(!poll_ready(&state));
    assert!(!join(&mut state));
    assert!(state.can_join());
    assert!(join(&mut state));
    assert!(!state.can_join());
    assert!(poll_ready(&state));
    leave(&mut state);
    assert!(!poll_ready(&state));
}

#[test]
fn server_stops_after_the_last_one_left() {
    let mut state = State::new(2);
    join(&mut state);
    join(&mut state);
    shutdown(&mut state);
    assert_eq!(poll_status(&state), PollMessage { shutdown: true, repair: false });
    assert!(!state.server_stopped());
    leave(&mut state);
    assert!(!state.server_stopped());
    leave(&mut state);
    assert!(state.server_stopped());
    assert!(!state.can_leave());
}

#[test]
fn server_stops_at_once_when_nobody_is_in() {
    let mut state = State::new(1);
    join(&mut state);
    leave(&mut state);
    assert!(!state.server_stopped());
    shutdown(&mut state);
    assert!(state.server_stopped());
}

#[test]
fn repair_is_announced() {
    let mut state = State::new(1);
    repair(&mut state);
    assert_eq!(poll_status(&state), PollMessage { shutdown: false, repair: true });
}

#[test]
fn finished_repair_is_recorded() {
    let message = RepairFinishMessage { key: [0xa5; 32], duration: Elapsed { secs: 1, nanos: 2 } };
    assert_eq!(repair_finish(&message), format!(",{},", "a5".repeat(32)));
}

fn post_to(action: Action, uri: &str) -> bool {
    match action {
        Action::Post(u) => u == uri,
        _ => false,
    }
}

#[test]
fn session_leaves_when_asked_to_shut_down() {
    let (mut session, action) = plaza_session(String::from("http://p:8080"));
    assert!(post_to(action, "http://p:8080/join"));
    assert!(!session.expects(Event::Slept));
    assert!(matches!(session.step(Event::Posted), Action::Sleep(1)));
    match session.step(Event::Slept) {
        Action::Poll(uri) => assert_eq!(uri, "http://p:8080/shutdown"),
        _ => unreachable!(),
    }
    assert!(matches!(session.step(Event::Polled(false)), Action::Sleep(1)));
    assert!(matches!(session.step(Event::Slept), Action::Poll(_)));
    match session.step(Event::Polled(true)) {
        Action::ShutdownAndPost(uri) => assert_eq!(uri, "http://p:8080/leave"),
        _ => unreachable!(),
    }
    assert!(matches!(session.step(Event::Posted), Action::End));
    assert!(!session.expects(Event::Posted));
}

#[test]
fn session_leaves_when_its_peer_shuts_down() {
    let (mut session, _) = plaza_session(String::from("http://p:8080"));
    session.step(Event::Posted);
    assert!(!session.expects(Event::Cancelled));
    session.step(Event::Slept);
    assert!(session.expects(Event::Cancelled));
    assert!(post_to(session.step(Event::Cancelled), "http://p:8080/leave"));
}

#[test]
fn peer_joins_a_network() {
    let peer = Peer { id: [1; 32], key: [2; 32], uri: String::from("http://h:1") };
    let (uri, participant) = join_request("http://p", &peer, true);
    assert_eq!(uri, "http://p/join");
    assert!(matches!(participant, Participant::BenchmarkPeer(p) if p.id == [1; 32]));
    assert!(matches!(join_request("http://p", &peer, false).1, Participant::Peer(_)));
    assert_eq!(run_uri("http://p"), "http://p/run");

    let wait = Elapsed { secs: 3, nanos: 0 };
    let interval = Elapsed { secs: 0, nanos: 500 };
    let join = Join { id: 7, wait };
    assert!(matches!(join_network(join, None), NetworkStep::Ask(d) if d == wait));
    assert!(
        matches!(join_network(join, Some(Run::Retry(interval))), NetworkStep::Ask(d) if d == interval)
    );
    assert!(matches!(join_network(join, Some(Run::Shutdown)), NetworkStep::Stop));
    let shared = Shared { fragment_size: 1, inner_k: 2, inner_n: 3, outer_k: 4, outer_n: 5 };
    let ready = Run::Ready {
        participants: vec![Participant::Peer(peer.clone()), Participant::BenchmarkPeer(peer)],
        shared,
    };
    match join_network(join, Some(ready)) {
        NetworkStep::Begin(run) => {
            assert_eq!(run.join_id, 7);
            assert_eq!(run.shared, shared);
            let peers = participating_peers(run.participants);
            assert_eq!(peers.len(), 2);
            assert_eq!(peers[1].uri, "http://h:1");
        }
        _ => unreachable!(),
    }
}

#[test]
fn news_are_polled_until_shutdown() {
    let wait = Elapsed { secs: 5, nanos: 1 };
    assert_eq!(news_uri("http://p"), "http://p/news");
    assert_eq!(poll_network(None), Some(Elapsed { secs: 1, nanos: 0 }));
    assert_eq!(poll_network(Some(News { shutdown: false, wait })), Some(wait));
    assert_eq!(poll_network(Some(News { shutdown: true, wait })), None);
}
