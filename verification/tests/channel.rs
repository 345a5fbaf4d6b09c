use deltasync::sync::{RecvDecision, SendDecision, SharedState};

/// Lets the senders of `pending` try in their order, and returns the index that was sent.
fn send_any(state: &SharedState, pending: &mut Vec<usize>) -> Option<usize> {
    let ready = pending.iter().position(|idx| state.send(*idx) == SendDecision::Ready)?;
    Some(pending.remove(ready))
}

#[test]
fn ordered() {
    let mut state = SharedState::new();
    let mut pending = vec![2, 1, 0, 3];
    let values = ["first", "second", "third", "fourth"];
    let mut received = Vec::new();
    for _ in 0..4 {
        assert!(state.begin_recv());
        let idx = send_any(&state, &mut pending).unwrap();
        assert_eq!(state.recv(true, true), RecvDecision::Ready);
        received.push(values[idx]);
        state.finish_recv();
    }
    assert_eq!(received, ["first", "second", "third", "fourth"]);
    assert!(state.begin_recv());
    assert_eq!(send_any(&state, &mut pending), None);
    assert_eq!(state.recv(false, false), RecvDecision::Over);
}

#[test]
fn dropping_rx() {
    let mut state = SharedState::new();
    assert_eq!(state.send(10), SendDecision::Wait);
    assert!(state.close());
    assert_eq!(state.send(10), SendDecision::Closed);
}

#[test]
fn cancel_safe() {
    let mut state = SharedState::new();
    assert!(state.begin_recv());
    // cancelled, and taken up again
    assert!(!state.begin_recv());
    assert_eq!(state.send(1), SendDecision::Wait);
    assert_eq!(state.send(0), SendDecision::Ready);
    state.finish_recv();
    assert!(state.begin_recv());
    assert_eq!(state.send(1), SendDecision::Ready);
    state.finish_recv();
    state.begin_recv();
    assert_eq!(state.recv(false, false), RecvDecision::Over);
}

#[test]
fn no_deadlock_if_recv_canceled() {
    let mut state = SharedState::new();
    state.begin_recv();
    assert_eq!(state.send(0), SendDecision::Ready);
    state.finish_recv();
    state.begin_recv();
    assert!(state.close());
    assert_eq!(state.send(1), SendDecision::Closed);
}

#[test]
fn nothing_is_sent_before_it_is_asked_for() {
    let state = SharedState::new();
    assert_eq!(state.send(0), SendDecision::Wait);
}

#[test]
fn closing_twice() {
    let mut state = SharedState::new();
    assert!(state.close());
    assert!(!state.close());
    assert!(state.begin_recv());
    assert_eq!(state.send(0), SendDecision::Closed);
}

#[test]
fn receives_on_a_closed_channel_give_nothing() {
    let mut state = SharedState::new();
    state.close();
    state.begin_recv();
    assert_eq!(state.recv(false, true), RecvDecision::Over);
    assert_eq!(state.recv(true, true), RecvDecision::Ready);
}

#[test]
fn receives_wait_while_there_are_senders() {
    let mut state = SharedState::new();
    state.begin_recv();
    assert_eq!(state.recv(false, true), RecvDecision::Wait);
    assert_eq!(state.recv(false, false), RecvDecision::Over);
    assert_eq!(state.recv(true, false), RecvDecision::Ready);
}

#[test]
fn receives_can_begin() {
    let mut state = SharedState::new();
    assert!(state.can_begin());
    state.begin_recv();
    assert!(state.can_begin());
    state.finish_recv();
    assert!(state.can_begin());
}
