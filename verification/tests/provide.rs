use dshe::provide::{BarChange, Connections, ProvideAction, ProvideEvent, RequestProgress, RequestUpdate};

fn connect(c: &mut Connections, connection_id: u64) {
    let mut id = [0u8; 32];
    id[0] = 0xab;
    id[4] = 0x0f;
    id[5] = 0x77;
    let r = c.handle(ProvideEvent::Connected { connection_id, endpoint_id: Some(id) });
    assert!(matches!(r, ProvideAction::Nothing));
}

fn close(c: &mut Connections, connection_id: u64) -> (Vec<u64>, bool) {
    match c.handle(ProvideEvent::Closed { connection_id }) {
        ProvideAction::Clear { requests, done } => (requests.into_iter().collect(), done),
        other => panic!("{other:?}"),
    }
}

fn receive(c: &mut Connections, connection_id: u64, request_id: u64) -> RequestProgress {
    match c.handle(ProvideEvent::Received { connection_id, request_id }) {
        ProvideAction::ShowRequest { endpoint_id } => {
            RequestProgress { connection_id, request_id, endpoint_id }
        }
        other => panic!("{other:?}"),
    }
}

#[test]
fn a_served_connection_counts_as_done() {
    let mut c = Connections::new();
    connect(&mut c, 1);
    let r = receive(&mut c, 1, 7);
    assert_eq!(r.endpoint_id, "ab0000000f");
    r.update(&mut c, RequestUpdate::Completed);
    assert_eq!(close(&mut c, 1), (vec![], true));
    assert_eq!(close(&mut c, 1), (vec![], false));
}

#[test]
fn receivers_are_served_one_after_the_other() {
    let mut c = Connections::new();
    connect(&mut c, 99);
    for id in [1, 2, 3, 1] {
        connect(&mut c, id);
        for request in [1, 2] {
            let r = receive(&mut c, id, request);
            assert_eq!(r.endpoint_id, "ab0000000f");
            assert!(matches!(r.update(&mut c, RequestUpdate::Completed), BarChange::Nothing));
        }
        assert_eq!(close(&mut c, id), (vec![], true));
    }
    assert_eq!(close(&mut c, 99), (vec![], false));
}

#[test]
fn an_unserved_connection_does_not_count() {
    let mut c = Connections::new();
    connect(&mut c, 1);
    let a = receive(&mut c, 1, 9);
    receive(&mut c, 1, 8);
    receive(&mut c, 1, 7);
    a.update(&mut c, RequestUpdate::Aborted);
    assert_eq!(close(&mut c, 1), (vec![7, 8], false));
}

#[test]
fn connecting_again_starts_afresh() {
    let mut c = Connections::new();
    connect(&mut c, 1);
    receive(&mut c, 1, 1).update(&mut c, RequestUpdate::Completed);
    connect(&mut c, 1);
    assert_eq!(close(&mut c, 1), (vec![], false));
}

#[test]
fn connections_do_not_touch_each_other() {
    let mut c = Connections::new();
    connect(&mut c, 1);
    connect(&mut c, 2);
    receive(&mut c, 1, 1).update(&mut c, RequestUpdate::Completed);
    receive(&mut c, 2, 1);
    assert_eq!(close(&mut c, 2), (vec![1], false));
    assert_eq!(close(&mut c, 1), (vec![], true));
}

#[test]
fn an_unknown_connection_has_no_requests() {
    let mut c = Connections::new();
    let r = c.handle(ProvideEvent::Received { connection_id: 5, request_id: 1 });
    assert!(matches!(r, ProvideAction::UnknownConnection));
    c.handle(ProvideEvent::Completed { connection_id: 5, request_id: 1 });
    assert_eq!(close(&mut c, 5), (vec![], false));
}

#[test]
fn an_unknown_endpoint_is_a_question_mark() {
    let mut c = Connections::new();
    c.handle(ProvideEvent::Connected { connection_id: 3, endpoint_id: None });
    assert_eq!(receive(&mut c, 3, 1).endpoint_id, "?");
}

#[test]
fn bars_follow_the_request() {
    let mut c = Connections::new();
    connect(&mut c, 3);
    let r = receive(&mut c, 3, 12);
    let mut hash = [0x11u8; 32];
    hash[5] = 0xff;
    match r.update(&mut c, RequestUpdate::Started { index: 2, hash, size: 99 }) {
        BarChange::Start { message, length } => {
            assert_eq!(message, "n ab0000000f r 3/12 i 2 # 1111111111");
            assert_eq!(length, 99);
        }
        other => panic!("{other:?}"),
    }
    assert!(matches!(
        r.update(&mut c, RequestUpdate::Progress { end_offset: 40 }),
        BarChange::Position { position: 40 }
    ));
    assert!(matches!(r.update(&mut c, RequestUpdate::Completed), BarChange::Nothing));
}
