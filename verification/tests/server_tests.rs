use moba_proto::model::{Message, Status};
use moba_proto::server::{Client, Outgoing, Phase, Server};
use moba_proto::service::Service;

#[test]
fn client_send_deactivates_on_failure() {
    let mut c = Client::new();
    assert!(c.send(true));
    assert!(c.active);
    assert!(!c.send(false));
    assert!(!c.active);
    // once inactive, nothing goes out
    assert!(!c.send(true));
    assert!(!c.active);
}

#[test]
fn receive_records_claimed_ids() {
    let mut s = Server::new(7, 2);
    let a = s.register_client();
    let b = s.register_client();
    assert_eq!(s.connected(), 2);
    s.receive(a, Message::BattleInit { battle: 7, player: 11 });
    s.receive(b, Message::BattleInit { battle: 7, player: 12 });
    assert_eq!(s.client(a).player, 11);
    assert_eq!(s.client(b).player, 12);
    assert_eq!(s.client(a).status, Status::Init);
}

fn send_targets(out: &[Outgoing]) -> Vec<usize> {
    out.iter().map(|o| o.client).collect()
}

#[test]
fn full_battle_lifecycle() {
    let mut s = Server::new(7, 2);
    let a = s.register_client();
    let b = s.register_client();
    let c = s.register_client();
    // not enough players yet
    let out = s.tick();
    assert!(out.is_empty());
    assert_eq!(s.phase(), Phase::Preparing);

    s.receive(a, Message::BattleInit { battle: 7, player: 4 });
    let out = s.tick();
    assert_eq!(send_targets(&out), vec![a]);
    match &out[0].msg {
        Message::BattleInit { battle, player } => assert_eq!((*battle, *player), (7, 4)),
        m => panic!("unexpected {:?}", m),
    }
    assert_eq!(s.client(a).status, Status::Wait);
    assert_eq!(s.phase(), Phase::Preparing);

    s.receive(b, Message::BattleInit { battle: 7, player: 9 });
    let out = s.tick();
    assert_eq!(send_targets(&out), vec![b]);
    assert_eq!(s.phase(), Phase::Loading);
    assert_eq!(s.players(), &vec![4u8, 9u8]);
    // the client that never announced itself is dropped
    assert!(s.client(c).dropped);
    assert!(!s.client(a).dropped);

    // loading: metadata to the waiting clients only
    let out = s.tick();
    assert_eq!(send_targets(&out), vec![a, b]);
    match &out[1].msg {
        Message::BattleMeta { battle, player, raw } => {
            assert_eq!((*battle, *player), (7, 9));
            assert_eq!(raw, &vec![4u8, 9u8]);
        }
        m => panic!("unexpected {:?}", m),
    }
    // a dropped client is no longer heard
    s.receive(c, Message::BattleMeta { battle: 7, player: 0, raw: vec![] });
    assert_eq!(s.client(c).status, Status::Connected);
    s.receive(a, Message::BattleMeta { battle: 7, player: 4, raw: vec![] });
    s.receive(b, Message::BattleMeta { battle: 7, player: 9, raw: vec![] });
    let out = s.tick();
    assert!(out.is_empty());
    assert_eq!(s.phase(), Phase::Starting);

    // starting: start requests to ready clients
    let out = s.tick();
    assert_eq!(send_targets(&out), vec![a, b]);
    assert!(matches!(out[0].msg, Message::BattleStart { battle: 7 }));
    s.receive(a, Message::BattleStart { battle: 7 });
    s.receive(b, Message::BattleStart { battle: 7 });
    let out = s.tick();
    assert!(out.is_empty());
    assert_eq!(s.phase(), Phase::Running);

    // running: inputs from started clients reach the next frame, in order;
    // the dropped client neither adds input nor receives frames
    s.receive(b, Message::DataInput { battle: 7, player: 9, actions: vec![5, 6] });
    s.receive(c, Message::DataInput { battle: 7, player: 0, actions: vec![99] });
    s.receive(a, Message::DataInput { battle: 7, player: 4, actions: vec![7] });
    let out = s.tick();
    assert_eq!(send_targets(&out), vec![a, b]);
    for o in out.iter() {
        match &o.msg {
            Message::DataFrame { battle, frame, actions } => {
                assert_eq!(*battle, 7);
                assert_eq!(*frame, 1);
                assert_eq!(actions, &vec![5, 6, 7]);
            }
            m => panic!("unexpected {:?}", m),
        }
    }
    let out = s.tick();
    match &out[0].msg {
        Message::DataFrame { frame, actions, .. } => {
            assert_eq!(*frame, 2);
            assert!(actions.is_empty());
        }
        m => panic!("unexpected {:?}", m),
    }

    // stopping: once enough clients stop, the battle stops and broadcasting ends
    s.receive(a, Message::BattleStop { battle: 7 });
    assert_eq!(s.client(a).status, Status::Stop);
    let out = s.tick();
    assert_eq!(out.len(), 2);
    assert_eq!(s.phase(), Phase::Running);
    s.receive(b, Message::BattleStop { battle: 7 });
    let out = s.tick();
    assert!(out.is_empty());
    assert_eq!(s.phase(), Phase::Stopped);
    assert!(s.tick().is_empty());
    assert_eq!(s.phase(), Phase::Stopped);
}

#[test]
fn duplicate_claims_stay_announced() {
    let mut s = Server::new(1, 3);
    let a = s.register_client();
    let b = s.register_client();
    let c = s.register_client();
    s.receive(a, Message::BattleInit { battle: 1, player: 5 });
    s.receive(b, Message::BattleInit { battle: 1, player: 5 });
    s.receive(c, Message::BattleInit { battle: 1, player: 6 });
    let out = s.tick();
    assert_eq!(send_targets(&out), vec![a, c]);
    assert_eq!(s.client(a).status, Status::Wait);
    assert_eq!(s.client(b).status, Status::Init);
    assert_eq!(s.client(c).status, Status::Wait);
    // the claim stays refused while a waiting client holds the id
    let out = s.tick();
    assert!(out.is_empty());
    assert_eq!(s.client(b).status, Status::Init);
    // a fresh claim is accepted
    s.receive(b, Message::BattleInit { battle: 1, player: 8 });
    let out = s.tick();
    assert_eq!(send_targets(&out), vec![b]);
    assert_eq!(s.phase(), Phase::Loading);
    assert_eq!(s.players(), &vec![5u8, 8u8, 6u8]);
}

#[test]
fn announce_for_another_battle_is_ignored() {
    let mut s = Server::new(7, 1);
    let a = s.register_client();
    s.receive(a, Message::BattleInit { battle: 8, player: 3 });
    assert_eq!(s.client(a).status, Status::Connected);
    s.receive(a, Message::BattleInit { battle: 7, player: 3 });
    assert_eq!(s.client(a).status, Status::Init);
    assert_eq!(s.client(a).player, 3);
}

#[test]
fn later_waiting_client_blocks_claim() {
    let mut s = Server::new(1, 5);
    let a = s.register_client();
    let b = s.register_client();
    s.receive(b, Message::BattleInit { battle: 1, player: 3 });
    s.tick();
    assert_eq!(s.client(b).status, Status::Wait);
    s.receive(a, Message::BattleInit { battle: 1, player: 3 });
    let out = s.tick();
    assert!(out.is_empty());
    assert_eq!(s.client(a).status, Status::Init);
}

#[test]
fn late_clients_are_dropped() {
    let mut s = Server::new(1, 1);
    let a = s.register_client();
    s.receive(a, Message::BattleInit { battle: 1, player: 2 });
    s.tick();
    assert_eq!(s.phase(), Phase::Loading);
    let late = s.register_client();
    assert!(s.client(late).dropped);
    let out = s.tick();
    assert_eq!(send_targets(&out), vec![a]);
}

#[test]
fn advance_runs_rounds_that_move_on() {
    let mut s = Server::new(1, 1);
    let a = s.register_client();
    s.receive(a, Message::BattleInit { battle: 1, player: 2 });
    // preparing ends, and the loading round runs right away
    let out = s.advance();
    assert_eq!(send_targets(&out), vec![a, a]);
    assert!(matches!(out[0].msg, Message::BattleInit { .. }));
    assert!(matches!(out[1].msg, Message::BattleMeta { .. }));
    assert_eq!(s.phase(), Phase::Loading);
    s.receive(a, Message::BattleMeta { battle: 1, player: 2, raw: vec![] });
    let out = s.advance();
    // loading ends; the starting round asks the ready client to start
    assert_eq!(send_targets(&out), vec![a]);
    assert!(matches!(out[0].msg, Message::BattleStart { .. }));
    assert_eq!(s.phase(), Phase::Starting);
}

#[test]
fn get_frame_concatenates_and_counts() {
    let mut s = Server::new(3, 1);
    let a = s.register_client();
    s.receive(a, Message::BattleStart { battle: 3 });
    s.receive(a, Message::DataInput { battle: 3, player: 0, actions: vec![1] });
    s.receive(a, Message::DataInput { battle: 3, player: 0, actions: vec![2, 3] });
    match s.get_frame(9) {
        Message::DataFrame { battle, frame, actions } => {
            assert_eq!((battle, frame), (9, 1));
            assert_eq!(actions, vec![1, 2, 3]);
        }
        m => panic!("unexpected {:?}", m),
    }
    match s.get_frame(9) {
        Message::DataFrame { frame, actions, .. } => {
            assert_eq!(frame, 2);
            assert!(actions.is_empty());
        }
        m => panic!("unexpected {:?}", m),
    }
}

#[test]
fn inputs_before_start_are_dropped() {
    let mut s = Server::new(3, 1);
    let a = s.register_client();
    s.receive(a, Message::DataInput { battle: 3, player: 0, actions: vec![1] });
    match s.get_frame(3) {
        Message::DataFrame { actions, .. } => assert!(actions.is_empty()),
        m => panic!("unexpected {:?}", m),
    }
}

#[test]
fn record_send_marks_inactive() {
    let mut s = Server::new(1, 1);
    let a = s.register_client();
    assert!(s.record_send(a, true));
    assert!(!s.record_send(a, false));
    assert!(!s.client(a).active);
    assert!(!s.record_send(a, true));
}

#[test]
fn service_settings_and_replies() {
    let svc = Service::new(300, 2);
    assert_eq!(svc.battle, 44);
    assert_eq!(svc.players, 2);
    match svc.start_client(258) {
        Message::BattleInit { battle, player } => assert_eq!((battle, player), (44, 2)),
        m => panic!("unexpected {:?}", m),
    }
    match svc.client_input(5) {
        Message::DataInput { battle, player, actions } => {
            assert_eq!((battle, player), (44, 5));
            assert!(actions.is_empty());
        }
        m => panic!("unexpected {:?}", m),
    }
    assert!(matches!(
        svc.handle_server_message(Message::BattleStart { battle: 1 }),
        Some(Message::BattleStart { battle: 1 })
    ));
    assert!(matches!(
        svc.handle_server_message(Message::BattleMeta { battle: 1, player: 2, raw: vec![3] }),
        Some(Message::BattleMeta { battle: 1, player: 2, .. })
    ));
    assert!(svc.handle_server_message(Message::BattleInit { battle: 1, player: 2 }).is_none());
}
