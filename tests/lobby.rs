use draft_server::game::Seat;
use draft_server::lobby::{DraftServer, Stage};
use draft_server::messages::{ClientMessage, ClientStatus, DraftServerRequest, Outgoing, ServerMessage};
use draft_server::packs::{DraftConfig, DraftPool};
use uuid::Uuid;

fn seat() -> Seat {
    Uuid::new_v4().as_u128()
}

fn to(out: &[Outgoing], seat: Seat) -> Vec<&ServerMessage> {
    out.iter()
        .filter_map(|o| match o {
            Outgoing::Send(s, m) if *s == seat => Some(m),
            _ => None,
        })
        .collect()
}

fn connect(server: &mut DraftServer, seat: Seat) -> Vec<Outgoing> {
    server.handle_request(DraftServerRequest::Connect(seat), 0, &Vec::new())
}

fn send(server: &mut DraftServer, seat: Seat, m: ClientMessage) -> Vec<Outgoing> {
    server.handle_request(DraftServerRequest::Message(seat, m), 0, &Vec::new())
}

fn add_client(server: &mut DraftServer, lobby: u128) -> Seat {
    let user = seat();
    let out = connect(server, user);
    assert!(matches!(out[0], Outgoing::Attach(s) if s == user));
    let mine = to(&out, user);
    match mine[0] {
        ServerMessage::Connected { draft, seat } => {
            assert_eq!(*draft, lobby);
            assert_eq!(*seat, user);
        }
        _ => panic!("Expected to receive connected message first."),
    }
    match mine[1] {
        ServerMessage::PlayerList(players) => assert!(players.iter().any(|p| p.seat == user)),
        _ => panic!("Expected to receive player list second."),
    }
    user
}

#[test]
fn test_joining_closing_server() {
    let mut server = DraftServer::new(7, DraftConfig::default(), DraftPool::new());
    let user = add_client(&mut server, 7);
    let out = server.handle_request(DraftServerRequest::Terminate(String::new()), 0, &Vec::new());
    assert!(matches!(out[0], Outgoing::CloseRequests));
    assert!(matches!(to(&out, user)[0], ServerMessage::FatalError(..)));
    assert!(!server.is_open());
    assert_eq!(server.current_stage(), Stage::Terminated);
}

#[test]
fn test_draft() {
    let pool = DraftPool::sample(1, 1, 1, 1);
    let config = DraftConfig {
        rounds: 1,
        cards_per_pack: 2,
        unique_cards: true,
        use_rarities: false,
        ..Default::default()
    };
    let mut server = DraftServer::new(1, config, pool);
    let p1 = add_client(&mut server, 1);
    let out = connect(&mut server, seat());
    let p2 = match &out[0] {
        Outgoing::Attach(s) => *s,
        _ => panic!("Expected the new connection to be attached."),
    };
    assert!(matches!(to(&out, p1)[0], ServerMessage::PlayerList(..)));

    // Once both players are ready.
    let out = send(&mut server, p1, ClientMessage::ReadyState(true));
    assert!(matches!(to(&out, p2)[0], ServerMessage::PlayerUpdate(..)));
    let out = send(&mut server, p2, ClientMessage::ReadyState(true));
    assert!(matches!(to(&out, p1)[0], ServerMessage::Pack(..)));
    assert!(matches!(to(&out, p2)[0], ServerMessage::Pack(..)));

    // p1 picks; its pack waits behind p2's, so no pack is shown.
    let out = send(&mut server, p1, ClientMessage::Pick(0));
    assert!(matches!(to(&out, p1)[..], [ServerMessage::PickSuccessful(_)]));

    // After p2's pick, both players get a new pack.
    let out = send(&mut server, p2, ClientMessage::Pick(0));
    let for_p2 = to(&out, p2);
    assert!(matches!(for_p2[0], ServerMessage::PickSuccessful(_)));
    assert!(matches!(for_p2[1], ServerMessage::Pack(..)));
    assert!(matches!(to(&out, p1)[0], ServerMessage::Pack(..)));

    let out = send(&mut server, p1, ClientMessage::Pick(0));
    assert!(matches!(to(&out, p1)[0], ServerMessage::PickSuccessful(_)));
    let out = send(&mut server, p2, ClientMessage::Pick(0));
    assert!(matches!(to(&out, p2)[0], ServerMessage::PickSuccessful(_)));

    assert!(matches!(to(&out, p1)[0], ServerMessage::Finished(cards) if cards.len() == 2));
    assert!(matches!(to(&out, p2)[1], ServerMessage::Finished(cards) if cards.len() == 2));
    assert_eq!(server.current_stage(), Stage::Finished);
}

#[test]
fn test_set_name() {
    let mut server = DraftServer::new(3, DraftConfig::default(), DraftPool::new());
    let p1 = add_client(&mut server, 3);
    let p2 = add_client(&mut server, 3);

    let out = send(&mut server, p1, ClientMessage::SetName("name".into()));
    let ServerMessage::PlayerUpdate(details) = to(&out, p2)[0] else {
        panic!("Should have received a status update.");
    };
    assert_eq!(details.seat, p1);
    assert_eq!(details.name, "name");
    assert!(!details.ready);
    assert_eq!(details.status, ClientStatus::Healthy);

    let out = send(&mut server, p1, ClientMessage::ReadyState(true));
    let ServerMessage::PlayerUpdate(details) = to(&out, p2)[0] else {
        panic!("Should have received a status update.");
    };
    assert_eq!(details.seat, p1);
    assert_eq!(details.name, "name");
    assert!(details.ready);
    assert_eq!(details.status, ClientStatus::Healthy);
}

#[test]
fn new_client_is_named_after_its_seat() {
    let mut server = DraftServer::new(3, DraftConfig::default(), DraftPool::new());
    let s: Seat = 0x0123_4567_89ab_cdef_0011_2233_4455_6677;
    let out = connect(&mut server, s);
    let ServerMessage::PlayerList(players) = to(&out, s)[1] else {
        panic!("Expected a player list.");
    };
    assert_eq!(players[0].name, "01234567");
}

#[test]
fn reconnect_mid_draft_restores_pool_and_pack() {
    let config = DraftConfig { rounds: 1, cards_per_pack: 3, rares: 1, uncommons: 1, commons: 1, ..Default::default() };
    let mut server = DraftServer::new(9, config, DraftPool::sample(2, 2, 2, 2));
    let a = add_client(&mut server, 9);
    let b = add_client(&mut server, 9);
    send(&mut server, a, ClientMessage::ReadyState(true));
    send(&mut server, b, ClientMessage::ReadyState(true));
    let out = send(&mut server, a, ClientMessage::Pick(0));
    let picked = match to(&out, a)[0] {
        ServerMessage::PickSuccessful(c) => c.name().to_string(),
        _ => panic!("Expected a successful pick."),
    };
    // a's transport closes.
    let out = server.handle_request(DraftServerRequest::Message(a, ClientMessage::Disconnected), 0, &vec![a]);
    let ServerMessage::PlayerUpdate(details) = to(&out, b)[0] else {
        panic!("Expected a status update.");
    };
    assert_eq!(details.status, ClientStatus::Error);
    // a comes back.
    let out = connect(&mut server, a);
    assert!(matches!(out[0], Outgoing::Attach(s) if s == a));
    let mine = to(&out, a);
    match mine[0] {
        ServerMessage::Reconnected { in_progress, pool, pack, seat, .. } => {
            assert!(*in_progress);
            assert_eq!(*seat, a);
            assert_eq!(pool.len(), 1);
            assert_eq!(pool[0].name(), picked);
            assert!(pack.is_none());
        }
        _ => panic!("Expected a reconnect message."),
    }
    assert!(matches!(mine[1], ServerMessage::PlayerList(..)));
}

#[test]
fn unready_seat_blocks_start() {
    let mut server = DraftServer::new(2, DraftConfig::default(), DraftPool::sample(10, 10, 30, 110));
    let a = add_client(&mut server, 2);
    let b = add_client(&mut server, 2);
    let c = add_client(&mut server, 2);
    let mut all = Vec::new();
    all.extend(send(&mut server, a, ClientMessage::ReadyState(true)));
    all.extend(send(&mut server, b, ClientMessage::ReadyState(true)));
    all.extend(send(&mut server, c, ClientMessage::ReadyState(false)));
    assert!(!all.iter().any(|o| matches!(o, Outgoing::Send(_, ServerMessage::Pack(_)))));
    let ServerMessage::PlayerUpdate(d) = to(&all, a).last().copied().unwrap() else {
        panic!("Expected a status update.");
    };
    assert_eq!(d.seat, c);
    assert!(!d.ready);
    assert_eq!(server.current_stage(), Stage::Lobby);
}

#[test]
fn insufficient_pool_terminates_lobby() {
    let config = DraftConfig { rounds: 1, cards_per_pack: 1, rares: 1, uncommons: 0, commons: 0, mythic_rate: 0, allow_fallback: false, ..Default::default() };
    let mut server = DraftServer::new(4, config, DraftPool::sample(0, 0, 0, 3));
    let a = add_client(&mut server, 4);
    let out = send(&mut server, a, ClientMessage::ReadyState(true));
    assert!(matches!(out[0], Outgoing::CloseRequests));
    match to(&out, a)[0] {
        ServerMessage::FatalError(reason) => assert!(reason.starts_with("Failed to create packs for draft: ")),
        _ => panic!("Expected a fatal error."),
    }
    assert_eq!(server.current_stage(), Stage::Terminated);
    assert!(!server.is_open());
}

#[test]
fn late_and_unknown_requests() {
    let config = DraftConfig { rounds: 1, cards_per_pack: 1, rares: 1, uncommons: 0, commons: 0, ..Default::default() };
    let mut server = DraftServer::new(5, config, DraftPool::sample(2, 2, 0, 0));
    let a = add_client(&mut server, 5);
    // A pick before the draft asks the client to refresh.
    let out = send(&mut server, a, ClientMessage::Pick(0));
    assert!(matches!(to(&out, a)[..], [ServerMessage::Refresh]));
    // Messages from unknown seats are dropped.
    assert!(send(&mut server, seat(), ClientMessage::HeartBeat).is_empty());
    send(&mut server, a, ClientMessage::ReadyState(true));
    assert_eq!(server.current_stage(), Stage::Draft);
    // A newcomer is turned away once the draft started.
    let out = connect(&mut server, seat());
    assert!(matches!(out[..], [Outgoing::Reply(ServerMessage::Started)]));
    // An invalid pick resends the current pack.
    let out = send(&mut server, a, ClientMessage::Pick(5));
    assert!(matches!(to(&out, a)[..], [ServerMessage::Pack(_)]));
}

#[test]
fn disconnect_in_lobby_removes_client() {
    let mut server = DraftServer::new(6, DraftConfig::default(), DraftPool::new());
    let a = add_client(&mut server, 6);
    let b = add_client(&mut server, 6);
    let out = send(&mut server, a, ClientMessage::Disconnected);
    let ServerMessage::PlayerList(players) = to(&out, b)[0] else {
        panic!("Expected a player list.");
    };
    assert_eq!(players.len(), 1);
    assert_eq!(players[0].seat, b);
}

#[test]
fn start_with_build_error_terminates_with_it() {
    let mut server = DraftServer::new(8, DraftConfig::default(), DraftPool::new());
    let a = add_client(&mut server, 8);
    let mut out = Vec::new();
    server.start_with(&mut out, Err("no rares".to_string()));
    assert!(matches!(out[0], Outgoing::CloseRequests));
    match to(&out, a)[0] {
        ServerMessage::FatalError(reason) => assert_eq!(reason, "Failed to create packs for draft: no rares"),
        _ => panic!("Expected a fatal error."),
    }
    assert_eq!(server.current_stage(), Stage::Terminated);
}

#[test]
fn start_with_packs_opens_the_draft() {
    let config = DraftConfig { rounds: 1, cards_per_pack: 1, rares: 1, uncommons: 0, commons: 0, ..Default::default() };
    let mut server = DraftServer::new(9, config, DraftPool::new());
    let a = add_client(&mut server, 9);
    let b = add_client(&mut server, 9);
    let packs = vec![
        vec![draft_server::cards::Card::sample(draft_server::cards::Rarity::Rare)],
        vec![draft_server::cards::Card::sample(draft_server::cards::Rarity::Rare)],
    ];
    let mut out = Vec::new();
    server.start_with(&mut out, Ok(packs));
    assert_eq!(server.current_stage(), Stage::Draft);
    assert!(matches!(to(&out, a)[..], [ServerMessage::Pack(p)] if p.len() == 1));
    assert!(matches!(to(&out, b)[..], [ServerMessage::Pack(p)] if p.len() == 1));
}
