use draft_server::cards::Card;
use draft_server::game::{Draft, PassDirection, Seat};
use draft_server::packs::{make_packs, DraftConfig, DraftPool, Pack};
use uuid::Uuid;

fn seat() -> Seat {
    Uuid::new_v4().as_u128()
}

fn packless_draft(players: Vec<Seat>) -> Draft {
    Draft::new(players, 0, Vec::new())
}

#[test]
fn test_next_player_empty() {
    let mut draft = packless_draft(Vec::new());
    assert_eq!(draft.next_player(seat()), None);
    draft.set_direction(draft.direction().reverse());
    assert_eq!(draft.next_player(seat()), None);
}

#[test]
fn test_next_player_single() {
    let id = seat();
    let mut draft = packless_draft(vec![id]);

    assert_eq!(draft.next_player(id), Some(id));
    assert_eq!(draft.next_player(seat()), None);
    draft.set_direction(draft.direction().reverse());
    assert_eq!(draft.next_player(id), Some(id));
    assert_eq!(draft.next_player(seat()), None);
}

#[test]
fn test_next_player() {
    let p1 = seat();
    let p2 = seat();
    let p3 = seat();
    let p4 = seat();
    let mut draft = packless_draft(vec![p1, p2, p3, p4]);

    draft.set_direction(PassDirection::Left);
    assert_eq!(draft.next_player(p1), Some(p4));
    assert_eq!(draft.next_player(p2), Some(p1));
    assert_eq!(draft.next_player(p3), Some(p2));
    assert_eq!(draft.next_player(p4), Some(p3));
    assert_eq!(draft.next_player(seat()), None);
    draft.set_direction(draft.direction().reverse());
    assert_eq!(draft.next_player(p1), Some(p2));
    assert_eq!(draft.next_player(p2), Some(p3));
    assert_eq!(draft.next_player(p3), Some(p4));
    assert_eq!(draft.next_player(p4), Some(p1));
    assert_eq!(draft.next_player(seat()), None);
}

#[test]
fn test_simple_draft() {
    let p1 = seat();
    let p2 = seat();
    let p3 = seat();
    let p4 = seat();
    let players = vec![p1, p2, p3, p4];

    let config = DraftConfig {
        unique_cards: false,
        ..Default::default()
    };
    let pool = DraftPool::sample(1, 1, 1, 1);
    let packs = make_packs(players.len(), &config, pool).unwrap();

    let mut draft = Draft::new(players.clone(), config.rounds, packs);

    let player_packs = draft.begin();

    // Every player was handed a pack.
    assert!(players.iter().all(|player| player_packs
        .iter()
        .any(|(pack_player, _)| pack_player == player)));

    // A pick past the end of the pack fails.
    assert!(draft.handle_pick(p1, config.cards_per_pack).is_err());
    // A pick by a seat that is not in the draft fails.
    assert!(draft.handle_pick(seat(), 0).is_err());
    // No pack is waiting and the next player already has one.
    assert!(draft.handle_pick(p1, 0).unwrap().1.is_empty());
    assert!(draft.handle_pick(p3, 5).unwrap().1.is_empty());

    // No pack in front of p1 any more.
    assert!(draft.handle_pick(p1, 0).is_err());

    // p2's pick shows two packs: p2's next one, passed by p3, and the one
    // p2 passes on to p1.
    let updates = draft.handle_pick(p2, 10).unwrap().1;
    assert!(updates.len() == 2);
    assert!(updates.iter().any(|(player, _)| *player == p1));
    assert!(updates.iter().any(|(player, _)| *player == p2));
    assert!(updates
        .iter()
        .all(|(_, pack)| pack.len() == config.cards_per_pack - 1));
    assert!(draft.handle_pick(p4, 14).unwrap().1.len() == 2);

    // All but the last card of the first pack.
    for _ in 0..(config.cards_per_pack - 2) {
        for &player in &players {
            assert!(draft.handle_pick(player, 0).is_ok());
        }
    }

    // Everyone is down to the last card.
    assert!(players
        .iter()
        .all(|&player| draft.current_pack(player).unwrap().len() == 1
            && draft.drafted_cards(player).unwrap().len() == 14));
    assert!(draft.handle_pick(p1, 1).is_err());
    assert!(draft.handle_pick(p1, 0).is_ok());
    assert!(draft.handle_pick(p2, 0).is_ok());
    assert!(draft.handle_pick(p3, 0).is_ok());

    // p4's last pick ends the round and opens the next one.
    let updates = draft.handle_pick(p4, 0).unwrap().1;
    assert!(updates.len() == 4);
    assert!(players
        .iter()
        .all(|player| updates.iter().any(|(pack_player, _)| player == pack_player)));

    // Packs now go the other way.
    assert!(draft.handle_pick(p1, 0).unwrap().1.is_empty());
    assert!(draft
        .handle_pick(p4, 0)
        .unwrap()
        .1
        .into_iter()
        .any(|(pack_player, _)| pack_player == p1));
    assert!(!draft.handle_pick(p2, 0).unwrap().1.is_empty());
    assert!(!draft.handle_pick(p3, 0).unwrap().1.is_empty());

    // The rest of the second pack and all of the third.
    for _ in 0..(config.cards_per_pack * 2 - 1) {
        for &player in &players {
            assert!(draft.handle_pick(player, 0).is_ok());
        }
    }

    // Everything was drafted.
    assert!(draft.draft_complete());
    assert!(draft.generated_packs().is_empty());
    assert!(draft.handle_pick(p1, 0).is_err());
    assert!(players
        .iter()
        .all(|&player| draft.drafted_cards(player).unwrap().len()
            == config.rounds * config.cards_per_pack));
}

#[test]
fn test_single_player() {
    let p = seat();

    let config = &DraftConfig {
        rounds: 1,
        cards_per_pack: 4,
        unique_cards: false,
        rares: 1,
        uncommons: 1,
        commons: 2,
        ..Default::default()
    };
    let pool = DraftPool::sample(1, 1, 1, 1);
    let packs = make_packs(1, config, pool).unwrap();
    let mut draft = Draft::new(vec![p], 1, packs);

    assert!(draft.begin().len() == 1);

    let result = draft.handle_pick(p, 0);
    assert!(result.is_ok());
    assert_eq!(result.unwrap().1.len(), 1);
    assert!(!draft.draft_complete());
}

fn total_cards(draft: &Draft, players: &[Seat]) -> usize {
    let pools: usize = players
        .iter()
        .map(|&p| draft.drafted_cards(p).map(|c| c.len()).unwrap_or(0))
        .sum();
    let unopened: usize = draft.generated_packs().iter().map(|p: &Pack| p.len()).sum();
    pools + unopened
}

#[test]
fn solo_draft_completes_with_four_picks() {
    let p = seat();
    let config = DraftConfig {
        rounds: 1,
        cards_per_pack: 4,
        rares: 1,
        uncommons: 1,
        commons: 2,
        mythic_rate: 0,
        allow_fallback: true,
        unique_cards: true,
        use_rarities: true,
    };
    let packs = make_packs(1, &config, DraftPool::sample(1, 1, 1, 1)).unwrap();
    let mut draft = Draft::new(vec![p], 1, packs);
    let opened = draft.begin();
    assert_eq!(opened.len(), 1);
    assert_eq!(opened[0].1.len(), 4);
    for _ in 0..4 {
        assert!(draft.handle_pick(p, 0).is_ok());
    }
    assert!(draft.draft_complete());
    assert_eq!(draft.drafted_cards(p).unwrap().len(), 4);
}

#[test]
fn failed_pick_changes_nothing() {
    let p1 = seat();
    let p2 = seat();
    let config = DraftConfig { rounds: 1, cards_per_pack: 3, rares: 1, uncommons: 1, commons: 1, ..Default::default() };
    let packs = make_packs(2, &config, DraftPool::sample(2, 2, 2, 2)).unwrap();
    let mut draft = Draft::new(vec![p1, p2], 1, packs);
    draft.begin();
    let before = draft.current_pack(p1).unwrap();
    assert!(draft.handle_pick(p1, 3).is_err());
    assert!(draft.handle_pick(seat(), 0).is_err());
    let after = draft.current_pack(p1).unwrap();
    assert_eq!(before.len(), after.len());
    assert!(before.iter().zip(after.iter()).all(|(a, b)| a.name() == b.name()));
    assert_eq!(draft.drafted_cards(p1).unwrap().len(), 0);
    assert_eq!(draft.queue_size(p1), 1);
}

#[test]
fn pool_grows_by_one_per_pick_and_cards_are_kept() {
    let players = vec![seat(), seat(), seat()];
    let config = DraftConfig { rounds: 2, cards_per_pack: 3, rares: 1, uncommons: 1, commons: 1, ..Default::default() };
    let packs = make_packs(3, &config, DraftPool::sample(6, 6, 6, 6)).unwrap();
    let mut draft = Draft::new(players.clone(), 2, packs);
    let total = 2 * 3 * 3;
    draft.begin();
    let mut picks = vec![0usize; 3];
    for round in 0..(2 * 3) {
        for (k, &p) in players.iter().enumerate() {
            if draft.handle_pick(p, 0).is_ok() {
                picks[k] += 1;
            }
            assert_eq!(draft.drafted_cards(p).unwrap().len(), picks[k]);
            let queued: usize = players.iter().map(|&q| draft.queue_size(q)).sum();
            assert!(queued <= players.len() * 2 || round > 100);
        }
    }
    assert!(draft.draft_complete());
    assert_eq!(total_cards(&draft, &players), total);
    assert!(picks.iter().all(|&n| n == 6));
}

#[test]
fn direction_flips_between_rounds() {
    let players = vec![seat(), seat(), seat(), seat()];
    let config = DraftConfig::default();
    let packs = make_packs(4, &config, DraftPool::sample(40, 40, 40, 200)).unwrap();
    let mut draft = Draft::new(players.clone(), config.rounds, packs);
    draft.begin();
    let first: Vec<Option<Seat>> = players.iter().map(|&p| draft.next_player(p)).collect();
    assert_eq!(first[0], Some(players[3]));
    for _ in 0..config.cards_per_pack {
        for &p in &players {
            assert!(draft.handle_pick(p, 0).is_ok());
        }
    }
    // The second pack was opened: every seat has exactly one pack.
    assert!(players.iter().all(|&p| draft.queue_size(p) == 1));
    for (k, &p) in players.iter().enumerate() {
        let back = first[k].unwrap();
        assert_eq!(draft.next_player(back), Some(p));
    }
}

#[test]
fn round_boundary_iff_queues_empty() {
    let players = vec![seat(), seat()];
    let config = DraftConfig { rounds: 2, cards_per_pack: 1, rares: 1, uncommons: 0, commons: 0, ..Default::default() };
    let packs = make_packs(2, &config, DraftPool::sample(0, 4, 0, 0)).unwrap();
    let mut draft = Draft::new(players.clone(), 2, packs);
    assert!(draft.round_finished());
    draft.begin();
    assert!(!draft.round_finished());
    assert!(players.iter().all(|&p| draft.queue_size(p) == 1));
    assert!(draft.handle_pick(players[0], 0).unwrap().1.is_empty());
    let opened = draft.handle_pick(players[1], 0).unwrap().1;
    assert_eq!(opened.len(), 2);
    assert!(players.iter().all(|&p| draft.queue_size(p) == 1));
    let pools = draft.pools();
    assert_eq!(pools.len(), 2);
    assert!(pools.iter().all(|(_, cards)| cards.len() == 1));
    let _: Vec<Card> = pools.into_iter().flat_map(|(_, c)| c).collect();
}
