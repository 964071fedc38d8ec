use draft_server::cards::{Card, Rarity};
use draft_server::packs::{make_packs, DraftConfig, DraftPool, RATE_SCALE};
use std::collections::HashMap;

fn test_config() -> DraftConfig {
    DraftConfig {
        rounds: 2,
        cards_per_pack: 3,
        rares: 1,
        uncommons: 1,
        commons: 1,
        mythic_rate: RATE_SCALE,
        ..Default::default()
    }
}

#[test]
fn test_make_cube_packs() {
    let config = test_config();

    let pool = DraftPool::sample(4, 4, 4, 4);
    let packs = make_packs(2, &config, pool).unwrap();
    assert!(packs.len() == 4); // 2 players, 2 packs each
    assert!(packs.iter().all(|p| p.len() == 3)); // 3 cards per pack

    // Every rare slot was upgraded, so every pack holds a mythic.
    assert!(packs
        .iter()
        .all(|p| p.iter().find(|c| c.rarity() == Rarity::Mythic).is_some()));
}

#[test]
fn test_make_draft_packs() {
    let mut pool = DraftPool::new();
    let mythic = Card::sample(Rarity::Rare);
    pool.add(mythic.clone());
    let uncommon = Card::sample(Rarity::Uncommon);
    pool.add(uncommon.clone());
    let common = Card::sample(Rarity::Common);
    pool.add(common.clone());

    let mut config = test_config();
    config.unique_cards = false;

    let packs = make_packs(2, &config, pool).unwrap();
    assert!(packs.len() == 4); // 2 players, 2 packs each
    assert!(packs.iter().all(|p| p.len() == 3)); // 3 cards per pack

    // Each pack has one of each card.
    let cards = &[mythic, uncommon, common];
    assert!(packs.iter().all(|pack| cards
        .iter()
        .all(|card| pack.iter().any(|pack_card| pack_card.name() == card.name()))))
}

#[test]
fn test_fail_make_packs() {
    // One pack of one rare per player.
    let mut config = test_config();
    config.allow_fallback = false;
    config.unique_cards = false;
    config.rounds = 1;
    config.cards_per_pack = 1;
    config.uncommons = 0;
    config.commons = 0;

    let mut pool = DraftPool::new();
    pool.add(Card::sample(Rarity::Common));
    assert!(make_packs(1, &config, pool).is_err());
}

#[test]
fn test_no_raritie_unique() {
    let pool = DraftPool::sample(1, 1, 1, 1);
    let config = DraftConfig {
        rounds: 1,
        cards_per_pack: 2,
        unique_cards: true,
        use_rarities: false,
        ..Default::default()
    };
    assert!(make_packs(2, &config, pool).is_ok());
}

fn counts(cards: impl Iterator<Item = String>) -> HashMap<String, usize> {
    let mut m = HashMap::new();
    for c in cards {
        *m.entry(c).or_insert(0) += 1;
    }
    m
}

fn pool_names(pool: &DraftPool) -> Vec<String> {
    [Rarity::Mythic, Rarity::Rare, Rarity::Uncommon, Rarity::Common]
        .iter()
        .flat_map(|&r| pool.cards_of(r).iter().map(|c| c.name().to_string()).collect::<Vec<_>>())
        .collect()
}

#[test]
fn packs_have_requested_shape() {
    for &(unique, rarities) in &[(true, true), (true, false), (false, true)] {
        let config = DraftConfig {
            rounds: 3,
            cards_per_pack: 5,
            rares: 1,
            uncommons: 1,
            commons: 3,
            unique_cards: unique,
            use_rarities: rarities,
            ..Default::default()
        };
        let packs = make_packs(4, &config, DraftPool::sample(12, 12, 12, 36)).unwrap();
        assert_eq!(packs.len(), 12);
        assert!(packs.iter().all(|p| p.len() == 5));
    }
}

#[test]
fn unique_packs_take_no_card_twice() {
    for &rarities in &[true, false] {
        let config = DraftConfig {
            rounds: 2,
            cards_per_pack: 4,
            rares: 1,
            uncommons: 1,
            commons: 2,
            use_rarities: rarities,
            ..Default::default()
        };
        let pool = DraftPool::sample(6, 6, 6, 12);
        let available = counts(pool_names(&pool).into_iter());
        let packs = make_packs(3, &config, pool).unwrap();
        let used = counts(packs.iter().flatten().map(|c| c.name().to_string()));
        assert!(used.iter().all(|(name, n)| available.get(name).copied().unwrap_or(0) >= *n));
        assert_eq!(used.values().sum::<usize>(), 24);
    }
}

#[test]
fn full_mythic_rate_fills_rare_slots_with_mythics() {
    let config = DraftConfig { rounds: 2, cards_per_pack: 4, rares: 2, uncommons: 1, commons: 1, mythic_rate: RATE_SCALE, ..Default::default() };
    let packs = make_packs(3, &config, DraftPool::sample(12, 0, 6, 6)).unwrap();
    assert!(packs.iter().all(|p| p[0].rarity() == Rarity::Mythic && p[1].rarity() == Rarity::Mythic));
}

#[test]
fn zero_mythic_rate_gives_no_mythics() {
    let config = DraftConfig { rounds: 2, cards_per_pack: 3, rares: 1, uncommons: 1, commons: 1, mythic_rate: 0, ..Default::default() };
    let packs = make_packs(3, &config, DraftPool::sample(10, 6, 6, 6)).unwrap();
    assert!(packs.iter().flatten().all(|c| c.rarity() != Rarity::Mythic));
}

#[test]
fn missing_mythic_falls_back_to_rare_without_fallback() {
    let config = DraftConfig { rounds: 1, cards_per_pack: 1, rares: 1, uncommons: 0, commons: 0, mythic_rate: RATE_SCALE, allow_fallback: false, ..Default::default() };
    let packs = make_packs(1, &config, DraftPool::sample(0, 1, 0, 0)).unwrap();
    assert_eq!(packs[0][0].rarity(), Rarity::Rare);
}

#[test]
fn insufficient_pool_without_fallback_fails() {
    let config = DraftConfig { rounds: 1, cards_per_pack: 1, rares: 1, uncommons: 0, commons: 0, mythic_rate: 0, allow_fallback: false, ..Default::default() };
    let err = make_packs(1, &config, DraftPool::sample(0, 0, 0, 5)).unwrap_err();
    assert_eq!(err, "Insufficient cards in pool.");
}

#[test]
fn random_cube_needs_enough_cards() {
    let config = DraftConfig { rounds: 1, cards_per_pack: 3, unique_cards: true, use_rarities: false, ..Default::default() };
    assert!(make_packs(2, &config, DraftPool::sample(1, 1, 1, 3)).is_ok());
    assert!(make_packs(2, &config, DraftPool::sample(1, 1, 1, 2)).is_err());
}

#[test]
fn fallback_fills_from_other_rarities() {
    let config = DraftConfig { rounds: 1, cards_per_pack: 3, rares: 1, uncommons: 1, commons: 1, mythic_rate: 0, allow_fallback: true, ..Default::default() };
    let packs = make_packs(1, &config, DraftPool::sample(0, 0, 0, 3)).unwrap();
    assert!(packs[0].iter().all(|c| c.rarity() == Rarity::Common));
    let config = DraftConfig { allow_fallback: false, ..config };
    assert!(make_packs(1, &config, DraftPool::sample(0, 0, 0, 3)).is_err());
}

#[test]
fn pool_buckets_and_fallback_order() {
    let mut pool = DraftPool::new();
    assert!(pool.empty());
    pool.add(Card::sample(Rarity::Special));
    pool.add(Card::sample(Rarity::Bonus));
    assert!(pool.empty());
    pool.add(Card::sample(Rarity::Uncommon));
    assert!(!pool.empty());
    assert_eq!(pool.cards_of(Rarity::Uncommon).len(), 1);
    assert_eq!(pool.replacement_rarity(Rarity::Mythic), Some(Rarity::Uncommon));
    assert_eq!(pool.replacement_rarity(Rarity::Special), None);
    pool.add(Card::sample(Rarity::Rare));
    assert_eq!(pool.replacement_rarity(Rarity::Mythic), Some(Rarity::Rare));
    assert_eq!(pool.replacement_rarity(Rarity::Common), Some(Rarity::Uncommon));
    let taken = pool.take(Rarity::Common, false);
    assert!(taken.is_err());
    let taken = pool.take(Rarity::Common, true).unwrap();
    assert_eq!(taken.rarity(), Rarity::Uncommon);
    let rolled = pool.roll(Rarity::Mythic, false).unwrap();
    assert_eq!(rolled.rarity(), Rarity::Rare);
    assert_eq!(pool.cards_of(Rarity::Rare).len(), 1);
}

#[test]
fn default_config_values() {
    let c = DraftConfig::default();
    assert_eq!((c.rounds, c.cards_per_pack, c.rares, c.uncommons, c.commons), (3, 15, 1, 3, 11));
    assert!(c.unique_cards && c.use_rarities && c.allow_fallback);
    assert_eq!(c.mythic_rate, RATE_SCALE / 8);
}

#[test]
fn err_carries_message() {
    let r: Result<(), String> = draft_server::packs::err("boom");
    assert_eq!(r, Err("boom".to_string()));
}

#[test]
fn sample_pool_names_differ() {
    let pool = DraftPool::sample(3, 3, 3, 3);
    let names = pool_names(&pool);
    assert_eq!(names.len(), 12);
    assert_eq!(counts(names.into_iter()).len(), 12);
}

#[test]
fn unpooled_rarities_never_fill_a_slot() {
    let mut pool = DraftPool::sample(1, 1, 1, 1);
    assert!(pool.take(Rarity::Special, true).is_err());
    assert!(pool.roll(Rarity::Bonus, true).is_err());
    assert_eq!(pool.cards_of(Rarity::Special).len(), 0);
}

#[test]
fn cube_slots_come_in_rarity_order() {
    let config = DraftConfig { rounds: 1, cards_per_pack: 4, rares: 1, uncommons: 1, commons: 2, mythic_rate: 0, ..Default::default() };
    let packs = make_packs(2, &config, DraftPool::sample(0, 2, 2, 4)).unwrap();
    for p in &packs {
        assert_eq!(p[0].rarity(), Rarity::Rare);
        assert_eq!(p[1].rarity(), Rarity::Uncommon);
        assert_eq!(p[2].rarity(), Rarity::Common);
        assert_eq!(p[3].rarity(), Rarity::Common);
    }
}

#[test]
fn upgrade_decision() {
    assert!(draft_server::packs::upgrades(0, 1));
    assert!(!draft_server::packs::upgrades(5, 5));
    assert!(draft_server::packs::upgrades(RATE_SCALE - 1, RATE_SCALE));
}
