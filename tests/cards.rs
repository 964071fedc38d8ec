use draft_server::cards::{Card, CardDatabase, Rarity};
use draft_server::ingest::{ScryfallCard, ScryfallCardImages, XmlCard, XmlCardDb, XmlCardList, XmlSetEntry};
use draft_server::launch::{apply_field, pool_from_list, slots_fill_pack, FieldError};
use draft_server::packs::DraftConfig;

fn card(name: &str, rarity: Rarity) -> Card {
    Card::new(name.to_string(), "img".to_string(), "SET".to_string(), "text".to_string(), rarity)
}

#[test]
fn database_ignores_ascii_case() {
    let mut db = CardDatabase::new();
    db.add(card("Lightning Bolt", Rarity::Common));
    db.add(card("LIGHTNING BOLT", Rarity::Uncommon));
    assert_eq!(db.size(), 1);
    assert_eq!(db.get("lightning bolt").unwrap().rarity(), Rarity::Uncommon);
    assert!(db.get("Shock").is_none());
}

fn xml_card(name: &str, rarity: &str) -> XmlCard {
    XmlCard {
        name: name.to_string(),
        set: XmlSetEntry { rarity: rarity.to_string(), image: "pic".to_string(), name: "KR2".to_string() },
        colour: Vec::new(),
        manacost: String::new(),
        cmc: 0,
        ty: String::new(),
        pt: None,
        text: "t".to_string(),
    }
}

#[test]
fn xml_rarities() {
    assert_eq!(xml_card("a", "Mythic Rare").rarity(), Some(Rarity::Mythic));
    assert_eq!(xml_card("a", "Rare").rarity(), Some(Rarity::Rare));
    assert_eq!(xml_card("a", "Uncommon").rarity(), Some(Rarity::Uncommon));
    assert_eq!(xml_card("a", "Common").rarity(), Some(Rarity::Common));
    assert_eq!(xml_card("a", "Special").rarity(), None);
}

#[test]
fn xml_card_map_keeps_pooled_cards_by_lowercased_name() {
    let db = XmlCardDb {
        sets: Vec::new(),
        cards: XmlCardList { list: vec![xml_card("Nibbles", "Uncommon"), xml_card("Token", "Token"), xml_card("NIBBLES", "Rare")] },
    };
    let map = draft_server::ingest::card_map(&db);
    assert_eq!(map.len(), 1);
    let c = map.get("nibbles").unwrap();
    assert_eq!(c.name(), "NIBBLES");
    assert_eq!(c.rarity(), Rarity::Rare);
}

fn images() -> ScryfallCardImages {
    ScryfallCardImages { png: None, border_crop: None, art_crop: None, large: None, normal: None, small: None }
}

#[test]
fn scryfall_image_choice() {
    assert_eq!(images().select(), None);
    let i = ScryfallCardImages { art_crop: Some("art".into()), small: Some("small".into()), ..images() };
    assert_eq!(i.select(), Some("small".to_string()));
    let i = ScryfallCardImages { png: Some("png".into()), large: Some("large".into()), ..images() };
    assert_eq!(i.select(), Some("large".to_string()));
}

#[test]
fn scryfall_card_conversion() {
    let c = ScryfallCard {
        name: "Fire // Ice".into(),
        set: "mh2".into(),
        image_uris: Some(ScryfallCardImages { normal: Some("n".into()), ..images() }),
        rarity: "mythic".into(),
        oracle_text: Some("x".into()),
    };
    let card = c.to_card().unwrap();
    assert_eq!(card.name(), "Fire ");
    assert_eq!(card.rarity(), Rarity::Rare);
    let c = ScryfallCard { name: "A".into(), set: "s".into(), image_uris: None, rarity: "common".into(), oracle_text: Some("x".into()) };
    assert!(c.to_card().is_none());
    let c = ScryfallCard { name: "A".into(), set: "s".into(), image_uris: Some(ScryfallCardImages { small: Some("s".into()), ..images() }), rarity: "weird".into(), oracle_text: Some("x".into()) };
    assert!(c.to_card().is_none());
}

#[test]
fn launch_fields() {
    let mut config = DraftConfig::default();
    assert_eq!(apply_field(&mut config, "packs", "5"), Ok(()));
    assert_eq!(config.rounds, 5);
    assert_eq!(apply_field(&mut config, "packs", "x"), Err(FieldError::PackCount));
    assert_eq!(config.rounds, 5);
    assert_eq!(apply_field(&mut config, "unique_cards", "unchecked"), Ok(()));
    assert!(!config.unique_cards);
    assert_eq!(apply_field(&mut config, "use_rarities", "maybe"), Err(FieldError::UseRarities));
    assert_eq!(apply_field(&mut config, "commons", "+7"), Ok(()));
    assert_eq!(config.commons, 7);
    assert_eq!(apply_field(&mut config, "other", "1"), Ok(()));
    assert!(!slots_fill_pack(&config));
    config.cards_per_pack = config.rares + config.uncommons + config.commons;
    assert!(slots_fill_pack(&config));
}

#[test]
fn list_lookup() {
    let mut db = CardDatabase::new();
    db.add(card("Shock", Rarity::Common));
    let pool = pool_from_list("Shock\n\n  shock  \n", &None, &db).unwrap();
    assert_eq!(pool.cards_of(Rarity::Common).len(), 2);
    assert_eq!(pool_from_list("Shock\nBolt", &None, &db).err(), Some("Bolt".to_string()));
}

#[test]
fn sample_cards_differ() {
    let a = Card::sample(Rarity::Rare);
    let b = Card::sample(Rarity::Rare);
    assert_ne!(a.name(), b.name());
    assert_eq!(a.rarity(), Rarity::Rare);
    let d = a.duplicate();
    assert_eq!(d.name(), a.name());
}
