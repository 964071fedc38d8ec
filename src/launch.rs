use vstd::hash_map::StringHashMap;
use vstd::prelude::*;
use vstd::string::StringExecFns;

use crate::cards::{ascii_lower, Card, CardDatabase, Rarity};
use crate::ingest::{lower_of, lowercase};
use crate::packs::{pooled, DraftConfig, DraftPool};

verus! {

/// Value of a string of decimal digits.
pub open spec fn digits_value(s: Seq<char>) -> int
    decreases s.len(),
{
    if s.len() == 0 {
        0
    } else {
        digits_value(s.drop_last()) * 10 + (s.last() as int - '0' as int)
    }
}

pub open spec fn all_digits(s: Seq<char>) -> bool {
    forall|i: int| 0 <= i < s.len() ==> '0' <= #[trigger] s[i] && s[i] <= '9'
}

/// The `usize` that `s` writes in decimal, with an optional leading `+`.
pub open spec fn usize_text(s: Seq<char>) -> Option<usize> {
    let body = if s.len() > 0 && s[0] == '+' {
        s.drop_first()
    } else {
        s
    };
    if body.len() > 0 && all_digits(body) && digits_value(body) <= usize::MAX {
        Some(digits_value(body) as usize)
    } else {
        None
    }
}

/// Relies on `str::parse::<usize>`: decimal digits after an optional `+`,
/// rejected when empty, holding another character, or too large.
#[verifier::external_body]
fn parse_count(s: &str) -> (r: Option<usize>)
    ensures
        r == usize_text(s@),
{
    s.parse::<usize>().ok()
}

/// Text with surrounding whitespace removed.
pub uninterp spec fn trimmed(s: Seq<char>) -> Seq<char>;

/// Relies on `str::trim`: the result depends on the characters alone, and an
/// empty string stays empty.
#[verifier::external_body]
fn trim(s: &str) -> (r: String)
    ensures
        r@ == trimmed(s@),
        s@.len() == 0 ==> r@.len() == 0,
{
    s.trim().to_string()
}

/// The lines of a text.
pub uninterp spec fn lines_of(s: Seq<char>) -> Seq<Seq<char>>;

/// Relies on `str::lines`: the result depends on the characters alone.
#[verifier::external_body]
fn split_lines(s: &str) -> (r: Vec<String>)
    ensures
        r@.map_values(|l: String| l@) == lines_of(s@),
{
    s.lines().map(|l| l.to_string()).collect()
}

/// A launch form field whose value is unusable.
#[derive(Clone, Copy, Debug, PartialEq, Eq, Structural)]
pub enum FieldError {
    PackCount,
    CardsPerPack,
    UniqueCards,
    UseRarities,
    Rares,
    Uncommons,
    Commons,
}

/// The flag a checkbox value stands for.
pub open spec fn checkbox_value(s: Seq<char>) -> Option<bool> {
    if s == "checked"@ {
        Some(true)
    } else if s == "unchecked"@ {
        Some(false)
    } else {
        None
    }
}

fn checkbox(s: &str) -> (r: Option<bool>)
    ensures
        r == checkbox_value(s@),
{
    proof {
        reveal_strlit("checked");
        reveal_strlit("unchecked");
    }
    let v = String::from_str(s);
    if v == String::from_str("checked") {
        Some(true)
    } else if v == String::from_str("unchecked") {
        Some(false)
    } else {
        None
    }
}

proof fn lemma_field_names_differ()
    ensures
        "packs"@ != "cards_per_pack"@,
        "packs"@ != "unique_cards"@,
        "packs"@ != "use_rarities"@,
        "packs"@ != "rares"@,
        "packs"@ != "uncommons"@,
        "packs"@ != "commons"@,
        "cards_per_pack"@ != "unique_cards"@,
        "cards_per_pack"@ != "use_rarities"@,
        "cards_per_pack"@ != "rares"@,
        "cards_per_pack"@ != "uncommons"@,
        "cards_per_pack"@ != "commons"@,
        "unique_cards"@ != "use_rarities"@,
        "unique_cards"@ != "rares"@,
        "unique_cards"@ != "uncommons"@,
        "unique_cards"@ != "commons"@,
        "use_rarities"@ != "rares"@,
        "use_rarities"@ != "uncommons"@,
        "use_rarities"@ != "commons"@,
        "rares"@ != "uncommons"@,
        "rares"@ != "commons"@,
        "uncommons"@ != "commons"@,
{
    reveal_strlit("packs");
    reveal_strlit("cards_per_pack");
    reveal_strlit("unique_cards");
    reveal_strlit("use_rarities");
    reveal_strlit("rares");
    reveal_strlit("uncommons");
    reveal_strlit("commons");
    assert("packs"@.len() == 5);
    assert("cards_per_pack"@.len() == 14);
    assert("unique_cards"@.len() == 12);
    assert("use_rarities"@.len() == 12);
    assert("rares"@.len() == 5);
    assert("uncommons"@.len() == 9);
    assert("commons"@.len() == 7);
    assert("packs"@[0] != "rares"@[0]);
    assert("unique_cards"@[2] != "use_rarities"@[2]);
}

/// Sets the setting that the form field `name` holds to `value`. Fields of
/// other names are ignored; a value that does not parse is an error and
/// leaves the settings as they were.
pub fn apply_field(config: &mut DraftConfig, name: &str, value: &str) -> (r: Result<(), FieldError>)
    ensures
        name@ == "packs"@ ==> match usize_text(value@) {
            Some(n) => r is Ok && *final(config) == DraftConfig { rounds: n, ..*old(config) },
            None => r == Err::<(), FieldError>(FieldError::PackCount) && *final(config) == *old(config),
        },
        name@ == "cards_per_pack"@ ==> match usize_text(value@) {
            Some(n) => r is Ok && *final(config) == DraftConfig { cards_per_pack: n, ..*old(config) },
            None => r == Err::<(), FieldError>(FieldError::CardsPerPack) && *final(config) == *old(config),
        },
        name@ == "rares"@ ==> match usize_text(value@) {
            Some(n) => r is Ok && *final(config) == DraftConfig { rares: n, ..*old(config) },
            None => r == Err::<(), FieldError>(FieldError::Rares) && *final(config) == *old(config),
        },
        name@ == "uncommons"@ ==> match usize_text(value@) {
            Some(n) => r is Ok && *final(config) == DraftConfig { uncommons: n, ..*old(config) },
            None => r == Err::<(), FieldError>(FieldError::Uncommons) && *final(config) == *old(config),
        },
        name@ == "commons"@ ==> match usize_text(value@) {
            Some(n) => r is Ok && *final(config) == DraftConfig { commons: n, ..*old(config) },
            None => r == Err::<(), FieldError>(FieldError::Commons) && *final(config) == *old(config),
        },
        name@ == "unique_cards"@ ==> match checkbox_value(value@) {
            Some(b) => r is Ok && *final(config) == DraftConfig { unique_cards: b, ..*old(config) },
            None => r == Err::<(), FieldError>(FieldError::UniqueCards) && *final(config) == *old(config),
        },
        name@ == "use_rarities"@ ==> match checkbox_value(value@) {
            Some(b) => r is Ok && *final(config) == DraftConfig { use_rarities: b, ..*old(config) },
            None => r == Err::<(), FieldError>(FieldError::UseRarities) && *final(config) == *old(config),
        },
        !(name@ == "packs"@ || name@ == "cards_per_pack"@ || name@ == "rares"@ || name@ == "uncommons"@
            || name@ == "commons"@ || name@ == "unique_cards"@ || name@ == "use_rarities"@) ==> r is Ok
            && *final(config) == *old(config),
{
    proof {
        lemma_field_names_differ();
    }
    let field = String::from_str(name);
    if field == String::from_str("packs") {
        match parse_count(value) {
            Some(n) => config.rounds = n,
            None => {
                return Err(FieldError::PackCount);
            },
        }
    } else if field == String::from_str("cards_per_pack") {
        match parse_count(value) {
            Some(n) => config.cards_per_pack = n,
            None => {
                return Err(FieldError::CardsPerPack);
            },
        }
    } else if field == String::from_str("unique_cards") {
        match checkbox(value) {
            Some(b) => config.unique_cards = b,
            None => {
                return Err(FieldError::UniqueCards);
            },
        }
    } else if field == String::from_str("use_rarities") {
        match checkbox(value) {
            Some(b) => config.use_rarities = b,
            None => {
                return Err(FieldError::UseRarities);
            },
        }
    } else if field == String::from_str("rares") {
        match parse_count(value) {
            Some(n) => config.rares = n,
            None => {
                return Err(FieldError::Rares);
            },
        }
    } else if field == String::from_str("uncommons") {
        match parse_count(value) {
            Some(n) => config.uncommons = n,
            None => {
                return Err(FieldError::Uncommons);
            },
        }
    } else if field == String::from_str("commons") {
        match parse_count(value) {
            Some(n) => config.commons = n,
            None => {
                return Err(FieldError::Commons);
            },
        }
    }
    Ok(())
}

/// Whether the slots of a pack add up to its size.
pub fn slots_fill_pack(config: &DraftConfig) -> (r: bool)
    ensures
        r == (config.rares + config.uncommons + config.commons == config.cards_per_pack),
{
    config.rares <= config.cards_per_pack && config.uncommons <= config.cards_per_pack - config.rares
        && config.commons == config.cards_per_pack - config.rares - config.uncommons
}

/// Whether a list entry `key` (trimmed and lowercased) names a card of the
/// custom list or else of the database, and which.
pub open spec fn lookup(key: Seq<char>, custom: Option<Map<Seq<char>, Card>>, db: Map<Seq<char>, Card>) -> Option<Card> {
    if custom matches Some(m) && m.contains_key(key) {
        Some(custom->Some_0[key])
    } else if db.contains_key(ascii_lower(key)) {
        Some(db[ascii_lower(key)])
    } else {
        None
    }
}

pub open spec fn custom_view(custom: Option<StringHashMap<Card>>) -> Option<Map<Seq<char>, Card>> {
    match custom {
        Some(m) => Some(m@),
        None => None,
    }
}

/// The cards that the non-blank lines of `lines` name, in order; a line
/// naming no card adds nothing.
pub open spec fn listed_cards(lines: Seq<Seq<char>>, custom: Option<Map<Seq<char>, Card>>, db: Map<Seq<char>, Card>) -> Seq<Card>
    decreases lines.len(),
{
    if lines.len() == 0 {
        Seq::empty()
    } else {
        let prev = listed_cards(lines.drop_last(), custom, db);
        let key = lower_of(trimmed(lines.last()));
        if key.len() > 0 && lookup(key, custom, db) is Some {
            prev.push(lookup(key, custom, db)->Some_0)
        } else {
            prev
        }
    }
}

/// The pool of the cards a list names, one name per line. Blank lines are
/// skipped; names are matched without case, first in the custom list, then
/// in the database. A name found in neither is an error that carries the
/// line.
pub fn pool_from_list(list: &str, custom: &Option<StringHashMap<Card>>, db: &CardDatabase) -> (r: Result<DraftPool, String>)
    ensures
        r matches Ok(pool) ==> pool.wf(),
        r matches Ok(pool) ==> forall|q: Rarity| pooled(q) ==> #[trigger] pool.bucket(q) == listed_cards(
            lines_of(list@),
            custom_view(*custom),
            db.entries(),
        ).filter(|c: Card| c.rarity_view() == q),
        r matches Ok(_) <==> forall|i: int| 0 <= i < lines_of(list@).len() && lower_of(trimmed(lines_of(list@)[i])).len() > 0
            ==> #[trigger] lookup(lower_of(trimmed(lines_of(list@)[i])), custom_view(*custom), db.entries()) is Some,
{
    let lines = split_lines(list);
    let ghost ls = lines_of(list@);
    let ghost cm = custom_view(*custom);
    let mut pool = DraftPool::new();
    let mut i: usize = 0;
    while i < lines.len()
        invariant
            pool.wf(),
            i <= lines@.len(),
            lines@.map_values(|l: String| l@) == ls,
            ls == lines_of(list@),
            cm == custom_view(*custom),
            forall|j: int| 0 <= j < i && lower_of(trimmed(ls[j])).len() > 0 ==> #[trigger] lookup(lower_of(trimmed(ls[j])), cm, db.entries()) is Some,
            forall|q: Rarity| pooled(q) ==> #[trigger] pool.bucket(q) == listed_cards(ls.subrange(0, i as int), cm, db.entries()).filter(
                |c: Card| c.rarity_view() == q),
        decreases lines@.len() - i,
    {
        let ghost before = pool;
        proof {
            assert(ls.subrange(0, i + 1).drop_last() =~= ls.subrange(0, i as int));
            assert(ls.subrange(0, i + 1).last() == ls[i as int]);
        }
        let line = &lines[i];
        let trimmed_line = trim(line.as_str());
        let key = lowercase(trimmed_line.as_str());
        assert(line@ == ls[i as int]);
        if key.as_str().unicode_len() > 0 {
            let from_custom = match custom {
                Some(m) => match m.get(key.as_str()) {
                    Some(c) => Some(c.duplicate()),
                    None => None,
                },
                None => None,
            };
            let card = match from_custom {
                Some(c) => c,
                None => match db.get(key.as_str()) {
                    Some(c) => c.duplicate(),
                    None => {
                        assert(lookup(lower_of(trimmed(ls[i as int])), cm, db.entries()) is None);
                        return Err(line.clone());
                    },
                },
            };
            let ghost found = card;
            pool.add(card);
            proof {
                let prev = listed_cards(ls.subrange(0, i as int), cm, db.entries());
                assert(listed_cards(ls.subrange(0, i + 1), cm, db.entries()) == prev.push(found));
                assert forall|q: Rarity| pooled(q) implies #[trigger] pool.bucket(q) == prev.push(found).filter(
                    |c: Card| c.rarity_view() == q) by {
                    prev.lemma_filter_push(found, |c: Card| c.rarity_view() == q);
                }
            }
        } else {
            proof {
                assert(listed_cards(ls.subrange(0, i + 1), cm, db.entries()) == listed_cards(ls.subrange(0, i as int), cm, db.entries()));
            }
        }
        i = i + 1;
    }
    proof {
        assert(ls.subrange(0, lines@.len() as int) =~= ls);
    }
    Ok(pool)
}

} // verus!
