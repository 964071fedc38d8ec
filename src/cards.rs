use vstd::hash_map::StringHashMap;
use vstd::prelude::*;
use vstd::string::StringExecFns;

use crate::messages::{lemma_uuid_text_injective, uuid_string, uuid_text};

verus! {

/// Rarity tag of a card. `Special` and `Bonus` are recognised but never
/// enter a draft pool.
#[derive(Clone, Copy, Debug, PartialEq, Eq, Structural)]
pub enum Rarity {
    Mythic,
    Rare,
    Uncommon,
    Common,
    Special,
    Bonus,
}

/// An immutable card value.
#[derive(Clone, Debug)]
pub struct Card {
    name: String,
    image: String,
    set: String,
    rarity: Rarity,
    text: String,
}

impl Card {
    pub closed spec fn name_view(&self) -> Seq<char> {
        self.name@
    }

    pub closed spec fn image_view(&self) -> Seq<char> {
        self.image@
    }

    pub closed spec fn set_view(&self) -> Seq<char> {
        self.set@
    }

    pub closed spec fn text_view(&self) -> Seq<char> {
        self.text@
    }

    pub closed spec fn rarity_view(&self) -> Rarity {
        self.rarity
    }

    pub fn new(name: String, image: String, set: String, text: String, rarity: Rarity) -> (r: Card)
        ensures
            r.name_view() == name@,
            r.image_view() == image@,
            r.set_view() == set@,
            r.text_view() == text@,
            r.rarity_view() == rarity,
    {
        Card { name, image, set, rarity, text }
    }

    pub fn name(&self) -> (r: &str)
        ensures
            r@ == self.name_view(),
    {
        self.name.as_str()
    }

    pub fn image(&self) -> (r: &str)
        ensures
            r@ == self.image_view(),
    {
        self.image.as_str()
    }

    pub fn set(&self) -> (r: &str)
        ensures
            r@ == self.set_view(),
    {
        self.set.as_str()
    }

    pub fn text(&self) -> (r: &str)
        ensures
            r@ == self.text_view(),
    {
        self.text.as_str()
    }

    pub fn rarity(&self) -> (r: Rarity)
        ensures
            r == self.rarity_view(),
    {
        self.rarity
    }

    /// A card of the given rarity for trying things out, named after a
    /// fresh random id.
    pub fn sample(rarity: Rarity) -> (r: Card)
        ensures
            r.rarity_view() == rarity,
            r.set_view() == "TST"@,
    {
        Card::sample_with_id(rarity, random_id() as u128)
    }

    /// A card of the given rarity for trying things out, named after `id`.
    pub fn sample_with_id(rarity: Rarity, id: u128) -> (r: Card)
        ensures
            r.rarity_view() == rarity,
            r.set_view() == "TST"@,
            r.name_view() == sample_name(id),
    {
        let text = uuid_string(id);
        let name = String::from_str("Card ").concat(text.as_str());
        let image = String::from_str("https://example.com/card-").concat(text.as_str()).concat("-art.jpg");
        let body = String::from_str("Text for test card ").concat(text.as_str()).concat(".");
        Card { name, image, set: String::from_str("TST"), rarity, text: body }
    }

    /// A copy of this card, equal to it in every field.
    pub fn duplicate(&self) -> (r: Card)
        ensures
            r == *self,
    {
        Card {
            name: self.name.clone(),
            image: self.image.clone(),
            set: self.set.clone(),
            rarity: self.rarity,
            text: self.text.clone(),
        }
    }
}

/// The name of the sample card made for `id`.
pub open spec fn sample_name(id: u128) -> Seq<char> {
    "Card "@ + uuid_text(id)
}

/// Sample cards made for different ids have different names.
pub proof fn lemma_sample_names_differ(a: u128, b: u128)
    requires
        sample_name(a) == sample_name(b),
    ensures
        a == b,
{
    let k = "Card "@.len() as int;
    assert(sample_name(a).subrange(k, sample_name(a).len() as int) =~= uuid_text(a));
    assert(sample_name(b).subrange(k, sample_name(b).len() as int) =~= uuid_text(b));
    lemma_uuid_text_injective(a, b);
}

/// Relies on rand's `random`: a value from the thread-local generator, of
/// which nothing is known.
#[verifier::external_body]
pub(crate) fn random_id() -> u64 {
    rand::random::<u64>()
}

/// `c` with an ASCII capital letter lowered.
pub open spec fn ascii_lower_char(c: char) -> char {
    if 'A' <= c && c <= 'Z' {
        ((c as u32) + 32) as char
    } else {
        c
    }
}

/// `s` with every ASCII capital letter lowered.
pub open spec fn ascii_lower(s: Seq<char>) -> Seq<char> {
    s.map_values(|c: char| ascii_lower_char(c))
}

/// Relies on `str::to_ascii_lowercase`: ASCII letters `A` to `Z` become `a`
/// to `z`, every other character stays.
#[verifier::external_body]
fn ascii_lowercase(s: &str) -> (r: String)
    ensures
        r@ == ascii_lower(s@),
{
    s.to_ascii_lowercase()
}

/// Cards by name, where names differ by more than ASCII case.
pub struct CardDatabase {
    name_to_card: StringHashMap<Card>,
}

impl CardDatabase {
    /// The cards by ASCII-lowercased name.
    pub closed spec fn entries(&self) -> Map<Seq<char>, Card> {
        self.name_to_card@
    }

    /// Well-formedness: finitely many names.
    pub open spec fn wf(&self) -> bool {
        self.entries().dom().finite()
    }

    pub fn new() -> (r: CardDatabase)
        ensures
            r.wf(),
            r.entries() == Map::<Seq<char>, Card>::empty(),
    {
        CardDatabase { name_to_card: StringHashMap::new() }
    }

    /// Adds a card under its lowercased name, replacing a card of the same
    /// name.
    pub fn add(&mut self, card: Card)
        requires
            old(self).wf(),
        ensures
            final(self).wf(),
            final(self).entries() == old(self).entries().insert(ascii_lower(card.name_view()), card),
            final(self).entries().len() == old(self).entries().len() + if old(self).entries().contains_key(
                ascii_lower(card.name_view()),
            ) {
                0int
            } else {
                1int
            },
    {
        let key = ascii_lowercase(card.name());
        self.name_to_card.insert(key, card);
        proof {
            let k = ascii_lower(card.name_view());
            if old(self).entries().contains_key(k) {
                assert(old(self).entries().dom().insert(k) =~= old(self).entries().dom());
            }
        }
    }

    /// The card named `name`, ignoring ASCII case.
    pub fn get(&self, name: &str) -> (r: Option<&Card>)
        ensures
            match r {
                Some(c) => self.entries().contains_key(ascii_lower(name@)) && *c == self.entries()[ascii_lower(name@)],
                None => !self.entries().contains_key(ascii_lower(name@)),
            },
    {
        let key = ascii_lowercase(name);
        self.name_to_card.get(key.as_str())
    }

    /// Number of distinct names.
    pub fn size(&self) -> (r: usize)
        ensures
            r == self.entries().len(),
    {
        self.name_to_card.len()
    }
}

} // verus!
