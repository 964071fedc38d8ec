use vstd::hash_map::StringHashMap;
use vstd::prelude::*;
use vstd::string::{StrSliceExecFns, StringExecFns};

use crate::cards::{Card, Rarity};

verus! {

/// Cards by lowercased name.
pub type CardMap = StringHashMap<Card>;

/// `s` with every occurrence of `pat` removed, scanning left to right.
pub open spec fn without(s: Seq<char>, pat: Seq<char>) -> Seq<char>
    recommends
        pat.len() > 0,
    decreases s.len(),
{
    if s.len() == 0 || pat.len() == 0 {
        s
    } else if pat.len() <= s.len() && s.subrange(0, pat.len() as int) == pat {
        without(s.subrange(pat.len() as int, s.len() as int), pat)
    } else {
        seq![s[0]] + without(s.drop_first(), pat)
    }
}

/// Relies on `str::replace` with an empty replacement: every non-overlapping
/// occurrence of `pat`, found left to right, is removed.
#[verifier::external_body]
fn remove_all(s: &str, pat: &str) -> (r: String)
    requires
        pat@.len() > 0,
    ensures
        r@ == without(s@, pat@),
{
    s.replace(pat, "")
}

/// Unicode lowercase mapping of a string.
pub uninterp spec fn lower_of(s: Seq<char>) -> Seq<char>;

/// Relies on `str::to_lowercase`: the result depends on the characters alone.
#[verifier::external_body]
pub(crate) fn lowercase(s: &str) -> (r: String)
    ensures
        r@ == lower_of(s@),
{
    s.to_lowercase()
}

/// A set listed in a Cockatrice card database.
pub struct XmlSetInner {
    pub name: String,
    pub longname: String,
}

pub struct XmlSet {
    pub inner: XmlSetInner,
}

/// A card's printing: its rarity, picture and set code.
pub struct XmlSetEntry {
    pub rarity: String,
    pub image: String,
    pub name: String,
}

#[derive(Clone, Copy, Debug, PartialEq, Eq, Structural)]
pub enum XmlColour {
    W,
    U,
    B,
    R,
    G,
}

/// A card of a Cockatrice card database.
pub struct XmlCard {
    pub name: String,
    pub set: XmlSetEntry,
    pub colour: Vec<XmlColour>,
    pub manacost: String,
    pub cmc: u32,
    pub ty: String,
    pub pt: Option<String>,
    pub text: String,
}

pub struct XmlCardList {
    pub list: Vec<XmlCard>,
}

/// A Cockatrice card database.
pub struct XmlCardDb {
    pub sets: Vec<XmlSet>,
    pub cards: XmlCardList,
}

/// The pool rarity a Cockatrice rarity names, once " Rare" is dropped from
/// it ("Mythic Rare" is a mythic).
pub open spec fn xml_rarity(s: Seq<char>) -> Option<Rarity> {
    let r = without(s, " Rare"@);
    if r == "Mythic"@ {
        Some(Rarity::Mythic)
    } else if r == "Rare"@ {
        Some(Rarity::Rare)
    } else if r == "Uncommon"@ {
        Some(Rarity::Uncommon)
    } else if r == "Common"@ {
        Some(Rarity::Common)
    } else {
        None
    }
}

impl XmlCard {
    /// The card's rarity, if it is one that enters a pool.
    pub fn rarity(&self) -> (r: Option<Rarity>)
        ensures
            r == xml_rarity(self.set.rarity@),
    {
        proof {
            reveal_strlit(" Rare");
        }
        let rarity = remove_all(self.set.rarity.as_str(), " Rare");
        if rarity == String::from_str("Mythic") {
            Some(Rarity::Mythic)
        } else if rarity == String::from_str("Rare") {
            Some(Rarity::Rare)
        } else if rarity == String::from_str("Uncommon") {
            Some(Rarity::Uncommon)
        } else if rarity == String::from_str("Common") {
            Some(Rarity::Common)
        } else {
            None
        }
    }
}

/// Whether card `i` of `list` enters a pool.
pub open spec fn xml_pooled(list: Seq<XmlCard>, i: int) -> bool {
    xml_rarity(list[i].set.rarity@) is Some
}

/// Whether `c` is the pool card made of `x`.
pub open spec fn made_from(c: Card, x: XmlCard) -> bool {
    &&& c.name_view() == x.name@
    &&& c.image_view() == x.set.image@
    &&& c.set_view() == x.set.name@
    &&& c.text_view() == x.text@
    &&& Some(c.rarity_view()) == xml_rarity(x.set.rarity@)
}

/// Whether `m` maps each lowercased name among the first `n` cards of
/// `list` that enter a pool to the card made of the last of them.
pub open spec fn maps_cards(m: Map<Seq<char>, Card>, list: Seq<XmlCard>, n: int) -> bool {
    &&& forall|i: int| 0 <= i < n && xml_pooled(list, i) ==> #[trigger] m.contains_key(lower_of(list[i].name@))
    &&& forall|k: Seq<char>| #[trigger] m.contains_key(k) ==> exists|i: int|
        0 <= i < n && xml_pooled(list, i) && lower_of(list[i].name@) == k && made_from(m[k], list[i])
            && forall|j: int| i < j < n && xml_pooled(list, j) ==> lower_of(list[j].name@) != k
}

/// The cards of a Cockatrice database by lowercased name. Cards of other
/// rarities are left out; of two cards with one name, the later stays.
pub fn card_map(db: &XmlCardDb) -> (r: StringHashMap<Card>)
    ensures
        maps_cards(r@, db.cards.list@, db.cards.list@.len() as int),
{
    let list = &db.cards.list;
    let mut map: StringHashMap<Card> = StringHashMap::new();
    let mut n: usize = 0;
    while n < list.len()
        invariant
            n <= list@.len(),
            maps_cards(map@, list@, n as int),
        decreases list@.len() - n,
    {
        let x = &list[n];
        if let Some(rarity) = x.rarity() {
            let key = lowercase(x.name.as_str());
            let card = Card::new(x.name.clone(), x.set.image.clone(), x.set.name.clone(), x.text.clone(), rarity);
            let ghost before = map@;
            map.insert(key, card);
            proof {
                let kn = lower_of(list@[n as int].name@);
                assert forall|k: Seq<char>| #[trigger] map@.contains_key(k) implies exists|i: int|
                    0 <= i < n + 1 && xml_pooled(list@, i) && lower_of(list@[i].name@) == k && made_from(map@[k], list@[i])
                        && forall|j: int| i < j < n + 1 && xml_pooled(list@, j) ==> lower_of(list@[j].name@) != k by {
                    if k == kn {
                        assert(made_from(map@[k], list@[n as int]));
                        assert(0 <= n < n + 1 && xml_pooled(list@, n as int) && lower_of(list@[n as int].name@) == k
                            && made_from(map@[k], list@[n as int]) && forall|j: int| n < j < n + 1 && xml_pooled(list@, j) ==> lower_of(list@[j].name@) != k);
                    } else {
                        assert(before.contains_key(k));
                        let i = choose|i: int|
                            0 <= i < n && xml_pooled(list@, i) && lower_of(list@[i].name@) == k && made_from(before[k], list@[i])
                                && forall|j: int| i < j < n && xml_pooled(list@, j) ==> lower_of(list@[j].name@) != k;
                        assert(made_from(map@[k], list@[i]));
                        assert(forall|j: int| i < j < n + 1 && xml_pooled(list@, j) ==> lower_of(list@[j].name@) != k);
                    }
                }
            }
        }
        proof {
            assert forall|k: Seq<char>| #[trigger] map@.contains_key(k) implies exists|i: int|
                0 <= i < n + 1 && xml_pooled(list@, i) && lower_of(list@[i].name@) == k && made_from(map@[k], list@[i])
                    && forall|j: int| i < j < n + 1 && xml_pooled(list@, j) ==> lower_of(list@[j].name@) != k by {
                if !xml_pooled(list@, n as int) {
                    let i = choose|i: int|
                        0 <= i < n && xml_pooled(list@, i) && lower_of(list@[i].name@) == k && made_from(map@[k], list@[i])
                            && forall|j: int| i < j < n && xml_pooled(list@, j) ==> lower_of(list@[j].name@) != k;
                    assert(forall|j: int| i < j < n + 1 && xml_pooled(list@, j) ==> lower_of(list@[j].name@) != k);
                }
            }
        }
        n = n + 1;
    }
    map
}

/// Image links of a Scryfall card, each optional.
pub struct ScryfallCardImages {
    pub png: Option<String>,
    pub border_crop: Option<String>,
    pub art_crop: Option<String>,
    pub large: Option<String>,
    pub normal: Option<String>,
    pub small: Option<String>,
}

impl ScryfallCardImages {
    /// The link used for a card: the first present of large, png, normal,
    /// border crop and small, else the art crop.
    pub open spec fn chosen(self) -> Option<String> {
        if self.large is Some {
            self.large
        } else if self.png is Some {
            self.png
        } else if self.normal is Some {
            self.normal
        } else if self.border_crop is Some {
            self.border_crop
        } else if self.small is Some {
            self.small
        } else {
            self.art_crop
        }
    }

    pub fn select(self) -> (r: Option<String>)
        ensures
            r == self.chosen(),
    {
        if self.large.is_some() {
            self.large
        } else if self.png.is_some() {
            self.png
        } else if self.normal.is_some() {
            self.normal
        } else if self.border_crop.is_some() {
            self.border_crop
        } else if self.small.is_some() {
            self.small
        } else {
            self.art_crop
        }
    }
}

/// A card of Scryfall's card list.
pub struct ScryfallCard {
    /// Card name; both faces for a double-faced card.
    pub name: String,
    /// Set code.
    pub set: String,
    pub image_uris: Option<ScryfallCardImages>,
    /// One of mythic, rare, uncommon, common, special, bonus.
    pub rarity: String,
    pub oracle_text: Option<String>,
}

/// The name of a card's front face: what comes before the first "//".
pub open spec fn front_face(s: Seq<char>) -> Seq<char>
    decreases s.len(),
{
    if s.len() < 2 {
        s
    } else if s[0] == '/' && s[1] == '/' {
        Seq::empty()
    } else {
        seq![s[0]] + front_face(s.drop_first())
    }
}

/// The rarity a Scryfall rarity word gives a card. Mythics are pooled as
/// rares.
pub open spec fn scryfall_rarity(s: Seq<char>) -> Option<Rarity> {
    if s == "mythic"@ {
        Some(Rarity::Rare)
    } else if s == "rare"@ {
        Some(Rarity::Rare)
    } else if s == "uncommon"@ {
        Some(Rarity::Uncommon)
    } else if s == "common"@ {
        Some(Rarity::Common)
    } else if s == "special"@ {
        Some(Rarity::Special)
    } else if s == "bonus"@ {
        Some(Rarity::Bonus)
    } else {
        None
    }
}

/// Whether a "//" starts at index `j` of `s`.
pub open spec fn sep_at(s: Seq<char>, j: int) -> bool {
    0 <= j && j + 1 < s.len() && s[j] == '/' && s[j + 1] == '/'
}

proof fn lemma_front_face_split(s: Seq<char>, i: int)
    requires
        0 <= i <= s.len(),
        forall|j: int| 0 <= j < i ==> !#[trigger] sep_at(s, j),
    ensures
        front_face(s) == s.subrange(0, i) + front_face(s.subrange(i, s.len() as int)),
    decreases i,
{
    if i > 0 {
        assert(!sep_at(s, 0));
        assert forall|j: int| 0 <= j < i - 1 implies !#[trigger] sep_at(s.drop_first(), j) by {
            assert(!sep_at(s, j + 1));
        }
        lemma_front_face_split(s.drop_first(), i - 1);
        assert(s.drop_first().subrange(i - 1, s.len() - 1) =~= s.subrange(i, s.len() as int));
        assert(s.drop_first().subrange(0, i - 1) =~= s.subrange(1, i));
        if s.len() >= 2 {
            assert(s.subrange(0, i) =~= seq![s[0]] + s.subrange(1, i));
        } else {
            assert(front_face(s.subrange(i, s.len() as int)) =~= s.subrange(i, s.len() as int));
            assert(s =~= s.subrange(0, i) + s.subrange(i, s.len() as int));
        }
    } else {
        assert(s.subrange(0, 0) + s.subrange(0, s.len() as int) =~= s);
    }
}

/// The name before the first "//", or the whole name.
fn front_face_of(name: &str) -> (r: String)
    ensures
        r@ == front_face(name@),
{
    let len = name.unicode_len();
    let mut i: usize = 0;
    while i < len && len - i >= 2
        invariant
            len == name@.len(),
            i <= len,
            forall|j: int| 0 <= j < i ==> !#[trigger] sep_at(name@, j),
        decreases len - i,
    {
        if name.get_char(i) == '/' && name.get_char(i + 1) == '/' {
            proof {
                lemma_front_face_split(name@, i as int);
                assert(front_face(name@.subrange(i as int, name@.len() as int)) =~= Seq::<char>::empty());
                assert(name@.subrange(0, i as int) + Seq::<char>::empty() =~= name@.subrange(0, i as int));
            }
            return String::from_str(name.substring_char(0, i));
        }
        i = i + 1;
    }
    proof {
        let k = i as int;
        lemma_front_face_split(name@, k);
        assert(front_face(name@.subrange(k, name@.len() as int)) =~= name@.subrange(k, name@.len() as int));
        assert(name@.subrange(0, k) + name@.subrange(k, name@.len() as int) =~= name@);
    }
    String::from_str(name)
}

impl ScryfallCard {
    /// The pool card for this entry: its front face's name, its chosen
    /// image, set and text, and its rarity; `None` when the rarity is
    /// unknown or the image or text is missing.
    pub fn to_card(self) -> (r: Option<Card>)
        ensures
            match r {
                Some(c) => {
                    &&& scryfall_rarity(self.rarity@) == Some(c.rarity_view())
                    &&& c.name_view() == front_face(self.name@)
                    &&& c.set_view() == self.set@
                    &&& self.image_uris matches Some(imgs) && imgs.chosen() matches Some(i) && c.image_view() == i@
                    &&& self.oracle_text matches Some(t) && c.text_view() == t@
                },
                None => scryfall_rarity(self.rarity@) is None || self.oracle_text is None
                    || !(self.image_uris matches Some(imgs) && imgs.chosen() is Some),
            },
    {
        let name = front_face_of(self.name.as_str());
        let rarity = if self.rarity == String::from_str("mythic") {
            Rarity::Rare
        } else if self.rarity == String::from_str("rare") {
            Rarity::Rare
        } else if self.rarity == String::from_str("uncommon") {
            Rarity::Uncommon
        } else if self.rarity == String::from_str("common") {
            Rarity::Common
        } else if self.rarity == String::from_str("special") {
            Rarity::Special
        } else if self.rarity == String::from_str("bonus") {
            Rarity::Bonus
        } else {
            return None;
        };
        let image = match self.image_uris {
            Some(images) => match images.select() {
                Some(i) => i,
                None => {
                    return None;
                },
            },
            None => {
                return None;
            },
        };
        let text = match self.oracle_text {
            Some(t) => t,
            None => {
                return None;
            },
        };
        Some(Card::new(name, image, self.set, text, rarity))
    }
}

} // verus!
