use rand::seq::SliceRandom;
use rand::Rng;
use vstd::multiset::Multiset;
use vstd::prelude::*;
use vstd::string::StringExecFns;

use crate::cards::{Card, Rarity};

verus! {

/// Result of an operation that fails with a message.
pub type Res<T> = Result<T, String>;

/// An `Err` carrying `message`.
pub fn err<T>(message: &str) -> (r: Res<T>)
    ensures
        r matches Err(m) && m@ == message@,
{
    Err(String::from_str(message))
}

/// Denominator of `DraftConfig::mythic_rate`: a rate of `RATE_SCALE` upgrades
/// every rare slot, a rate of zero none.
pub const RATE_SCALE: u32 = 1_000_000;

/// A pack: the cards a player picks from, one at a time.
pub type Pack = Vec<Card>;

/// Settings of one draft.
#[derive(Debug)]
pub struct DraftConfig {
    /// Number of packs each player opens.
    pub rounds: usize,
    /// Number of cards in each pack.
    pub cards_per_pack: usize,
    /// Whether cards are drawn without replacement (true) or with it (false).
    pub unique_cards: bool,
    /// Whether pack slots are filled by rarity or at random.
    pub use_rarities: bool,
    /// Whether an exhausted rarity may be replaced by another one.
    pub allow_fallback: bool,
    /// Chance, out of `RATE_SCALE`, that a rare slot is upgraded to a mythic.
    pub mythic_rate: u32,
    /// Number of rare slots in each pack.
    pub rares: usize,
    /// Number of uncommon slots in each pack.
    pub uncommons: usize,
    /// Number of common slots in each pack.
    pub commons: usize,
}

impl Default for DraftConfig {
    fn default() -> (r: DraftConfig)
        ensures
            r.rounds == 3,
            r.cards_per_pack == 15,
            r.unique_cards,
            r.use_rarities,
            r.allow_fallback,
            r.mythic_rate == RATE_SCALE / 8,
            r.rares == 1,
            r.uncommons == 3,
            r.commons == 11,
    {
        DraftConfig {
            rounds: 3,
            cards_per_pack: 15,
            unique_cards: true,
            use_rarities: true,
            allow_fallback: true,
            mythic_rate: RATE_SCALE / 8,
            rares: 1,
            uncommons: 3,
            commons: 11,
        }
    }
}

/// The rarities tried, in order, when a slot of rarity `r` is to be filled.
/// The requested rarity itself comes first.
pub open spec fn fallback_order(r: Rarity) -> Seq<Rarity> {
    match r {
        Rarity::Mythic => seq![Rarity::Mythic, Rarity::Rare, Rarity::Uncommon, Rarity::Common],
        Rarity::Rare => seq![Rarity::Rare, Rarity::Mythic, Rarity::Uncommon, Rarity::Common],
        Rarity::Uncommon => seq![Rarity::Uncommon, Rarity::Common, Rarity::Rare, Rarity::Mythic],
        Rarity::Common => seq![Rarity::Common, Rarity::Uncommon, Rarity::Rare, Rarity::Mythic],
        _ => Seq::empty(),
    }
}

/// A copy of a list of cards.
fn clone_cards(cards: &Vec<Card>) -> (r: Vec<Card>)
    ensures
        r@ == cards@,
{
    let mut out: Vec<Card> = Vec::new();
    let mut i: usize = 0;
    while i < cards.len()
        invariant
            i <= cards@.len(),
            out@ == cards@.subrange(0, i as int),
        decreases cards@.len() - i,
    {
        out.push(cards[i].duplicate());
        i = i + 1;
        assert(out@ =~= cards@.subrange(0, i as int));
    }
    assert(cards@.subrange(0, cards@.len() as int) =~= cards@);
    out
}

/// Position of a pooled rarity's bucket in the pool's order.
pub open spec fn rarity_rank(r: Rarity) -> int {
    match r {
        Rarity::Mythic => 0,
        Rarity::Rare => 1,
        Rarity::Uncommon => 2,
        _ => 3,
    }
}

/// Whether cards of rarity `r` enter a draft pool.
pub open spec fn pooled(r: Rarity) -> bool {
    r is Mythic || r is Rare || r is Uncommon || r is Common
}

/// The cards available to build packs from, bucketed by rarity.
pub struct DraftPool {
    mythics: Vec<Card>,
    rares: Vec<Card>,
    uncommons: Vec<Card>,
    commons: Vec<Card>,
}

impl DraftPool {
    /// Well-formedness: every card sits in the bucket of its own rarity.
    pub closed spec fn wf(&self) -> bool {
        &&& forall|i: int| 0 <= i < self.mythics@.len() ==> #[trigger] self.mythics@[i].rarity_view() == Rarity::Mythic
        &&& forall|i: int| 0 <= i < self.rares@.len() ==> #[trigger] self.rares@[i].rarity_view() == Rarity::Rare
        &&& forall|i: int| 0 <= i < self.uncommons@.len() ==> #[trigger] self.uncommons@[i].rarity_view() == Rarity::Uncommon
        &&& forall|i: int| 0 <= i < self.commons@.len() ==> #[trigger] self.commons@[i].rarity_view() == Rarity::Common
    }

    /// The cards of rarity `r`; empty for the rarities that are never pooled.
    pub closed spec fn bucket(&self, r: Rarity) -> Seq<Card> {
        match r {
            Rarity::Mythic => self.mythics@,
            Rarity::Rare => self.rares@,
            Rarity::Uncommon => self.uncommons@,
            Rarity::Common => self.commons@,
            _ => Seq::empty(),
        }
    }

    /// Every card of the pool, bucket after bucket.
    pub open spec fn all_cards(&self) -> Seq<Card> {
        self.bucket(Rarity::Mythic) + self.bucket(Rarity::Rare) + self.bucket(Rarity::Uncommon)
            + self.bucket(Rarity::Common)
    }

    /// Cards of the rarities that are never pooled are never held.
    pub proof fn lemma_unpooled_empty(&self, r: Rarity)
        requires
            !pooled(r),
        ensures
            self.bucket(r).len() == 0,
            self.source_for(r, true) is None,
            self.source_for(r, false) is None,
    {
    }

    /// Both pools hold the same cards in every bucket.
    pub open spec fn same_stock(&self, other: DraftPool) -> bool {
        forall|r: Rarity| #[trigger] self.bucket(r) == other.bucket(r)
    }

    pub open spec fn is_exhausted(&self) -> bool {
        &&& self.bucket(Rarity::Mythic).len() == 0
        &&& self.bucket(Rarity::Rare).len() == 0
        &&& self.bucket(Rarity::Uncommon).len() == 0
        &&& self.bucket(Rarity::Common).len() == 0
    }

    /// The first rarity of `order` whose bucket holds a card.
    pub open spec fn first_stocked(&self, order: Seq<Rarity>) -> Option<Rarity>
        decreases order.len(),
    {
        if order.len() == 0 {
            None
        } else if self.bucket(order[0]).len() > 0 {
            Some(order[0])
        } else {
            self.first_stocked(order.drop_first())
        }
    }

    /// The bucket a slot of rarity `r` is filled from, if any: its own when it
    /// holds a card; otherwise, where falling back is allowed (always for a
    /// mythic when rares remain), the first stocked rarity of its fallback order.
    pub open spec fn source_for(&self, r: Rarity, allow_fallback: bool) -> Option<Rarity> {
        if self.bucket(r).len() > 0 {
            Some(r)
        } else if allow_fallback || (r == Rarity::Mythic && self.bucket(Rarity::Rare).len() > 0) {
            self.first_stocked(fallback_order(r))
        } else {
            None
        }
    }

    pub fn new() -> (r: DraftPool)
        ensures
            r.wf(),
            r.is_exhausted(),
    {
        DraftPool { mythics: Vec::new(), rares: Vec::new(), uncommons: Vec::new(), commons: Vec::new() }
    }

    /// Adds a card to the bucket of its rarity; `Special` and `Bonus` cards are
    /// dropped.
    pub fn add(&mut self, card: Card)
        requires
            old(self).wf(),
        ensures
            final(self).wf(),
            forall|r: Rarity| #[trigger] final(self).bucket(r) == if r == card.rarity_view() && pooled(r) {
                old(self).bucket(r).push(card)
            } else {
                old(self).bucket(r)
            },
    {
        match card.rarity() {
            Rarity::Mythic => self.mythics.push(card),
            Rarity::Rare => self.rares.push(card),
            Rarity::Uncommon => self.uncommons.push(card),
            Rarity::Common => self.commons.push(card),
            Rarity::Bonus | Rarity::Special => {},
        }
    }

    /// A copy of the pool, bucket for bucket.
    pub fn duplicate(&self) -> (r: DraftPool)
        requires
            self.wf(),
        ensures
            r.wf(),
            r.same_stock(*self),
    {
        let r = DraftPool {
            mythics: clone_cards(&self.mythics),
            rares: clone_cards(&self.rares),
            uncommons: clone_cards(&self.uncommons),
            commons: clone_cards(&self.commons),
        };
        assert forall|x: Rarity| #[trigger] r.bucket(x) == self.bucket(x) by {}
        r
    }

    /// A pool of sample cards with the given number of each rarity, their
    /// names all different.
    pub fn sample(mythics: usize, rares: usize, uncommons: usize, commons: usize) -> (r: DraftPool)
        ensures
            r.wf(),
            r.bucket(Rarity::Mythic).len() == mythics,
            r.bucket(Rarity::Rare).len() == rares,
            r.bucket(Rarity::Uncommon).len() == uncommons,
            r.bucket(Rarity::Common).len() == commons,
            forall|x: int, y: int| 0 <= x < y < r.all_cards().len() ==> #[trigger] r.all_cards()[x].name_view()
                != #[trigger] r.all_cards()[y].name_view(),
            forall|q: Rarity, i: int| 0 <= i < r.bucket(q).len() ==> #[trigger] r.bucket(q)[i].rarity_view() == q,
    {
        let base = crate::cards::random_id();
        let mut pool = DraftPool::new();
        assert(pool.all_cards() =~= Seq::<Card>::empty());
        pool.add_samples(Rarity::Mythic, mythics, base);
        pool.add_samples(Rarity::Rare, rares, base);
        pool.add_samples(Rarity::Uncommon, uncommons, base);
        pool.add_samples(Rarity::Common, commons, base);
        proof {
            assert forall|x: int, y: int| 0 <= x < y < pool.all_cards().len() implies #[trigger] pool.all_cards()[x].name_view()
                != #[trigger] pool.all_cards()[y].name_view() by {
                if pool.all_cards()[x].name_view() == pool.all_cards()[y].name_view() {
                    crate::cards::lemma_sample_names_differ((base + x) as u128, (base + y) as u128);
                }
            }
            assert forall|q: Rarity, i: int| 0 <= i < pool.bucket(q).len() implies #[trigger] pool.bucket(q)[i].rarity_view() == q by {
                pool.lemma_bucket_rarity(q, i);
            }
        }
        pool
    }

    /// Appends `count` sample cards of a pooled rarity, the pool's card at
    /// index `x` being named after `base + x`; the buckets after this one
    /// are still empty.
    fn add_samples(&mut self, rarity: Rarity, count: usize, base: u64)
        requires
            old(self).wf(),
            pooled(rarity),
            forall|o: Rarity| pooled(o) && rarity_rank(o) > rarity_rank(rarity) ==> #[trigger] old(self).bucket(o).len() == 0,
            forall|x: int| 0 <= x < old(self).all_cards().len() ==> #[trigger] old(self).all_cards()[x].name_view()
                == crate::cards::sample_name((base + x) as u128),
            old(self).all_cards().len() + count <= 4 * usize::MAX,
        ensures
            final(self).wf(),
            final(self).bucket(rarity).len() == old(self).bucket(rarity).len() + count,
            forall|o: Rarity| o != rarity ==> #[trigger] final(self).bucket(o) == old(self).bucket(o),
            final(self).all_cards().len() == old(self).all_cards().len() + count,
            forall|x: int| 0 <= x < final(self).all_cards().len() ==> #[trigger] final(self).all_cards()[x].name_view()
                == crate::cards::sample_name((base + x) as u128),
    {
        let mut i: usize = 0;
        while i < count
            invariant
                self.wf(),
                pooled(rarity),
                i <= count,
                self.bucket(rarity).len() == old(self).bucket(rarity).len() + i,
                forall|o: Rarity| o != rarity ==> #[trigger] self.bucket(o) == old(self).bucket(o),
                forall|o: Rarity| pooled(o) && rarity_rank(o) > rarity_rank(rarity) ==> #[trigger] self.bucket(o).len() == 0,
                self.all_cards().len() == old(self).all_cards().len() + i,
                old(self).all_cards().len() + count <= 4 * usize::MAX,
                forall|x: int| 0 <= x < self.all_cards().len() ==> #[trigger] self.all_cards()[x].name_view()
                    == crate::cards::sample_name((base + x) as u128),
            decreases count - i,
        {
            let held = self.mythics.len() as u128 + self.rares.len() as u128 + self.uncommons.len() as u128
                + self.commons.len() as u128;
            let card = Card::sample_with_id(rarity, base as u128 + held);
            let ghost before = *self;
            self.add(card);
            proof {
                assert(self.all_cards() =~= before.all_cards().push(card)) by {
                    assert(rarity_rank(Rarity::Mythic) == 0);
                    assert(rarity_rank(Rarity::Rare) == 1);
                    assert(rarity_rank(Rarity::Uncommon) == 2);
                    assert(rarity_rank(Rarity::Common) == 3);
                    assert(before.bucket(Rarity::Rare) == self.bucket(Rarity::Rare) || rarity == Rarity::Rare);
                }
            }
            i = i + 1;
        }
    }

    pub fn empty(&self) -> (r: bool)
        ensures
            r == self.is_exhausted(),
    {
        self.mythics.is_empty() && self.rares.is_empty() && self.uncommons.is_empty()
            && self.commons.is_empty()
    }

    pub fn cards_of(&self, rarity: Rarity) -> (r: &[Card])
        ensures
            r@ == self.bucket(rarity),
    {
        match rarity {
            Rarity::Mythic => self.mythics.as_slice(),
            Rarity::Rare => self.rares.as_slice(),
            Rarity::Uncommon => self.uncommons.as_slice(),
            Rarity::Common => self.commons.as_slice(),
            Rarity::Bonus | Rarity::Special => &[],
        }
    }
    /// Given a rarity that may be out of stock, the rarity to fill its slot
    /// from: the first stocked one of its fallback order.
    pub fn replacement_rarity(&self, rarity: Rarity) -> (r: Option<Rarity>)
        ensures
            r == self.first_stocked(fallback_order(rarity)),
    {
        let order: [Rarity; 4] = match rarity {
            Rarity::Mythic => [Rarity::Mythic, Rarity::Rare, Rarity::Uncommon, Rarity::Common],
            Rarity::Rare => [Rarity::Rare, Rarity::Mythic, Rarity::Uncommon, Rarity::Common],
            Rarity::Uncommon => [Rarity::Uncommon, Rarity::Common, Rarity::Rare, Rarity::Mythic],
            Rarity::Common => [Rarity::Common, Rarity::Uncommon, Rarity::Rare, Rarity::Mythic],
            Rarity::Bonus | Rarity::Special => {
                return None;
            },
        };
        assert(order@ == fallback_order(rarity));
        assert(fallback_order(rarity).subrange(0, 4) =~= fallback_order(rarity));
        let mut i: usize = 0;
        while i < 4
            invariant
                i <= 4,
                order@ == fallback_order(rarity),
                self.first_stocked(fallback_order(rarity)) == self.first_stocked(
                    fallback_order(rarity).subrange(i as int, 4),
                ),
            decreases 4 - i,
        {
            let candidate = order[i];
            assert(fallback_order(rarity).subrange(i as int, 4).drop_first()
                =~= fallback_order(rarity).subrange(i as int + 1, 4));
            if !self.cards_of(candidate).is_empty() {
                return Some(candidate);
            }
            i = i + 1;
        }
        None
    }

    /// Removes and returns the last card of the bucket of `rarity`.
    fn pop_bucket(&mut self, rarity: Rarity) -> (r: Option<Card>)
        requires
            old(self).wf(),
        ensures
            final(self).wf(),
            old(self).bucket(rarity).len() == 0 ==> r is None && final(self).same_stock(*old(self)),
            old(self).bucket(rarity).len() > 0 ==> {
                &&& r == Some(old(self).bucket(rarity).last())
                &&& final(self).bucket(rarity) == old(self).bucket(rarity).drop_last()
                &&& forall|o: Rarity| o != rarity ==> #[trigger] final(self).bucket(o) == old(self).bucket(o)
            },
    {
        match rarity {
            Rarity::Mythic => self.mythics.pop(),
            Rarity::Rare => self.rares.pop(),
            Rarity::Uncommon => self.uncommons.pop(),
            Rarity::Common => self.commons.pop(),
            Rarity::Bonus | Rarity::Special => None,
        }
    }

    /// Takes a card for a slot of `rarity` out of the pool: the last card of
    /// the bucket that `source_for` names, or an error when it names none.
    #[verifier::spinoff_prover]
    pub fn take(&mut self, rarity: Rarity, allow_fallback: bool) -> (r: Res<Card>)
        requires
            old(self).wf(),
        ensures
            final(self).wf(),
            match old(self).source_for(rarity, allow_fallback) {
                Some(s) => {
                    &&& r == Ok::<Card, String>(old(self).bucket(s).last())
                    &&& final(self).bucket(s) == old(self).bucket(s).drop_last()
                    &&& forall|o: Rarity| o != s ==> #[trigger] final(self).bucket(o) == old(self).bucket(o)
                },
                None => r is Err && final(self).same_stock(*old(self)),
            },
            !pooled(rarity) ==> r is Err,
        decreases (if old(self).bucket(rarity).len() == 0 { 1int } else { 0int }),
    {
        if self.empty() {
            proof {
                self.lemma_exhausted_stocks_nothing(fallback_order(rarity));
            }
            return err("Insufficient cards in pool.");
        }
        let exact = self.pop_bucket(rarity);
        if let Some(card) = exact {
            assert(old(self).source_for(rarity, allow_fallback) == Some(rarity));
            assert(pooled(rarity));
            Ok(card)
        } else if allow_fallback || rarity == Rarity::Mythic && !self.rares.is_empty() {
            proof {
                self.lemma_first_stocked_is_stocked(fallback_order(rarity));
                self.lemma_same_stock_same_choice(*old(self), fallback_order(rarity));
                assert(self.bucket(Rarity::Rare) == old(self).bucket(Rarity::Rare));
                assert(old(self).bucket(rarity).len() == 0);
                if !pooled(rarity) {
                    assert(fallback_order(rarity).len() == 0);
                }
            }
            if let Some(fallback) = self.replacement_rarity(rarity) {
                let ghost cur = *self;
                proof {
                    assert(cur.bucket(fallback).len() > 0);
                    assert(cur.source_for(fallback, false) == Some(fallback));
                    assert(old(self).source_for(rarity, allow_fallback) == Some(fallback));
                    assert(cur.same_stock(*old(self)));
                }
                let res = self.take(fallback, false);
                proof {
                    assert(res == Ok::<Card, String>(old(self).bucket(fallback).last()));
                    assert(self.bucket(fallback) == old(self).bucket(fallback).drop_last());
                    assert forall|o: Rarity| o != fallback implies #[trigger] self.bucket(o) == old(self).bucket(o) by {
                        assert(self.bucket(o) == cur.bucket(o));
                        assert(cur.bucket(o) == old(self).bucket(o));
                    }
                }
                res
            } else {
                assert(old(self).source_for(rarity, allow_fallback) is None);
                err("Insufficient cards of that rarity in pool.")
            }
        } else {
            assert(old(self).bucket(rarity).len() == 0);
            assert(self.bucket(Rarity::Rare) == old(self).bucket(Rarity::Rare));
            assert(self.rares@ == self.bucket(Rarity::Rare));
            assert(old(self).source_for(rarity, allow_fallback) is None);
            err("Insufficient cards in pool.")
        }
    }

    /// Picks a random card for a slot of `rarity`, leaving the pool as it is:
    /// a card of the bucket that `source_for` names, or an error when it
    /// names none.
    #[verifier::spinoff_prover]
    pub fn roll(&self, rarity: Rarity, allow_fallback: bool) -> (r: Res<Card>)
        ensures
            match self.source_for(rarity, allow_fallback) {
                Some(s) => r matches Ok(c) && self.bucket(s).contains(c),
                None => r is Err,
            },
            !pooled(rarity) ==> r is Err,
        decreases (if self.bucket(rarity).len() == 0 { 1int } else { 0int }),
    {
        let exact = choose_card(self.cards_of(rarity));
        if let Some(card) = exact {
            Ok(card.duplicate())
        } else if allow_fallback || rarity == Rarity::Mythic && !self.rares.is_empty() {
            if let Some(fallback) = self.replacement_rarity(rarity) {
                proof {
                    self.lemma_first_stocked_is_stocked(fallback_order(rarity));
                }
                self.roll(fallback, false)
            } else {
                err("Insufficient cards of that rarity in pool.")
            }
        } else {
            err("Insufficient cards in pool.")
        }
    }

    proof fn lemma_first_stocked_is_stocked(&self, order: Seq<Rarity>)
        ensures
            self.first_stocked(order) matches Some(s) ==> self.bucket(s).len() > 0,
        decreases order.len(),
    {
        if order.len() > 0 && self.bucket(order[0]).len() == 0 {
            self.lemma_first_stocked_is_stocked(order.drop_first());
        }
    }

    pub proof fn lemma_same_stock_same_choice(&self, other: DraftPool, order: Seq<Rarity>)
        requires
            self.same_stock(other),
        ensures
            self.first_stocked(order) == other.first_stocked(order),
        decreases order.len(),
    {
        if order.len() > 0 {
            assert(self.bucket(order[0]) == other.bucket(order[0]));
            self.lemma_same_stock_same_choice(other, order.drop_first());
        }
    }

    /// A pool that holds a card fills a slot of any pooled rarity when it may
    /// fall back, and from a pooled bucket.
    proof fn lemma_stocked_order(&self, r: Rarity)
        requires
            pooled(r),
        ensures
            !self.is_exhausted() ==> self.first_stocked(fallback_order(r)) is Some,
            self.first_stocked(fallback_order(r)) matches Some(s) ==> pooled(s),
            self.bucket(r).len() == 0 && r == Rarity::Mythic && self.bucket(Rarity::Rare).len() > 0
                ==> self.first_stocked(fallback_order(r)) == Some(Rarity::Rare),
    {
        reveal_with_fuel(DraftPool::first_stocked, 5);
        let o = fallback_order(r);
        assert(o.drop_first().drop_first().drop_first().drop_first().len() == 0);
    }

    /// In a well-formed pool every card has its bucket's rarity.
    pub proof fn lemma_bucket_rarity(&self, r: Rarity, i: int)
        requires
            self.wf(),
            0 <= i < self.bucket(r).len(),
        ensures
            self.bucket(r)[i].rarity_view() == r,
    {
    }

    proof fn lemma_exhausted_stocks_nothing(&self, order: Seq<Rarity>)
        requires
            self.is_exhausted(),
        ensures
            self.first_stocked(order) is None,
        decreases order.len(),
    {
        if order.len() > 0 {
            assert(self.bucket(order[0]).len() == 0);
            self.lemma_exhausted_stocks_nothing(order.drop_first());
        }
    }
}

/// Relies on rand's `SliceRandom::shuffle`: the slice is permuted in place.
#[verifier::external_body]
fn shuffle_cards(cards: &mut Vec<Card>)
    ensures
        final(cards)@.to_multiset() == old(cards)@.to_multiset(),
{
    cards.shuffle(&mut rand::thread_rng());
}

/// Relies on rand's `SliceRandom::choose`: `None` for an empty slice, else one
/// of its elements.
#[verifier::external_body]
fn choose_card(cards: &[Card]) -> (r: Option<&Card>)
    ensures
        cards@.len() == 0 <==> r is None,
        r matches Some(c) ==> cards@.contains(*c),
{
    cards.choose(&mut rand::thread_rng())
}

/// Relies on rand's `Rng::gen_range` over `0..bound`, which panics on an empty
/// range: a value below `bound`.
#[verifier::external_body]
fn draw_below(bound: u32) -> (r: u32)
    requires
        bound > 0,
    ensures
        r < bound,
{
    rand::thread_rng().gen_range(0..bound)
}

/// Every card of `packs`, pack after pack.
pub open spec fn cards_in(packs: Seq<Pack>) -> Seq<Card> {
    packs.map_values(|p: Pack| p@).flatten()
}

/// Number of packs made for `players` players.
pub open spec fn pack_count(players: usize, config: DraftConfig) -> int {
    players * config.rounds
}

/// Number of slots of a pack built by rarity.
pub open spec fn slot_count(config: DraftConfig) -> int {
    config.rares + config.uncommons + config.commons
}

/// Whether no card of `packs` has rarity `r`.
pub open spec fn none_of_rarity(packs: Seq<Pack>, r: Rarity) -> bool {
    forall|p: int, j: int|
        0 <= p < packs.len() && 0 <= j < packs[p]@.len() ==> #[trigger] packs[p]@[j].rarity_view()
            != r
}

/// Whether the first `config.rares` cards of every pack are mythics.
pub open spec fn rare_slots_mythic(packs: Seq<Pack>, config: DraftConfig) -> bool {
    forall|p: int, j: int|
        0 <= p < packs.len() && 0 <= j < config.rares && j < packs[p]@.len()
            ==> #[trigger] packs[p]@[j].rarity_view() == Rarity::Mythic
}

/// Whether every pack has `len` cards.
pub open spec fn packs_of_len(packs: Seq<Pack>, len: int) -> bool {
    forall|p: int| 0 <= p < packs.len() ==> #[trigger] packs[p]@.len() == len
}

/// Whether the slots of every pack come in order: `config.rares` rare or
/// mythic cards, then `config.uncommons` uncommons, then commons.
pub open spec fn slots_by_rarity(packs: Seq<Pack>, config: DraftConfig) -> bool {
    forall|p: int, j: int|
        0 <= p < packs.len() && 0 <= j < packs[p]@.len() ==> {
            let r = (#[trigger] packs[p]@[j]).rarity_view();
            &&& j < config.rares ==> r == Rarity::Mythic || r == Rarity::Rare
            &&& config.rares <= j < config.rares + config.uncommons ==> r == Rarity::Uncommon
            &&& config.rares + config.uncommons <= j ==> r == Rarity::Common
        }
}

/// Whether `c` is a card that a slot of rarity `r` can be filled with: one
/// of the bucket that `source_for` names.
pub open spec fn drawn_for(pool: DraftPool, r: Rarity, allow_fallback: bool, c: Card) -> bool {
    pool.source_for(r, allow_fallback) matches Some(s) && pool.bucket(s).contains(c)
}

/// Whether every slot of every pack holds a card its kind of slot can be
/// filled with: rare slots (each maybe upgraded) first, then uncommon slots,
/// then common slots.
pub open spec fn slots_from_sources(packs: Seq<Pack>, pool: DraftPool, config: DraftConfig) -> bool {
    forall|p: int, j: int|
        0 <= p < packs.len() && 0 <= j < packs[p]@.len() ==> {
            let c = #[trigger] packs[p]@[j];
            let fb = config.allow_fallback;
            &&& j < config.rares ==> drawn_for(pool, Rarity::Mythic, fb, c) || drawn_for(pool, Rarity::Rare, fb, c)
            &&& config.rares <= j < config.rares + config.uncommons ==> drawn_for(pool, Rarity::Uncommon, fb, c)
            &&& config.rares + config.uncommons <= j ==> drawn_for(pool, Rarity::Common, fb, c)
        }
}

/// In the modes that draw by rarity: the uncommon and common buckets cover
/// their slots in every pack, and so does the rare bucket, or, when every
/// rare slot is upgraded, the mythic bucket.
pub open spec fn stocked_by_rarity(pool: DraftPool, config: DraftConfig, count: int) -> bool {
    &&& pool.bucket(Rarity::Uncommon).len() >= count * config.uncommons
    &&& pool.bucket(Rarity::Common).len() >= count * config.commons
    &&& (pool.bucket(Rarity::Rare).len() >= count * config.rares || (config.mythic_rate
        >= RATE_SCALE && pool.bucket(Rarity::Mythic).len() >= count * config.rares))
}

proof fn lemma_step(rem: int, b: int)
    requires
        rem >= 1,
        b >= 0,
    ensures
        rem * b >= b,
        rem * b - b == (rem - 1) * b,
{
    assert(rem * b >= b) by (nonlinear_arith)
        requires
            rem >= 1,
            b >= 0,
    ;
    assert(rem * b - b == (rem - 1) * b) by (nonlinear_arith);
}

proof fn lemma_cards_in_push(packs: Seq<Pack>, p: Pack)
    ensures
        cards_in(packs.push(p)) == cards_in(packs) + p@,
{
    assert(packs.push(p).map_values(|q: Pack| q@) =~= packs.map_values(|q: Pack| q@).push(p@));
    packs.map_values(|q: Pack| q@).lemma_flatten_push(p@);
}

/// Taking the last card `c` of one bucket leaves the other cards.
proof fn lemma_took_one(before: DraftPool, after: DraftPool, s: Rarity, c: Card)
    requires
        pooled(s),
        before.bucket(s).len() > 0,
        c == before.bucket(s).last(),
        after.bucket(s) == before.bucket(s).drop_last(),
        forall|o: Rarity| o != s ==> #[trigger] after.bucket(o) == before.bucket(o),
    ensures
        after.all_cards().to_multiset().insert(c) == before.all_cards().to_multiset(),
        after.all_cards().len() == before.all_cards().len() - 1,
{
    broadcast use vstd::seq_lib::lemma_multiset_commutative, vstd::seq_lib::group_to_multiset_ensures;
    broadcast use vstd::multiset::group_multiset_axioms;

    assert(before.bucket(s) =~= after.bucket(s).push(c));
    let m = Rarity::Mythic;
    let r = Rarity::Rare;
    let u = Rarity::Uncommon;
    let k = Rarity::Common;
    assert(after.bucket(s).push(c).to_multiset() =~= after.bucket(s).to_multiset().insert(c));
    assert(after.all_cards().to_multiset() =~= after.bucket(m).to_multiset().add(
        after.bucket(r).to_multiset(),
    ).add(after.bucket(u).to_multiset()).add(after.bucket(k).to_multiset()));
    assert(before.all_cards().to_multiset() =~= before.bucket(m).to_multiset().add(
        before.bucket(r).to_multiset(),
    ).add(before.bucket(u).to_multiset()).add(before.bucket(k).to_multiset()));
    assert(after.all_cards().to_multiset().insert(c) =~= before.all_cards().to_multiset());
}

/// Whether a rare slot with draw `draw` (out of `RATE_SCALE`) is upgraded
/// to a mythic one at rate `rate`.
pub fn upgrades(draw: u32, rate: u32) -> (r: bool)
    ensures
        r == (draw < rate),
{
    draw < rate
}

/// Whether a rare slot is upgraded to a mythic one: a draw below
/// `RATE_SCALE` that falls under the configured rate.
fn upgrade_rare_slot(config: &DraftConfig) -> (r: bool)
    ensures
        exists|d: u32| d < RATE_SCALE && r == upgrades_spec(d, config.mythic_rate),
        config.mythic_rate >= RATE_SCALE ==> r,
        config.mythic_rate == 0 ==> !r,
{
    let d = draw_below(RATE_SCALE);
    let r = upgrades(d, config.mythic_rate);
    assert(d < RATE_SCALE && r == upgrades_spec(d, config.mythic_rate));
    r
}

pub open spec fn upgrades_spec(draw: u32, rate: u32) -> bool {
    draw < rate
}

/// Cube mode with rarities: every bucket is shuffled, then each slot takes a
/// card out of the pool.
fn make_cube_packs_rarities(players: usize, config: &DraftConfig, source: DraftPool) -> (r: Res<
    Vec<Pack>,
>)
    requires
        source.wf(),
        pack_count(players, *config) <= usize::MAX,
    ensures
        r matches Ok(packs) ==> {
            &&& packs@.len() == pack_count(players, *config)
            &&& packs_of_len(packs@, slot_count(*config))
            &&& cards_in(packs@).to_multiset().subset_of(source.all_cards().to_multiset())
            &&& (config.mythic_rate >= RATE_SCALE && source.bucket(Rarity::Mythic).len()
                >= pack_count(players, *config) * config.rares && stocked_by_rarity(
                source,
                *config,
                pack_count(players, *config),
            )) ==> rare_slots_mythic(packs@, *config)
            &&& (config.mythic_rate == 0 && source.bucket(Rarity::Rare).len() >= pack_count(
                players,
                *config,
            ) * config.rares && stocked_by_rarity(source, *config, pack_count(players, *config)))
                ==> none_of_rarity(packs@, Rarity::Mythic)
            &&& stocked_by_rarity(source, *config, pack_count(players, *config)) ==> slots_by_rarity(packs@, *config)
        },
        stocked_by_rarity(source, *config, pack_count(players, *config)) || (config.allow_fallback
            && source.all_cards().len() >= pack_count(players, *config) * slot_count(*config))
            ==> r is Ok,
        source.all_cards().len() < pack_count(players, *config) * slot_count(*config) ==> r is Err,
{
    broadcast use vstd::seq_lib::group_to_multiset_ensures, vstd::multiset::group_multiset_axioms;

    let ghost pool0 = source;
    let mut pool = source;
    shuffle_cards(&mut pool.mythics);
    shuffle_cards(&mut pool.rares);
    shuffle_cards(&mut pool.uncommons);
    shuffle_cards(&mut pool.commons);
    proof {
        broadcast use vstd::seq_lib::lemma_multiset_commutative;

        assert(pool.bucket(Rarity::Mythic).to_multiset() == pool0.bucket(Rarity::Mythic).to_multiset());
        assert(pool.bucket(Rarity::Rare).to_multiset() == pool0.bucket(Rarity::Rare).to_multiset());
        assert(pool.bucket(Rarity::Uncommon).to_multiset() == pool0.bucket(Rarity::Uncommon).to_multiset());
        assert(pool.bucket(Rarity::Common).to_multiset() == pool0.bucket(Rarity::Common).to_multiset());
        assert forall|i: int| 0 <= i < pool.mythics@.len() implies #[trigger] pool.mythics@[i].rarity_view() == Rarity::Mythic by {
            assert(pool.mythics@.to_multiset().count(pool.mythics@[i]) > 0);
        }
        assert forall|i: int| 0 <= i < pool.rares@.len() implies #[trigger] pool.rares@[i].rarity_view() == Rarity::Rare by {
            assert(pool.rares@.to_multiset().count(pool.rares@[i]) > 0);
        }
        assert forall|i: int| 0 <= i < pool.uncommons@.len() implies #[trigger] pool.uncommons@[i].rarity_view() == Rarity::Uncommon by {
            assert(pool.uncommons@.to_multiset().count(pool.uncommons@[i]) > 0);
        }
        assert forall|i: int| 0 <= i < pool.commons@.len() implies #[trigger] pool.commons@[i].rarity_view() == Rarity::Common by {
            assert(pool.commons@.to_multiset().count(pool.commons@[i]) > 0);
        }
        assert(pool.all_cards().to_multiset() =~= pool0.all_cards().to_multiset());
        assert forall|x: Rarity| #[trigger] pool.bucket(x).len() == pool0.bucket(x).len() by {
            vstd::seq_lib::to_multiset_len(pool.bucket(x));
            vstd::seq_lib::to_multiset_len(pool0.bucket(x));
        }
    }
    let ghost start = pool;
    let total = players * config.rounds;
    let ghost upgrades = config.mythic_rate >= RATE_SCALE && start.bucket(Rarity::Mythic).len()
        >= total * config.rares && stocked_by_rarity(start, *config, total as int);
    let ghost plain = config.mythic_rate == 0 && start.bucket(Rarity::Rare).len() >= total
        * config.rares && stocked_by_rarity(start, *config, total as int);
    let ghost by_rarity = stocked_by_rarity(start, *config, total as int);
    let ghost rare_stocked = start.bucket(Rarity::Rare).len() >= total * config.rares;
    let ghost by_fallback = config.allow_fallback && start.all_cards().len() >= total
        * slot_count(*config);
    proof {
        assert(start.bucket(Rarity::Mythic).len() == pool0.bucket(Rarity::Mythic).len());
        assert(start.bucket(Rarity::Rare).len() == pool0.bucket(Rarity::Rare).len());
        assert(start.bucket(Rarity::Uncommon).len() == pool0.bucket(Rarity::Uncommon).len());
        assert(start.bucket(Rarity::Common).len() == pool0.bucket(Rarity::Common).len());
    }
    let mut packs: Vec<Pack> = Vec::new();
    let mut k: usize = 0;
    while k < total
        invariant
            pool.wf(),
            pool0 == source,
            total == pack_count(players, *config),
            k <= total,
            packs@.len() == k,
            packs_of_len(packs@, slot_count(*config)),
            cards_in(packs@).len() == k * slot_count(*config),
            pool.all_cards().to_multiset().add(cards_in(packs@).to_multiset())
                == start.all_cards().to_multiset(),
            upgrades ==> rare_slots_mythic(packs@, *config),
            plain ==> none_of_rarity(packs@, Rarity::Mythic),
            by_rarity ==> slots_by_rarity(packs@, *config),
            by_rarity ==> pool.bucket(Rarity::Uncommon).len() >= (total - k) * config.uncommons,
            by_rarity ==> pool.bucket(Rarity::Common).len() >= (total - k) * config.commons,
            by_rarity && rare_stocked ==> pool.bucket(Rarity::Rare).len() >= (total - k)
                * config.rares,
            upgrades ==> pool.bucket(Rarity::Mythic).len() >= (total - k) * config.rares,
            start.all_cards().to_multiset() == pool0.all_cards().to_multiset(),
            forall|x: Rarity| #[trigger] start.bucket(x).len() == pool0.bucket(x).len(),
            by_rarity && !rare_stocked ==> config.mythic_rate >= RATE_SCALE && pool.bucket(
                Rarity::Mythic,
            ).len() >= (total - k) * config.rares,
            by_fallback ==> pool.all_cards().len() >= (total - k) * slot_count(*config),
            upgrades == (config.mythic_rate >= RATE_SCALE && start.bucket(Rarity::Mythic).len()
                >= total * config.rares && by_rarity),
            plain == (config.mythic_rate == 0 && rare_stocked && by_rarity),
            rare_stocked == (start.bucket(Rarity::Rare).len() >= total * config.rares),
            by_rarity == stocked_by_rarity(start, *config, total as int),
            stocked_by_rarity(pool0, *config, total as int) ==> by_rarity,
            config.allow_fallback && pool0.all_cards().len() >= total * slot_count(*config)
                ==> by_fallback,
            by_fallback == (config.allow_fallback && start.all_cards().len() >= total
                * slot_count(*config)),
        decreases total - k,
    {
        let ghost rem = total - k;
        proof {
            lemma_step(rem, config.rares as int);
            lemma_step(rem, config.uncommons as int);
            lemma_step(rem, config.commons as int);
            lemma_step(rem, slot_count(*config));
        }
        let mut pack: Pack = Vec::new();
        proof {
            vstd::seq_lib::to_multiset_len(pack@);
            vstd::multiset::lemma_multiset_empty_len(pack@.to_multiset());
            assert(pack@.to_multiset() =~= Multiset::empty());
            assert(pool.all_cards().to_multiset().add(cards_in(packs@).to_multiset()).add(pack@.to_multiset())
                =~= pool.all_cards().to_multiset().add(cards_in(packs@).to_multiset()));
        }
        let mut j: usize = 0;
        while j < config.rares
            invariant
                pool.wf(),
                pool0 == source,
                total == pack_count(players, *config),
                j <= config.rares,
                pack@.len() == j,
                pool.all_cards().to_multiset().add(cards_in(packs@).to_multiset()).add(
                    pack@.to_multiset(),
                ) == start.all_cards().to_multiset(),
                upgrades ==> forall|i: int| 0 <= i < j ==> #[trigger] pack@[i].rarity_view()
                    == Rarity::Mythic,
                plain ==> forall|i: int| 0 <= i < j ==> #[trigger] pack@[i].rarity_view()
                    != Rarity::Mythic,
                by_rarity ==> forall|i: int| 0 <= i < j ==> #[trigger] pack@[i].rarity_view()
                    == Rarity::Mythic || pack@[i].rarity_view() == Rarity::Rare,
                by_rarity == stocked_by_rarity(start, *config, total as int),
                rem >= 1,
                by_fallback ==> config.allow_fallback,
                stocked_by_rarity(pool0, *config, total as int) ==> by_rarity,
                config.allow_fallback && pool0.all_cards().len() >= total * slot_count(*config)
                    ==> by_fallback,
                rem * config.rares >= config.rares,
                rem * slot_count(*config) >= slot_count(*config),
                rem * config.uncommons >= config.uncommons,
                rem * config.commons >= config.commons,
                upgrades == (config.mythic_rate >= RATE_SCALE && start.bucket(Rarity::Mythic).len()
                    >= total * config.rares && by_rarity),
                plain == (config.mythic_rate == 0 && rare_stocked && by_rarity),
                rare_stocked == (start.bucket(Rarity::Rare).len() >= total * config.rares),
                by_rarity ==> pool.bucket(Rarity::Uncommon).len() >= rem * config.uncommons,
                by_rarity ==> pool.bucket(Rarity::Common).len() >= rem * config.commons,
                by_rarity && rare_stocked ==> pool.bucket(Rarity::Rare).len() >= rem
                    * config.rares - j,
                upgrades ==> pool.bucket(Rarity::Mythic).len() >= rem * config.rares - j,
                by_rarity && !rare_stocked ==> config.mythic_rate >= RATE_SCALE && pool.bucket(
                    Rarity::Mythic,
                ).len() >= rem * config.rares - j,
                by_fallback ==> pool.all_cards().len() >= rem * slot_count(*config) - j,
            decreases config.rares - j,
        {
            let wanted = if upgrade_rare_slot(config) {
                Rarity::Mythic
            } else {
                Rarity::Rare
            };
            let ghost before = pool;
            proof {
                before.lemma_stocked_order(wanted);
            }
            match pool.take(wanted, config.allow_fallback) {
                Ok(card) => {
                    proof {
                        let s = before.source_for(wanted, config.allow_fallback)->Some_0;
                        before.lemma_first_stocked_is_stocked(fallback_order(wanted));
                        lemma_took_one(before, pool, s, card);
                        assert(before.bucket(s).contains(card));
                        before.lemma_bucket_rarity(s, before.bucket(s).len() - 1);
                        assert(by_rarity ==> (s == Rarity::Mythic || s == Rarity::Rare));
                        assert(pool.bucket(Rarity::Uncommon) == before.bucket(Rarity::Uncommon) || !by_rarity);
                        assert(pool.bucket(Rarity::Common) == before.bucket(Rarity::Common) || !by_rarity);
                    }
                    let ghost prev = pack@;
                    pack.push(card);
                    proof {
                        assert(pack@ == prev.push(card));
                        vstd::seq_lib::to_multiset_build(prev, card);
                    }
                },
                Err(e) => {
                    proof {
                        if by_fallback {
                            assert(before.all_cards().len() >= 1);
                            assert(!before.is_exhausted());
                            assert(before.source_for(wanted, config.allow_fallback) is Some);
                        }
                        if by_rarity {
                            if rare_stocked {
                                assert(before.bucket(Rarity::Rare).len() >= 1);
                                assert(wanted == Rarity::Rare || wanted == Rarity::Mythic);
                                assert(before.source_for(wanted, config.allow_fallback) is Some);
                            } else {
                                assert(wanted == Rarity::Mythic);
                                assert(before.bucket(Rarity::Mythic).len() >= 1);
                                assert(before.source_for(wanted, config.allow_fallback) is Some);
                            }
                        }
                    }
                    return Err(e);
                },
            }
            j = j + 1;
        }
        let ghost after_rares = pool;
        let ghost rares_pack = pack@;
        proof {
            lemma_step(rem, config.uncommons as int);
            lemma_step(rem, config.commons as int);
            lemma_step(rem, slot_count(*config));
        }
        match fill_slots(&mut pool, &mut pack, Rarity::Uncommon, config.uncommons, config.allow_fallback) {
            Ok(()) => {},
            Err(e) => {
                return Err(e);
            },
        }
        let ghost after_uncommons = pool;
        let ghost uncommons_pack = pack@;
        proof {
            lemma_step(rem, config.uncommons as int);
            lemma_step(rem, config.commons as int);
            lemma_step(rem, slot_count(*config));
        }
        match fill_slots(&mut pool, &mut pack, Rarity::Common, config.commons, config.allow_fallback) {
            Ok(()) => {},
            Err(e) => {
                return Err(e);
            },
        }
        proof {
            broadcast use vstd::seq_lib::lemma_multiset_commutative;

            assert(pack@.subrange(0, config.rares as int) =~= rares_pack);
            assert forall|i: int| 0 <= i < config.rares implies #[trigger] pack@[i] == rares_pack[i] by {
                assert(pack@.subrange(0, config.rares as int)[i] == pack@[i]);
            }
            lemma_cards_in_push(packs@, pack);
            assert(cards_in(packs@.push(pack)).to_multiset() =~= cards_in(packs@).to_multiset().add(pack@.to_multiset()));
            assert(after_uncommons.all_cards().to_multiset().add(uncommons_pack.to_multiset())
                == after_rares.all_cards().to_multiset().add(rares_pack.to_multiset()));
            assert(pool.all_cards().to_multiset().add(pack@.to_multiset())
                == after_uncommons.all_cards().to_multiset().add(uncommons_pack.to_multiset()));
            assert(after_rares.all_cards().to_multiset().add(cards_in(packs@).to_multiset()).add(
                rares_pack.to_multiset()) == start.all_cards().to_multiset());
            assert forall|v: Card| #[trigger] pool.all_cards().to_multiset().add(cards_in(packs@.push(pack)).to_multiset()).count(v)
                == start.all_cards().to_multiset().count(v) by {
                assert(after_uncommons.all_cards().to_multiset().add(uncommons_pack.to_multiset()).count(v)
                    == after_rares.all_cards().to_multiset().add(rares_pack.to_multiset()).count(v));
                assert(pool.all_cards().to_multiset().add(pack@.to_multiset()).count(v)
                    == after_uncommons.all_cards().to_multiset().add(uncommons_pack.to_multiset()).count(v));
                assert(after_rares.all_cards().to_multiset().add(cards_in(packs@).to_multiset()).add(
                    rares_pack.to_multiset()).count(v) == start.all_cards().to_multiset().count(v));
                assert(cards_in(packs@.push(pack)).to_multiset().count(v) == cards_in(packs@).to_multiset().count(v) + pack@.to_multiset().count(v));
            }
            assert(pool.all_cards().to_multiset().add(cards_in(packs@.push(pack)).to_multiset())
                =~= start.all_cards().to_multiset());
            assert(k * slot_count(*config) + slot_count(*config) == (k + 1) * slot_count(*config)) by (nonlinear_arith);
            if by_rarity {
                assert forall|q: int, j: int| 0 <= q < packs@.push(pack).len() && 0 <= j < packs@.push(pack)[q]@.len()
                    implies {
                        let r = (#[trigger] packs@.push(pack)[q]@[j]).rarity_view();
                        &&& j < config.rares ==> r == Rarity::Mythic || r == Rarity::Rare
                        &&& config.rares <= j < config.rares + config.uncommons ==> r == Rarity::Uncommon
                        &&& config.rares + config.uncommons <= j ==> r == Rarity::Common
                    } by {
                    if q == packs@.len() {
                        if j < config.rares {
                            assert(rares_pack[j].rarity_view() == Rarity::Mythic || rares_pack[j].rarity_view() == Rarity::Rare);
                        } else if j < config.rares + config.uncommons {
                            assert(pack@.subrange(0, uncommons_pack.len() as int)[j] == pack@[j]);
                            assert(uncommons_pack[j].rarity_view() == Rarity::Uncommon);
                        }
                    }
                }
            }
            if plain {
                assert forall|i: int| 0 <= i < pack@.len() implies #[trigger] pack@[i].rarity_view() != Rarity::Mythic by {
                    if i < config.rares {
                        assert(rares_pack[i].rarity_view() != Rarity::Mythic);
                    } else if i < config.rares + config.uncommons {
                        assert(pack@.subrange(0, rares_pack.len() + config.uncommons)[i] == pack@[i]);
                    }
                }
            }
        }
        packs.push(pack);
        k = k + 1;
    }
    proof {
        vstd::seq_lib::to_multiset_len(pool.all_cards());
        vstd::seq_lib::to_multiset_len(cards_in(packs@));
        vstd::seq_lib::to_multiset_len(start.all_cards());
        vstd::seq_lib::to_multiset_len(pool0.all_cards());
        assert(pool0.all_cards().len() >= total * slot_count(*config));
    }
    Ok(packs)
}

/// Appends `n` cards taken for slots of rarity `wanted` to `pack`.
fn fill_slots(pool: &mut DraftPool, pack: &mut Pack, wanted: Rarity, n: usize, allow_fallback: bool) -> (r: Res<()>)
    requires
        old(pool).wf(),
        pooled(wanted),
    ensures
        final(pool).wf(),
        r is Ok ==> {
            &&& final(pack)@.len() == old(pack)@.len() + n
            &&& final(pack)@.subrange(0, old(pack)@.len() as int) == old(pack)@
            &&& final(pool).all_cards().to_multiset().add(final(pack)@.to_multiset())
                == old(pool).all_cards().to_multiset().add(old(pack)@.to_multiset())
            &&& final(pool).all_cards().len() == old(pool).all_cards().len() - n
        },
        old(pool).bucket(wanted).len() >= n ==> {
            &&& r is Ok
            &&& forall|i: int| old(pack)@.len() <= i < final(pack)@.len() ==> #[trigger] final(pack)@[i].rarity_view() == wanted
            &&& final(pool).bucket(wanted).len() == old(pool).bucket(wanted).len() - n
            &&& forall|o: Rarity| o != wanted ==> #[trigger] final(pool).bucket(o) == old(pool).bucket(o)
        },
        allow_fallback && old(pool).all_cards().len() >= n ==> r is Ok,
{
    broadcast use vstd::seq_lib::group_to_multiset_ensures, vstd::multiset::group_multiset_axioms;

    let ghost pool0 = *pool;
    let ghost pack0 = pack@;
    let mut j: usize = 0;
    while j < n
        invariant
            pool.wf(),
            pooled(wanted),
            pool0 == *old(pool),
            pack0 == old(pack)@,
            j <= n,
            pack@.len() == pack0.len() + j,
            pack@.subrange(0, pack0.len() as int) == pack0,
            pool.all_cards().to_multiset().add(pack@.to_multiset()) == pool0.all_cards().to_multiset().add(pack0.to_multiset()),
            pool.all_cards().len() == pool0.all_cards().len() - j,
            pool0.bucket(wanted).len() >= n ==> {
                &&& forall|i: int| pack0.len() <= i < pack@.len() ==> #[trigger] pack@[i].rarity_view() == wanted
                &&& pool.bucket(wanted).len() == pool0.bucket(wanted).len() - j
                &&& forall|o: Rarity| o != wanted ==> #[trigger] pool.bucket(o) == pool0.bucket(o)
            },
        decreases n - j,
    {
        let ghost before = *pool;
        proof {
            before.lemma_stocked_order(wanted);
        }
        match pool.take(wanted, allow_fallback) {
            Ok(card) => {
                proof {
                    let s = before.source_for(wanted, allow_fallback)->Some_0;
                    before.lemma_first_stocked_is_stocked(fallback_order(wanted));
                    lemma_took_one(before, *pool, s, card);
                    assert(before.bucket(s).contains(card));
                    before.lemma_bucket_rarity(s, before.bucket(s).len() - 1);
                }
                let ghost prev = pack@;
                pack.push(card);
                proof {
                    assert(pack@ == prev.push(card));
                    vstd::seq_lib::to_multiset_build(prev, card);
                    assert(pack@.subrange(0, pack0.len() as int) =~= pack0);
                }
            },
            Err(e) => {
                return Err(e);
            },
        }
        j = j + 1;
    }
    Ok(())
}

/// Whether every card of `packs` is one of `pool`'s cards.
pub open spec fn drawn_from(packs: Seq<Pack>, pool: DraftPool) -> bool {
    forall|p: int, j: int|
        0 <= p < packs.len() && 0 <= j < packs[p]@.len() ==> pool.all_cards().contains(
            #[trigger] packs[p]@[j],
        )
}

/// Whether a slot of rarity `r` can be filled from `pool`.
pub open spec fn rollable(pool: DraftPool, r: Rarity, allow_fallback: bool) -> bool {
    pool.source_for(r, allow_fallback) is Some
}

/// In the mode with replacement: every kind of slot that may be asked for
/// can be filled.
pub open spec fn draft_stocked(pool: DraftPool, config: DraftConfig) -> bool {
    let fb = config.allow_fallback;
    &&& config.rares > 0 && config.mythic_rate < RATE_SCALE ==> rollable(pool, Rarity::Rare, fb)
    &&& config.rares > 0 && config.mythic_rate > 0 ==> rollable(pool, Rarity::Mythic, fb)
    &&& config.uncommons > 0 ==> rollable(pool, Rarity::Uncommon, fb)
    &&& config.commons > 0 ==> rollable(pool, Rarity::Common, fb)
}

/// In the mode with replacement: a kind of slot that is surely asked for
/// cannot be filled.
pub open spec fn draft_short(pool: DraftPool, config: DraftConfig) -> bool {
    let fb = config.allow_fallback;
    ||| config.uncommons > 0 && !rollable(pool, Rarity::Uncommon, fb)
    ||| config.commons > 0 && !rollable(pool, Rarity::Common, fb)
    ||| config.rares > 0 && config.mythic_rate == 0 && !rollable(pool, Rarity::Rare, fb)
    ||| config.rares > 0 && config.mythic_rate >= RATE_SCALE && !rollable(pool, Rarity::Mythic, fb)
    ||| config.rares > 0 && !rollable(pool, Rarity::Rare, fb) && !rollable(pool, Rarity::Mythic, fb)
}

proof fn lemma_bucket_in_all(pool: DraftPool, s: Rarity, c: Card)
    requires
        pooled(s),
        pool.bucket(s).contains(c),
    ensures
        pool.all_cards().contains(c),
{
    let i = choose|i: int| 0 <= i < pool.bucket(s).len() && pool.bucket(s)[i] == c;
    let m = pool.bucket(Rarity::Mythic).len();
    let r = pool.bucket(Rarity::Rare).len();
    let u = pool.bucket(Rarity::Uncommon).len();
    let at = match s {
        Rarity::Mythic => i,
        Rarity::Rare => m + i,
        Rarity::Uncommon => m + r + i,
        _ => m + r + u + i,
    };
    assert(pool.all_cards()[at] == c);
}

/// Cube mode without rarities: all cards are shuffled together and dealt
/// `cards_per_pack` to a pack.
fn make_cube_packs_no_rarities(players: usize, config: &DraftConfig, source: DraftPool) -> (r: Res<
    Vec<Pack>,
>)
    requires
        source.wf(),
        pack_count(players, *config) <= usize::MAX,
    ensures
        r matches Ok(packs) ==> {
            &&& packs@.len() == pack_count(players, *config)
            &&& packs_of_len(packs@, config.cards_per_pack as int)
            &&& cards_in(packs@).to_multiset().subset_of(source.all_cards().to_multiset())
        },
        r is Ok <==> source.all_cards().len() >= pack_count(players, *config)
            * config.cards_per_pack,
{
    broadcast use vstd::seq_lib::group_to_multiset_ensures, vstd::multiset::group_multiset_axioms;

    let mut pool = source;
    let mut cards: Vec<Card> = Vec::new();
    cards.append(&mut pool.mythics);
    cards.append(&mut pool.rares);
    cards.append(&mut pool.uncommons);
    cards.append(&mut pool.commons);
    assert(cards@ =~= source.all_cards());
    shuffle_cards(&mut cards);
    let ghost start = cards@;
    proof {
        vstd::seq_lib::to_multiset_len(cards@);
        vstd::seq_lib::to_multiset_len(source.all_cards());
    }
    let total = players * config.rounds;
    let cpp = config.cards_per_pack;
    let mut packs: Vec<Pack> = Vec::new();
    let mut k: usize = 0;
    while k < total
        invariant
            total == pack_count(players, *config),
            cpp == config.cards_per_pack,
            k <= total,
            packs@.len() == k,
            packs_of_len(packs@, cpp as int),
            cards@.to_multiset().add(cards_in(packs@).to_multiset()) == start.to_multiset(),
            start.to_multiset() == source.all_cards().to_multiset(),
            start.len() == source.all_cards().len(),
            cards@.len() + k * cpp == start.len(),
        decreases total - k,
    {
        let mut pack: Pack = Vec::new();
        proof {
            vstd::seq_lib::to_multiset_len(pack@);
            vstd::multiset::lemma_multiset_empty_len(pack@.to_multiset());
            assert(cards@.to_multiset().add(cards_in(packs@).to_multiset()).add(pack@.to_multiset())
                =~= cards@.to_multiset().add(cards_in(packs@).to_multiset()));
        }
        let mut j: usize = 0;
        while j < cpp
            invariant
                total == pack_count(players, *config),
                cpp == config.cards_per_pack,
                k < total,
                j <= cpp,
                pack@.len() == j,
                cards@.to_multiset().add(cards_in(packs@).to_multiset()).add(pack@.to_multiset())
                    == start.to_multiset(),
                start.to_multiset() == source.all_cards().to_multiset(),
                start.len() == source.all_cards().len(),
                cards@.len() + k * cpp + j == start.len(),
            decreases cpp - j,
        {
            let ghost deck = cards@;
            if let Some(card) = cards.pop() {
                let ghost prev = pack@;
                pack.push(card);
                proof {
                    assert(pack@ == prev.push(card));
                    vstd::seq_lib::to_multiset_build(prev, card);
                    assert(cards@.push(card) =~= deck);
                    vstd::seq_lib::to_multiset_build(cards@, card);
                }
            } else {
                proof {
                    assert(k * cpp + cpp <= total * cpp) by (nonlinear_arith)
                        requires
                            k < total,
                    ;
                }
                return err("Insufficient cards in pool.");
            }
            j = j + 1;
        }
        proof {
            broadcast use vstd::seq_lib::lemma_multiset_commutative;

            lemma_cards_in_push(packs@, pack);
            assert(k * cpp + cpp == (k + 1) * cpp) by (nonlinear_arith);
            assert forall|v: Card| #[trigger] cards@.to_multiset().add(cards_in(packs@.push(pack)).to_multiset()).count(v)
                == start.to_multiset().count(v) by {
                assert(cards@.to_multiset().add(cards_in(packs@).to_multiset()).add(pack@.to_multiset()).count(v)
                    == start.to_multiset().count(v));
                assert(cards_in(packs@.push(pack)).to_multiset().count(v) == cards_in(packs@).to_multiset().count(v) + pack@.to_multiset().count(v));
            }
            assert(cards@.to_multiset().add(cards_in(packs@.push(pack)).to_multiset()) =~= start.to_multiset());
        }
        packs.push(pack);
        k = k + 1;
    }
    Ok(packs)
}

/// Appends `n` cards rolled for slots of rarity `wanted` to `pack`.
fn roll_slots(pool: &DraftPool, pack: &mut Pack, wanted: Rarity, n: usize, allow_fallback: bool) -> (r: Res<()>)
    requires
        pool.wf(),
        pooled(wanted),
    ensures
        r is Ok <==> n == 0 || rollable(*pool, wanted, allow_fallback),
        r is Ok ==> {
            &&& final(pack)@.len() == old(pack)@.len() + n
            &&& final(pack)@.subrange(0, old(pack)@.len() as int) == old(pack)@
            &&& forall|i: int| old(pack)@.len() <= i < final(pack)@.len() ==> pool.all_cards().contains(#[trigger] final(pack)@[i])
            &&& forall|i: int| old(pack)@.len() <= i < final(pack)@.len() ==> drawn_for(*pool, wanted, allow_fallback, #[trigger] final(pack)@[i])
        },
{
    let ghost pack0 = pack@;
    let mut j: usize = 0;
    while j < n
        invariant
            pooled(wanted),
            pack0 == old(pack)@,
            j <= n,
            j > 0 ==> rollable(*pool, wanted, allow_fallback),
            pack@.len() == pack0.len() + j,
            pack@.subrange(0, pack0.len() as int) == pack0,
            forall|i: int| pack0.len() <= i < pack@.len() ==> pool.all_cards().contains(#[trigger] pack@[i]),
            forall|i: int| pack0.len() <= i < pack@.len() ==> drawn_for(*pool, wanted, allow_fallback, #[trigger] pack@[i]),
        decreases n - j,
    {
        proof {
            pool.lemma_stocked_order(wanted);
        }
        match pool.roll(wanted, allow_fallback) {
            Ok(card) => {
                proof {
                    let s = pool.source_for(wanted, allow_fallback)->Some_0;
                    lemma_bucket_in_all(*pool, s, card);
                }
                let ghost prev = pack@;
                pack.push(card);
                proof {
                    assert(pack@ == prev.push(card));
                    assert(pack@.subrange(0, pack0.len() as int) =~= pack0);
                }
            },
            Err(e) => {
                return Err(e);
            },
        }
        j = j + 1;
    }
    Ok(())
}

/// Booster mode: every slot is a random card of the pool, which stays whole;
/// a card can appear any number of times.
fn make_draft_packs(players: usize, config: &DraftConfig, pool: DraftPool) -> (r: Res<Vec<Pack>>)
    requires
        pool.wf(),
        pack_count(players, *config) <= usize::MAX,
    ensures
        r matches Ok(packs) ==> {
            &&& packs@.len() == pack_count(players, *config)
            &&& packs_of_len(packs@, slot_count(*config))
            &&& drawn_from(packs@, pool)
            &&& slots_from_sources(packs@, pool, *config)
        },
        pack_count(players, *config) == 0 || draft_stocked(pool, *config) ==> r is Ok,
        pack_count(players, *config) > 0 && draft_short(pool, *config) ==> r is Err,
{
    let total = players * config.rounds;
    let mut packs: Vec<Pack> = Vec::new();
    let mut k: usize = 0;
    while k < total
        invariant
            pool.wf(),
            total == pack_count(players, *config),
            k <= total,
            packs@.len() == k,
            packs_of_len(packs@, slot_count(*config)),
            drawn_from(packs@, pool),
            slots_from_sources(packs@, pool, *config),
            k > 0 ==> !draft_short(pool, *config),
        decreases total - k,
    {
        let mut pack: Pack = Vec::new();
        let mut j: usize = 0;
        while j < config.rares
            invariant
                pool.wf(),
                total == pack_count(players, *config),
                k < total,
                j <= config.rares,
                pack@.len() == j,
                forall|i: int| 0 <= i < pack@.len() ==> pool.all_cards().contains(#[trigger] pack@[i]),
                forall|i: int| 0 <= i < pack@.len() ==> drawn_for(pool, Rarity::Mythic, config.allow_fallback, #[trigger] pack@[i])
                    || drawn_for(pool, Rarity::Rare, config.allow_fallback, pack@[i]),
                k == 0 && draft_stocked(pool, *config) ==> !draft_short(pool, *config),
                k > 0 ==> !draft_short(pool, *config),
                j > 0 ==> {
                    &&& rollable(pool, Rarity::Rare, config.allow_fallback) || rollable(pool, Rarity::Mythic, config.allow_fallback)
                    &&& config.mythic_rate == 0 ==> rollable(pool, Rarity::Rare, config.allow_fallback)
                    &&& config.mythic_rate >= RATE_SCALE ==> rollable(pool, Rarity::Mythic, config.allow_fallback)
                },
            decreases config.rares - j,
        {
            let upgrade = upgrade_rare_slot(config);
            let wanted = if upgrade {
                Rarity::Mythic
            } else {
                Rarity::Rare
            };
            proof {
                pool.lemma_stocked_order(wanted);
            }
            match pool.roll(wanted, config.allow_fallback) {
                Ok(card) => {
                    proof {
                        let s = pool.source_for(wanted, config.allow_fallback)->Some_0;
                        lemma_bucket_in_all(pool, s, card);
                    }
                    pack.push(card);
                },
                Err(e) => {
                    return Err(e);
                },
            }
            j = j + 1;
        }
        let ghost rares_pack = pack@;
        match roll_slots(&pool, &mut pack, Rarity::Uncommon, config.uncommons, config.allow_fallback) {
            Ok(()) => {},
            Err(e) => {
                return Err(e);
            },
        }
        let ghost uncommons_pack = pack@;
        match roll_slots(&pool, &mut pack, Rarity::Common, config.commons, config.allow_fallback) {
            Ok(()) => {},
            Err(e) => {
                return Err(e);
            },
        }
        proof {
            assert forall|i: int| 0 <= i < pack@.len() implies {
                let c = #[trigger] pack@[i];
                let fb = config.allow_fallback;
                &&& i < config.rares ==> drawn_for(pool, Rarity::Mythic, fb, c) || drawn_for(pool, Rarity::Rare, fb, c)
                &&& config.rares <= i < config.rares + config.uncommons ==> drawn_for(pool, Rarity::Uncommon, fb, c)
                &&& config.rares + config.uncommons <= i ==> drawn_for(pool, Rarity::Common, fb, c)
            } by {
                if i < uncommons_pack.len() {
                    assert(pack@.subrange(0, uncommons_pack.len() as int)[i] == pack@[i]);
                    if i < rares_pack.len() {
                        assert(uncommons_pack.subrange(0, rares_pack.len() as int)[i] == uncommons_pack[i]);
                    }
                }
            }
            assert forall|i: int| 0 <= i < pack@.len() implies pool.all_cards().contains(#[trigger] pack@[i]) by {
                if i < uncommons_pack.len() {
                    assert(pack@.subrange(0, uncommons_pack.len() as int)[i] == pack@[i]);
                    assert(uncommons_pack[i] == pack@[i]);
                    if i < rares_pack.len() {
                        assert(uncommons_pack.subrange(0, rares_pack.len() as int)[i] == uncommons_pack[i]);
                        assert(rares_pack[i] == pack@[i]);
                    }
                }
            }
        }
        packs.push(pack);
        k = k + 1;
    }
    Ok(packs)
}

/// What the packs built from `pool` for `players` players satisfy: their
/// number and size; in the modes without replacement, no card more often
/// than the pool holds it; with replacement, only cards of the pool; by
/// rarity, slots in order (from their own buckets when those suffice, else
/// from the buckets that falling back names); and the two mythic rates at
/// the ends of the scale.
pub open spec fn packs_fit(players: usize, config: DraftConfig, pool: DraftPool, packs: Seq<Pack>) -> bool {
    let n = pack_count(players, config);
    &&& packs.len() == n
    &&& config.unique_cards && !config.use_rarities ==> packs_of_len(packs, config.cards_per_pack as int)
    &&& !(config.unique_cards && !config.use_rarities) ==> packs_of_len(packs, slot_count(config))
    &&& config.unique_cards ==> cards_in(packs).to_multiset().subset_of(pool.all_cards().to_multiset())
    &&& !config.unique_cards ==> drawn_from(packs, pool) && slots_from_sources(packs, pool, config)
    &&& config.unique_cards && config.use_rarities && stocked_by_rarity(pool, config, n) ==> slots_by_rarity(packs, config)
    &&& config.unique_cards && config.use_rarities && config.mythic_rate >= RATE_SCALE
        && pool.bucket(Rarity::Mythic).len() >= n * config.rares && stocked_by_rarity(pool, config, n)
        ==> rare_slots_mythic(packs, config)
    &&& config.unique_cards && config.use_rarities && config.mythic_rate == 0
        && pool.bucket(Rarity::Rare).len() >= n * config.rares && stocked_by_rarity(pool, config, n)
        ==> none_of_rarity(packs, Rarity::Mythic)
}

/// Where building packs must succeed, whatever the random draws.
pub open spec fn packs_owed(players: usize, config: DraftConfig, pool: DraftPool) -> bool {
    let n = pack_count(players, config);
    if config.unique_cards && !config.use_rarities {
        pool.all_cards().len() >= n * config.cards_per_pack
    } else if config.unique_cards {
        stocked_by_rarity(pool, config, n) || (config.allow_fallback && pool.all_cards().len() >= n
            * slot_count(config))
    } else {
        n == 0 || draft_stocked(pool, config)
    }
}

/// Where building packs must fail, whatever the random draws.
pub open spec fn packs_refused(players: usize, config: DraftConfig, pool: DraftPool) -> bool {
    let n = pack_count(players, config);
    if config.unique_cards && !config.use_rarities {
        pool.all_cards().len() < n * config.cards_per_pack
    } else if config.unique_cards {
        pool.all_cards().len() < n * slot_count(config)
    } else {
        n > 0 && draft_short(pool, config)
    }
}

/// Pools with the same cards in every bucket build packs alike.
pub proof fn lemma_same_stock_packs(a: DraftPool, b: DraftPool, players: usize, config: DraftConfig, packs: Seq<Pack>)
    requires
        a.same_stock(b),
    ensures
        packs_fit(players, config, a, packs) == packs_fit(players, config, b, packs),
        packs_owed(players, config, a) == packs_owed(players, config, b),
        packs_refused(players, config, a) == packs_refused(players, config, b),
{
    assert(a.bucket(Rarity::Mythic) == b.bucket(Rarity::Mythic));
    assert(a.bucket(Rarity::Rare) == b.bucket(Rarity::Rare));
    assert(a.bucket(Rarity::Uncommon) == b.bucket(Rarity::Uncommon));
    assert(a.bucket(Rarity::Common) == b.bucket(Rarity::Common));
    assert(a.all_cards() == b.all_cards());
    assert forall|r: Rarity, fb: bool| #[trigger] a.source_for(r, fb) == b.source_for(r, fb) by {
        a.lemma_same_stock_same_choice(b, fallback_order(r));
        assert(a.bucket(r) == b.bucket(r));
    }
    assert forall|r: Rarity, fb: bool, c: Card| #[trigger] drawn_for(a, r, fb, c) == drawn_for(b, r, fb, c) by {
        assert(a.source_for(r, fb) == b.source_for(r, fb));
        if a.source_for(r, fb) is Some {
            assert(a.bucket(a.source_for(r, fb)->Some_0) == b.bucket(a.source_for(r, fb)->Some_0));
        }
    }
}

/// Builds `players * config.rounds` packs from `pool`, in the mode that the
/// configuration selects: without replacement and by rarity, without
/// replacement at random, or with replacement by rarity.
pub fn make_packs(players: usize, config: &DraftConfig, pool: DraftPool) -> (r: Res<Vec<Pack>>)
    requires
        pool.wf(),
        pack_count(players, *config) <= usize::MAX,
    ensures
        r matches Ok(packs) ==> packs_fit(players, *config, pool, packs@),
        packs_owed(players, *config, pool) ==> r is Ok,
        packs_refused(players, *config, pool) ==> r is Err,
{
    if config.unique_cards {
        if config.use_rarities {
            make_cube_packs_rarities(players, config, pool)
        } else {
            make_cube_packs_no_rarities(players, config, pool)
        }
    } else {
        make_draft_packs(players, config, pool)
    }
}

} // verus!
