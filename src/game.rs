use std::collections::VecDeque;
use vstd::prelude::*;

use crate::cards::Card;
use crate::packs::{err, Pack, Res};

verus! {

/// A player's seat: an opaque 128-bit identifier.
pub type Seat = u128;

/// The way packs are passed around the table.
#[derive(Clone, Copy, Debug, PartialEq, Eq, Structural)]
pub enum PassDirection {
    Left,
    Right,
}

impl PassDirection {
    pub open spec fn flipped(self) -> PassDirection {
        match self {
            PassDirection::Left => PassDirection::Right,
            PassDirection::Right => PassDirection::Left,
        }
    }

    pub fn reverse(self) -> (r: PassDirection)
        ensures
            r == self.flipped(),
    {
        match self {
            PassDirection::Left => PassDirection::Right,
            PassDirection::Right => PassDirection::Left,
        }
    }
}

/// Packs that just became visible, each with the seat that sees it.
pub type NewPacks = Vec<(Seat, Pack)>;

/// Mathematical model of a draft.
#[verifier::ext_equal]
pub struct DraftView {
    pub players: Seq<Seat>,
    /// Cards picked so far, by seat index.
    pub pools: Seq<Seq<Card>>,
    /// Packs waiting for each seat, front first, by seat index.
    pub queues: Seq<Seq<Seq<Card>>>,
    pub direction: PassDirection,
    pub rounds: nat,
    pub current_round: nat,
    /// Packs not opened yet; the last is opened first.
    pub generated: Seq<Seq<Card>>,
}

/// A draft as it is made: the seating, empty pools and queues, passing
/// right before the first round flips it, and the packs to open.
pub open spec fn fresh_draft(players: Seq<Seat>, rounds: nat, packs: Seq<Pack>) -> DraftView {
    DraftView {
        players,
        pools: Seq::new(players.len(), |i: int| Seq::<Card>::empty()),
        queues: Seq::new(players.len(), |i: int| Seq::<Seq<Card>>::empty()),
        direction: PassDirection::Right,
        rounds,
        current_round: 0,
        generated: packs.map_values(|p: Pack| p@),
    }
}

/// The view of a list of newly visible packs.
pub open spec fn packs_view(v: Seq<(Seat, Pack)>) -> Seq<(Seat, Seq<Card>)> {
    v.map_values(|e: (Seat, Pack)| (e.0, e.1@))
}

/// Total number of cards in a sequence of packs.
pub open spec fn card_total(packs: Seq<Seq<Card>>) -> nat
    decreases packs.len(),
{
    if packs.len() == 0 {
        0
    } else {
        card_total(packs.drop_last()) + packs.last().len()
    }
}

/// Total number of cards in all queues.
pub open spec fn queued_total(queues: Seq<Seq<Seq<Card>>>) -> nat
    decreases queues.len(),
{
    if queues.len() == 0 {
        0
    } else {
        queued_total(queues.drop_last()) + card_total(queues.last())
    }
}

impl DraftView {
    pub open spec fn wf(self) -> bool {
        &&& self.players.no_duplicates()
        &&& self.current_round == 0 ==> self.round_finished()
        &&& self.pools.len() == self.players.len()
        &&& self.queues.len() == self.players.len()
        &&& self.current_round <= self.rounds
        &&& self.generated.len() == (self.rounds - self.current_round) * self.players.len()
    }

    /// Index of `seat` in the seating.
    pub open spec fn index_of(self, seat: Seat) -> Option<int> {
        if self.players.contains(seat) {
            Some(choose|i: int| 0 <= i < self.players.len() && self.players[i] == seat)
        } else {
            None
        }
    }

    /// Index of the seat that the seat at index `i` passes to.
    pub open spec fn next_index(self, i: int) -> int {
        match self.direction {
            PassDirection::Left => if i == 0 {
                self.players.len() - 1
            } else {
                i - 1
            },
            PassDirection::Right => if i == self.players.len() - 1 {
                0
            } else {
                i + 1
            },
        }
    }

    /// The seat that `seat` passes to, if it is seated.
    pub open spec fn next_player(self, seat: Seat) -> Option<Seat> {
        match self.index_of(seat) {
            Some(i) => Some(self.players[self.next_index(i)]),
            None => None,
        }
    }

    /// The same draft with the pass direction reversed.
    pub open spec fn reversed(self) -> DraftView {
        DraftView { direction: self.direction.flipped(), ..self }
    }

    pub open spec fn round_finished(self) -> bool {
        forall|i: int| 0 <= i < self.queues.len() ==> #[trigger] self.queues[i].len() == 0
    }

    pub open spec fn complete(self) -> bool {
        self.current_round == self.rounds && self.round_finished()
    }

    /// The pack in front of `seat`, if any.
    pub open spec fn current_pack(self, seat: Seat) -> Option<Seq<Card>> {
        match self.index_of(seat) {
            Some(i) => if self.queues[i].len() > 0 {
                Some(self.queues[i][0])
            } else {
                None
            },
            None => None,
        }
    }

    /// The next round: the direction flips and seat `i` gets the pack that
    /// is `i`-th from the end of the unopened ones.
    pub open spec fn after_start_round(self) -> DraftView {
        let n = self.players.len();
        let g = self.generated.len();
        DraftView {
            current_round: self.current_round + 1,
            direction: self.direction.flipped(),
            queues: Seq::new(n, |i: int| self.queues[i].push(self.generated[g - 1 - i])),
            generated: self.generated.subrange(0, g - n),
            ..self
        }
    }

    /// What starting the next round shows: each seat with its front pack.
    pub open spec fn opened(self) -> Seq<(Seat, Seq<Card>)> {
        let next = self.after_start_round();
        Seq::new(self.players.len(), |i: int| (self.players[i], next.queues[i][0]))
    }

    /// Whether `seat` can pick the card at `index` of its front pack.
    pub open spec fn can_pick(self, seat: Seat, index: int) -> bool {
        match self.index_of(seat) {
            Some(i) => self.queues[i].len() > 0 && 0 <= index < self.queues[i][0].len(),
            None => false,
        }
    }

    /// The card that a valid pick takes.
    pub open spec fn picked_card(self, seat: Seat, index: int) -> Card {
        self.queues[self.index_of(seat)->Some_0][0][index]
    }

    /// The state right after a valid pick, before a new round may start:
    /// the card joins the picker's pool, the rest of the pack goes to the
    /// next seat if anything is left.
    pub open spec fn after_pass(self, seat: Seat, index: int) -> DraftView {
        let i = self.index_of(seat)->Some_0;
        let front = self.queues[i][0];
        let residual = front.remove(index);
        let nx = self.next_index(i);
        let q1 = self.queues.update(i, self.queues[i].drop_first());
        let q2 = if residual.len() > 0 {
            q1.update(nx, q1[nx].push(residual))
        } else {
            q1
        };
        DraftView { pools: self.pools.update(i, self.pools[i].push(front[index])), queues: q2, ..self }
    }

    /// The packs that a valid pick makes visible, before a new round may start.
    pub open spec fn passed(self, seat: Seat, index: int) -> Seq<(Seat, Seq<Card>)> {
        let i = self.index_of(seat)->Some_0;
        let nx = self.next_index(i);
        let residual = self.queues[i][0].remove(index);
        let mid = self.after_pass(seat, index);
        let to_next = if residual.len() > 0 && mid.queues[nx].len() == 1 {
            seq![(self.players[nx], mid.queues[nx][0])]
        } else {
            Seq::empty()
        };
        if nx != i && mid.queues[i].len() > 0 {
            to_next.push((seat, mid.queues[i][0]))
        } else {
            to_next
        }
    }

    /// Whether a valid pick ends the round and starts the next one.
    pub open spec fn pick_starts_round(self, seat: Seat, index: int) -> bool {
        let mid = self.after_pass(seat, index);
        self.passed(seat, index).len() == 0 && mid.round_finished() && !mid.complete()
    }

    /// The state after a valid pick.
    pub open spec fn after_pick(self, seat: Seat, index: int) -> DraftView {
        if self.pick_starts_round(seat, index) {
            self.after_pass(seat, index).after_start_round()
        } else {
            self.after_pass(seat, index)
        }
    }

    /// The packs shown by a valid pick.
    pub open spec fn shown(self, seat: Seat, index: int) -> Seq<(Seat, Seq<Card>)> {
        if self.pick_starts_round(seat, index) {
            self.after_pass(seat, index).opened()
        } else {
            self.passed(seat, index)
        }
    }
}

/// A copy of a pack, card for card.
pub fn clone_pack(pack: &Pack) -> (r: Pack)
    ensures
        r@ == pack@,
{
    let mut out: Pack = Vec::new();
    let mut i: usize = 0;
    while i < pack.len()
        invariant
            i <= pack@.len(),
            out@ == pack@.subrange(0, i as int),
        decreases pack@.len() - i,
    {
        out.push(pack[i].duplicate());
        i = i + 1;
        assert(out@ =~= pack@.subrange(0, i as int));
    }
    assert(pack@.subrange(0, pack@.len() as int) =~= pack@);
    out
}

/// State of one draft: the seating, every seat's pool and queue of packs,
/// the pass direction, the round, and the packs not opened yet.
pub struct Draft {
    players: Vec<Seat>,
    pools: Vec<Vec<Card>>,
    queues: Vec<VecDeque<Pack>>,
    direction: PassDirection,
    rounds: usize,
    current_round: usize,
    generated_packs: Vec<Pack>,
}

impl View for Draft {
    type V = DraftView;

    closed spec fn view(&self) -> DraftView {
        DraftView {
            players: self.players@,
            pools: self.pools@.map_values(|p: Vec<Card>| p@),
            queues: self.queues@.map_values(|q: VecDeque<Pack>| q@.map_values(|p: Pack| p@)),
            direction: self.direction,
            rounds: self.rounds as nat,
            current_round: self.current_round as nat,
            generated: self.generated_packs@.map_values(|p: Pack| p@),
        }
    }
}

impl Draft {
    pub open spec fn wf(&self) -> bool {
        self@.wf()
    }

    /// A draft among `players` over `rounds` rounds, opening `packs` from the
    /// last one down.
    pub fn new(players: Vec<Seat>, rounds: usize, packs: Vec<Pack>) -> (r: Draft)
        requires
            players@.no_duplicates(),
            packs@.len() == players@.len() * rounds,
        ensures
            r.wf(),
            r@ == fresh_draft(players@, rounds as nat, packs@),
    {
        let mut pools: Vec<Vec<Card>> = Vec::new();
        let mut queues: Vec<VecDeque<Pack>> = Vec::new();
        let mut i: usize = 0;
        while i < players.len()
            invariant
                i <= players@.len(),
                pools@.len() == i,
                queues@.len() == i,
                forall|j: int| 0 <= j < i ==> (#[trigger] pools@[j])@.len() == 0,
                forall|j: int| 0 <= j < i ==> (#[trigger] queues@[j])@.len() == 0,
            decreases players@.len() - i,
        {
            pools.push(Vec::new());
            queues.push(VecDeque::new());
            i = i + 1;
        }
        let ghost n = players@.len();
        let r = Draft {
            players,
            pools,
            queues,
            direction: PassDirection::Right,
            rounds,
            current_round: 0,
            generated_packs: packs,
        };
        assert forall|j: int| 0 <= j < r@.pools.len() implies #[trigger] r@.pools[j] == Seq::<Card>::empty() by {
            assert(r@.pools[j] =~= Seq::<Card>::empty());
        }
        assert forall|j: int| 0 <= j < r@.queues.len() implies #[trigger] r@.queues[j] == Seq::<Seq<Card>>::empty() by {
            assert(r@.queues[j] =~= Seq::<Seq<Card>>::empty());
        }
        assert(r@.pools =~= Seq::new(r@.players.len(), |i: int| Seq::<Card>::empty()));
        assert(r@.queues =~= Seq::new(r@.players.len(), |i: int| Seq::<Seq<Card>>::empty()));
        assert(r@ =~= fresh_draft(players@, rounds as nat, packs@));
        assert(r@.generated.len() == (r@.rounds - r@.current_round) * r@.players.len()) by {
            assert(packs@.len() == players@.len() * rounds);
            assert((rounds as int) * (r@.players.len() as int) == (r@.players.len() as int) * (rounds as int)) by (nonlinear_arith);
        }
        r
    }

    /// The current pass direction.
    pub fn direction(&self) -> (r: PassDirection)
        ensures
            r == self@.direction,
    {
        self.direction
    }

    /// Sets the pass direction, leaving the rest as it is.
    pub fn set_direction(&mut self, direction: PassDirection)
        ensures
            final(self)@ == (DraftView { direction, ..old(self)@ }),
            final(self).wf() == old(self).wf(),
    {
        self.direction = direction;
        assert(self@ =~= (DraftView { direction, ..old(self)@ }));
    }

    /// Index of `seat` in the seating.
    fn seat_index(&self, seat: Seat) -> (r: Option<usize>)
        requires
            self.wf(),
        ensures
            r matches Some(i) ==> self@.index_of(seat) == Some(i as int),
            r is None ==> self@.index_of(seat) is None,
    {
        let mut i: usize = 0;
        while i < self.players.len()
            invariant
                self.wf(),
                i <= self.players@.len(),
                forall|j: int| 0 <= j < i ==> self.players@[j] != seat,
            decreases self.players@.len() - i,
        {
            if self.players[i] == seat {
                proof {
                    assert(self.players@.contains(seat));
                    let k = choose|k: int| 0 <= k < self.players@.len() && self.players@[k] == seat;
                    assert(self.players@[k] == self.players@[i as int]);
                    assert(k == i);
                }
                return Some(i);
            }
            i = i + 1;
        }
        None
    }

    /// Index of the seat that the seat at index `i` passes to.
    fn next_index(&self, i: usize) -> (r: usize)
        requires
            i < self.players@.len(),
        ensures
            r == self@.next_index(i as int),
            r < self.players@.len(),
    {
        match self.direction {
            PassDirection::Left => if i == 0 {
                self.players.len() - 1
            } else {
                i - 1
            },
            PassDirection::Right => if i == self.players.len() - 1 {
                0
            } else {
                i + 1
            },
        }
    }

    /// The seat that `seat` passes to in the current direction; `None` for
    /// a seat that is not at the table. A lone seat passes to itself.
    pub fn next_player(&self, seat: Seat) -> (r: Option<Seat>)
        requires
            self.wf(),
        ensures
            r == self@.next_player(seat),
    {
        match self.seat_index(seat) {
            Some(i) => Some(self.players[self.next_index(i)]),
            None => None,
        }
    }

    /// Whether every seat's queue is empty.
    pub fn round_finished(&self) -> (r: bool)
        ensures
            r == self@.round_finished(),
    {
        let mut i: usize = 0;
        while i < self.queues.len()
            invariant
                i <= self.queues@.len(),
                forall|j: int| 0 <= j < i ==> (#[trigger] self.queues@[j])@.len() == 0,
            decreases self.queues@.len() - i,
        {
            if self.queues[i].len() > 0 {
                assert(self@.queues[i as int].len() > 0);
                return false;
            }
            i = i + 1;
        }
        assert forall|j: int| 0 <= j < self@.queues.len() implies #[trigger] self@.queues[j].len() == 0 by {
            assert(self.queues@[j]@.len() == 0);
        }
        true
    }

    /// Whether the last pick of the last round has been made.
    pub fn draft_complete(&self) -> (r: bool)
        ensures
            r == self@.complete(),
    {
        self.current_round == self.rounds && self.round_finished()
    }

    /// The packs not opened yet.
    pub fn generated_packs(&self) -> (r: &Vec<Pack>)
        ensures
            r@.map_values(|p: Pack| p@) == self@.generated,
    {
        &self.generated_packs
    }

    /// A copy of the pack in front of `seat`, if any.
    pub fn current_pack(&self, seat: Seat) -> (r: Option<Pack>)
        requires
            self.wf(),
        ensures
            match self@.current_pack(seat) {
                Some(p) => r matches Some(q) && q@ == p,
                None => r is None,
            },
    {
        match self.seat_index(seat) {
            Some(i) => if self.queues[i].len() > 0 {
                Some(clone_pack(&self.queues[i][0]))
            } else {
                None
            },
            None => None,
        }
    }

    /// The cards `seat` has picked, if it is at the table.
    pub fn drafted_cards(&self, seat: Seat) -> (r: Option<&Vec<Card>>)
        requires
            self.wf(),
        ensures
            match self@.index_of(seat) {
                Some(i) => r matches Some(v) && v@ == self@.pools[i],
                None => r is None,
            },
    {
        match self.seat_index(seat) {
            Some(i) => Some(&self.pools[i]),
            None => None,
        }
    }

    /// Every seat with a copy of its pool, in seating order.
    pub fn pools(&self) -> (r: Vec<(Seat, Vec<Card>)>)
        requires
            self.wf(),
        ensures
            r@.len() == self@.players.len(),
            forall|i: int| 0 <= i < r@.len() ==> (#[trigger] r@[i]).0 == self@.players[i] && r@[i].1@ == self@.pools[i],
    {
        let mut out: Vec<(Seat, Vec<Card>)> = Vec::new();
        let mut i: usize = 0;
        while i < self.players.len()
            invariant
                self.wf(),
                i <= self.players@.len(),
                out@.len() == i,
                forall|j: int| 0 <= j < i ==> (#[trigger] out@[j]).0 == self@.players[j] && out@[j].1@ == self@.pools[j],
            decreases self.players@.len() - i,
        {
            out.push((self.players[i], clone_pack(&self.pools[i])));
            i = i + 1;
        }
        out
    }

    /// Number of packs waiting for `seat`; zero for a seat not at the table.
    pub fn queue_size(&self, seat: Seat) -> (r: usize)
        requires
            self.wf(),
        ensures
            r == match self@.index_of(seat) {
                Some(i) => self@.queues[i].len(),
                None => 0,
            },
    {
        match self.seat_index(seat) {
            Some(i) => self.queues[i].len(),
            None => 0,
        }
    }

    /// Opens the next round: flips the direction and hands every seat, in
    /// seating order, the next unopened pack. Returns each seat with a copy
    /// of its new pack.
    fn start_round(&mut self) -> (r: NewPacks)
        requires
            old(self).wf(),
            old(self)@.round_finished(),
            old(self)@.current_round < old(self)@.rounds,
        ensures
            final(self).wf(),
            final(self)@ == old(self)@.after_start_round(),
            packs_view(r@) == old(self)@.opened(),
    {
        let ghost v0 = self@;
        let ghost q0 = self.queues@;
        let ghost g0 = self.generated_packs@;
        let n = self.players.len();
        proof {
            let a = (v0.rounds - v0.current_round) as int;
            assert(a * n >= n && a * n - n == (a - 1) * n) by (nonlinear_arith)
                requires
                    a >= 1,
                    n >= 0,
            ;
        }
        self.current_round = self.current_round + 1;
        self.direction = self.direction.reverse();
        let mut i: usize = 0;
        while i < n
            invariant
                n == self.players@.len(),
                n == v0.players.len(),
                g0.len() >= n,
                i <= n,
                self.players@ == v0.players,
                self.pools@ == old(self).pools@,
                self.queues@.len() == n,
                forall|j: int| 0 <= j < i ==> (#[trigger] self.queues@[j])@ == q0[j]@.push(g0[g0.len() - 1 - j]),
                forall|j: int| i <= j < n ==> #[trigger] self.queues@[j] == q0[j],
                self.generated_packs@ == g0.subrange(0, g0.len() - i),
                self.current_round == v0.current_round + 1,
                self.rounds == v0.rounds,
                self.direction == v0.direction.flipped(),
            decreases n - i,
        {
            let pack = self.generated_packs.pop().unwrap();
            self.queues[i].push_back(pack);
            i = i + 1;
            assert(self.generated_packs@ =~= g0.subrange(0, g0.len() - i));
        }
        proof {
            let next = v0.after_start_round();
            assert forall|j: int| 0 <= j < n implies #[trigger] self@.queues[j] == next.queues[j] by {
                assert(self.queues@[j]@.map_values(|p: Pack| p@) =~= q0[j]@.map_values(|p: Pack| p@).push(g0[g0.len() - 1 - j]@));
            }
            assert(self@.queues =~= next.queues);
            assert(self@.generated =~= next.generated);
            assert(self@.pools =~= next.pools);
            assert(self@ =~= next);
        }
        let mut out: NewPacks = Vec::new();
        let mut j: usize = 0;
        while j < n
            invariant
                n == self.players@.len(),
                n == self.queues@.len(),
                j <= n,
                self@ == v0.after_start_round(),
                forall|k: int| 0 <= k < n ==> (#[trigger] self.queues@[k])@.len() > 0,
                packs_view(out@) =~= v0.opened().subrange(0, j as int),
            decreases n - j,
        {
            let front = clone_pack(&self.queues[j][0]);
            let ghost prev = out@;
            proof {
                assert(front@ == self@.queues[j as int][0]);
                assert(v0.opened()[j as int] == (self.players@[j as int], front@));
            }
            out.push((self.players[j], front));
            j = j + 1;
            proof {
                assert(out@ == prev.push((self.players@[j - 1], front)));
                assert(packs_view(out@) =~= packs_view(prev).push((self.players@[j - 1], front@)));
                assert(packs_view(out@) =~= v0.opened().subrange(0, j as int));
            }
        }
        assert(v0.opened().subrange(0, n as int) =~= v0.opened());
        out
    }

    /// Starts the draft: opens the first round. Returns each seat with a copy
    /// of its first pack; the pack itself stays at the front of its queue.
    pub fn begin(&mut self) -> (r: NewPacks)
        requires
            old(self).wf(),
            old(self)@.current_round == 0,
            old(self)@.rounds > 0,
        ensures
            final(self).wf(),
            final(self)@ == old(self)@.after_start_round(),
            packs_view(r@) == old(self)@.opened(),
    {
        self.start_round()
    }

    /// Removes the card at `index` of `seat`'s front pack and takes that pack
    /// off the queue. Returns the card and the rest of the pack.
    fn pick_card(&mut self, seat: Seat, index: usize) -> (r: Res<(usize, Card, Pack)>)
        requires
            old(self).wf(),
        ensures
            !old(self)@.can_pick(seat, index as int) ==> r is Err && *final(self) == *old(self),
            old(self)@.can_pick(seat, index as int) ==> (r matches Ok((i, card, rest)) && {
                let front = old(self)@.queues[i as int][0];
                &&& old(self)@.index_of(seat) == Some(i as int)
                &&& card == front[index as int]
                &&& rest@ == front.remove(index as int)
                &&& final(self).players@ == old(self).players@
                &&& final(self).pools@ == old(self).pools@
                &&& final(self).queues@ == old(self).queues@.update(i as int, final(self).queues@[i as int])
                &&& final(self).queues@[i as int]@ == old(self).queues@[i as int]@.drop_first()
                &&& final(self).generated_packs@ == old(self).generated_packs@
                &&& final(self).direction == old(self).direction
                &&& final(self).rounds == old(self).rounds
                &&& final(self).current_round == old(self).current_round
            }),
    {
        let i = match self.seat_index(seat) {
            Some(i) => i,
            None => {
                return err("Player not in draft.");
            },
        };
        if self.queues[i].len() == 0 {
            return err("No current pack.");
        }
        if index >= self.queues[i][0].len() {
            return err("Invalid pick index.");
        }
        let ghost q0 = self.queues@;
        let mut pack = self.queues[i].pop_front().unwrap();
        let card = pack.remove(index);
        proof {
            assert(self.queues@ =~= q0.update(i as int, self.queues@[i as int]));
            assert(self.queues@[i as int]@ =~= q0[i as int]@.drop_first());
        }
        Ok((i, card, pack))
    }

    /// A pick by `seat` of the card at `index` of its front pack. The card
    /// joins the seat's pool and the rest of the pack, if any, goes to the
    /// next seat. Returns the card with the packs that became visible: the
    /// passed pack when it is the only one waiting for the next seat, and the
    /// picker's next pack when one waits and another seat passed it; when the
    /// pick ends a round that is not the last, the packs of the new round
    /// instead. An unknown seat, an empty queue or an index past the front
    /// pack fails and changes nothing.
    pub fn handle_pick(&mut self, seat: Seat, index: usize) -> (r: Res<(Card, NewPacks)>)
        requires
            old(self).wf(),
        ensures
            final(self).wf(),
            old(self)@.can_pick(seat, index as int) ==> (r matches Ok((card, packs)) && {
                &&& card == old(self)@.picked_card(seat, index as int)
                &&& packs_view(packs@) == old(self)@.shown(seat, index as int)
                &&& final(self)@ == old(self)@.after_pick(seat, index as int)
            }),
            !old(self)@.can_pick(seat, index as int) ==> r is Err && final(self)@ == old(self)@,
    {
        let ghost v0 = self@;
        let ghost e0 = *self;
        let (i, card, pack) = match self.pick_card(seat, index) {
            Ok(t) => t,
            Err(e) => {
                return Err(e);
            },
        };
        let ghost residual = pack@;
        self.pools[i].push(card.duplicate());
        let nx = self.next_index(i);
        let mut shown: NewPacks = Vec::new();
        if pack.len() > 0 {
            self.queues[nx].push_back(pack);
            if self.queues[nx].len() == 1 {
                shown.push((self.players[nx], clone_pack(&self.queues[nx][0])));
            }
        }
        let ghost q_after = self.queues@;
        proof {
            let mid = v0.after_pass(seat, index as int);
            assert forall|j: int| 0 <= j < v0.players.len() implies #[trigger] self@.queues[j] == mid.queues[j] by {
                if j == nx {
                    if residual.len() > 0 {
                        assert(self.queues@[j]@.map_values(|p: Pack| p@) =~= mid.queues[j]);
                    } else {
                        assert(self.queues@[j]@.map_values(|p: Pack| p@) =~= mid.queues[j]);
                    }
                } else if j == i {
                    assert(self.queues@[j]@.map_values(|p: Pack| p@) =~= mid.queues[j]);
                }
            }
            assert(self@.queues =~= mid.queues);
            assert(self@.pools =~= mid.pools);
            assert(self@ =~= mid);
        }
        if nx != i && self.queues[i].len() > 0 {
            shown.push((seat, clone_pack(&self.queues[i][0])));
        }
        proof {
            assert(packs_view(shown@) =~= v0.passed(seat, index as int));
        }
        if shown.len() == 0 && self.round_finished() && !self.draft_complete() {
            let opened = self.start_round();
            Ok((card, opened))
        } else {
            Ok((card, shown))
        }
    }
}

proof fn lemma_index_of(v: DraftView, i: int)
    requires
        v.wf(),
        0 <= i < v.players.len(),
    ensures
        v.index_of(v.players[i]) == Some(i),
{
    let seat = v.players[i];
    assert(v.players.contains(seat));
    let k = choose|k: int| 0 <= k < v.players.len() && v.players[k] == seat;
    assert(k == i);
}

/// Passing a pack on and then passing it back the other way returns it to
/// where it started, for every seat of a seating.
pub proof fn lemma_pass_back(v: DraftView, seat: Seat)
    requires
        v.wf(),
        v.players.contains(seat),
    ensures
        v.next_player(seat) matches Some(next) && v.reversed().next_player(next) == Some(seat),
{
    let i = v.index_of(seat)->Some_0;
    lemma_index_of(v, i);
    let nx = v.next_index(i);
    lemma_index_of(v, nx);
    lemma_index_of(v.reversed(), nx);
    assert(v.reversed().next_index(nx) == i);
}

/// Opening a round hands every seat exactly one pack, when the previous
/// round has finished.
pub proof fn lemma_round_opens_one_each(v: DraftView)
    requires
        v.wf(),
        v.round_finished(),
        v.current_round < v.rounds,
    ensures
        forall|i: int| 0 <= i < v.players.len() ==> #[trigger] v.after_start_round().queues[i].len() == 1,
        v.after_start_round().wf(),
        !v.after_start_round().round_finished() || v.players.len() == 0,
{
    let n = v.players.len() as int;
    let a = (v.rounds - v.current_round) as int;
    assert(a * n >= n && a * n - n == (a - 1) * n) by (nonlinear_arith)
        requires
            a >= 1,
            n >= 0,
    ;
    let next = v.after_start_round();
    assert forall|i: int| 0 <= i < v.players.len() implies #[trigger] next.queues[i].len() == 1 by {
        assert(v.queues[i].len() == 0);
    }
    if n > 0 {
        assert(next.queues[0].len() == 1);
    }
}

/// One pick attempt: the pick when it is valid, no change otherwise.
pub open spec fn try_pick(v: DraftView, pick: (Seat, int)) -> DraftView {
    if v.can_pick(pick.0, pick.1) {
        v.after_pick(pick.0, pick.1)
    } else {
        v
    }
}

/// The draft after a sequence of pick attempts.
pub open spec fn run_picks(v: DraftView, picks: Seq<(Seat, int)>) -> DraftView
    decreases picks.len(),
{
    if picks.len() == 0 {
        v
    } else {
        try_pick(run_picks(v, picks.drop_last()), picks.last())
    }
}

/// How many of the pick attempts by `seat` went through.
pub open spec fn picks_made(v: DraftView, picks: Seq<(Seat, int)>, seat: Seat) -> nat
    decreases picks.len(),
{
    if picks.len() == 0 {
        0
    } else {
        let w = run_picks(v, picks.drop_last());
        let last = picks.last();
        picks_made(v, picks.drop_last(), seat) + if last.0 == seat && w.can_pick(last.0, last.1) {
            1nat
        } else {
            0nat
        }
    }
}

/// A valid pick keeps the draft well formed and the seating as it is, and
/// adds its card to the picker's pool alone.
pub proof fn lemma_pick_step(v: DraftView, seat: Seat, index: int)
    requires
        v.wf(),
        v.can_pick(seat, index),
    ensures
        v.after_pick(seat, index).wf(),
        v.after_pick(seat, index).players == v.players,
        v.after_pick(seat, index).rounds == v.rounds,
        forall|k: int| 0 <= k < v.players.len() ==> #[trigger] v.after_pick(seat, index).pools[k]
            == if k == v.index_of(seat)->Some_0 {
                v.pools[k].push(v.picked_card(seat, index))
            } else {
                v.pools[k]
            },
{
    let i = v.index_of(seat)->Some_0;
    let mid = v.after_pass(seat, index);
    assert(!v.round_finished()) by {
        assert(v.queues[i].len() > 0);
    }
    assert(mid.wf());
    if v.pick_starts_round(seat, index) {
        assert(mid.current_round < mid.rounds);
        lemma_round_opens_one_each(mid);
    }
}

/// The pool of every seat grows by exactly the number of its picks that
/// went through.
pub proof fn lemma_pool_counts_picks(v: DraftView, picks: Seq<(Seat, int)>, seat: Seat)
    requires
        v.wf(),
        v.players.contains(seat),
    ensures
        run_picks(v, picks).wf(),
        run_picks(v, picks).players == v.players,
        run_picks(v, picks).pools[v.index_of(seat)->Some_0].len() == v.pools[v.index_of(seat)->Some_0].len()
            + picks_made(v, picks, seat),
    decreases picks.len(),
{
    if picks.len() > 0 {
        let w = run_picks(v, picks.drop_last());
        lemma_pool_counts_picks(v, picks.drop_last(), seat);
        let last = picks.last();
        let k = v.index_of(seat)->Some_0;
        assert(w.index_of(seat) == v.index_of(seat));
        if w.can_pick(last.0, last.1) {
            lemma_pick_step(w, last.0, last.1);
            let j = w.index_of(last.0)->Some_0;
            if last.0 != seat {
                assert(j != k) by {
                    assert(w.players[j] == last.0);
                    assert(w.players[k] == seat);
                }
            }
        }
    }
}

/// Every card of a draft: in pools, in queued packs and in unopened packs.
pub open spec fn cards_in_draft(v: DraftView) -> nat {
    card_total(v.pools) + queued_total(v.queues) + card_total(v.generated)
}

proof fn lemma_card_total_update(s: Seq<Seq<Card>>, i: int, x: Seq<Card>)
    requires
        0 <= i < s.len(),
    ensures
        card_total(s.update(i, x)) + s[i].len() == card_total(s) + x.len(),
    decreases s.len(),
{
    if i < s.len() - 1 {
        lemma_card_total_update(s.drop_last(), i, x);
        assert(s.update(i, x).drop_last() =~= s.drop_last().update(i, x));
    } else {
        assert(s.update(i, x).drop_last() =~= s.drop_last());
    }
}

proof fn lemma_card_total_front(s: Seq<Seq<Card>>)
    requires
        s.len() > 0,
    ensures
        card_total(s) == s[0].len() + card_total(s.drop_first()),
    decreases s.len(),
{
    if s.len() > 1 {
        lemma_card_total_front(s.drop_last());
        assert(s.drop_last().drop_first() =~= s.drop_first().drop_last());
        assert(s.drop_first().last() == s.last());
        assert(card_total(s.drop_first()) == card_total(s.drop_first().drop_last()) + s.drop_first().last().len());
        assert(s.drop_last()[0] == s[0]);
    } else {
        assert(s.drop_first().len() == 0);
        assert(s.drop_last().len() == 0);
        assert(card_total(s.drop_last()) == 0);
        assert(card_total(s.drop_first()) == 0);
    }
}

proof fn lemma_queued_total_update(qs: Seq<Seq<Seq<Card>>>, i: int, q: Seq<Seq<Card>>)
    requires
        0 <= i < qs.len(),
    ensures
        queued_total(qs.update(i, q)) + card_total(qs[i]) == queued_total(qs) + card_total(q),
    decreases qs.len(),
{
    if i < qs.len() - 1 {
        lemma_queued_total_update(qs.drop_last(), i, q);
        assert(qs.update(i, q).drop_last() =~= qs.drop_last().update(i, q));
    } else {
        assert(qs.update(i, q).drop_last() =~= qs.drop_last());
    }
}

proof fn lemma_card_total_split(s: Seq<Seq<Card>>, k: int)
    requires
        0 <= k <= s.len(),
    ensures
        card_total(s) == card_total(s.subrange(0, k)) + card_total(s.subrange(k, s.len() as int)),
    decreases s.len() - k,
{
    if k < s.len() {
        lemma_card_total_split(s, k + 1);
        lemma_card_total_front(s.subrange(k, s.len() as int));
        assert(s.subrange(k, s.len() as int).drop_first() =~= s.subrange(k + 1, s.len() as int));
        assert(s.subrange(0, k + 1).drop_last() =~= s.subrange(0, k));
    } else {
        assert(s.subrange(0, k) =~= s);
    }
}

/// Queues of one pack each, seat `i` holding the pack `i`-th from the end.
proof fn lemma_opened_total(v: DraftView, n: int)
    requires
        v.wf(),
        v.round_finished(),
        0 <= n <= v.players.len(),
        v.players.len() <= v.generated.len(),
    ensures
        queued_total(v.after_start_round().queues.subrange(0, n)) == card_total(
            v.generated.subrange(v.generated.len() - n, v.generated.len() as int),
        ),
    decreases n,
{
    let g = v.generated;
    let len = g.len() as int;
    let qs = v.after_start_round().queues;
    if n > 0 {
        lemma_opened_total(v, n - 1);
        assert(qs.subrange(0, n).drop_last() =~= qs.subrange(0, n - 1));
        assert(qs.subrange(0, n).last() == qs[n - 1]);
        assert(v.queues[n - 1].len() == 0);
        assert(qs[n - 1] =~= seq![g[len - n]]);
        assert(seq![g[len - n]].drop_last() =~= Seq::<Seq<Card>>::empty());
        assert(card_total(Seq::<Seq<Card>>::empty()) == 0);
        assert(card_total(qs[n - 1]) == g[len - n].len());
        assert(queued_total(qs.subrange(0, n)) == queued_total(qs.subrange(0, n - 1)) + card_total(qs[n - 1]));
        lemma_card_total_front(g.subrange(len - n, len));
        assert(g.subrange(len - n, len).drop_first() =~= g.subrange(len - (n - 1), len));
        assert(g.subrange(len - n, len)[0] == g[len - n]);
    } else {
        assert(qs.subrange(0, 0).len() == 0);
        assert(g.subrange(len, len).len() == 0);
    }
}

proof fn lemma_queued_all_empty(qs: Seq<Seq<Seq<Card>>>)
    requires
        forall|i: int| 0 <= i < qs.len() ==> #[trigger] qs[i].len() == 0,
    ensures
        queued_total(qs) == 0,
    decreases qs.len(),
{
    if qs.len() > 0 {
        lemma_queued_all_empty(qs.drop_last());
        assert(qs.last().len() == 0);
    }
}

/// Opening a round moves cards from unopened packs to the queues, neither
/// adding nor losing any.
pub proof fn lemma_round_keeps_cards(v: DraftView)
    requires
        v.wf(),
        v.round_finished(),
        v.current_round < v.rounds,
    ensures
        cards_in_draft(v.after_start_round()) == cards_in_draft(v),
{
    let n = v.players.len() as int;
    let g = v.generated;
    lemma_round_opens_one_each(v);
    assert(g.len() >= n) by {
        let a = (v.rounds - v.current_round) as int;
        assert(a * n >= n) by (nonlinear_arith)
            requires
                a >= 1,
                n >= 0,
        ;
    }
    let next = v.after_start_round();
    lemma_opened_total(v, n);
    assert(next.queues.subrange(0, n) =~= next.queues);
    lemma_queued_all_empty(v.queues);
    lemma_card_total_split(g, g.len() - n);
}

/// A valid pick moves one card from a pack to a pool, neither adding nor
/// losing any.
pub proof fn lemma_pick_keeps_cards(v: DraftView, seat: Seat, index: int)
    requires
        v.wf(),
        v.can_pick(seat, index),
    ensures
        cards_in_draft(v.after_pick(seat, index)) == cards_in_draft(v),
{
    let i = v.index_of(seat)->Some_0;
    let front = v.queues[i][0];
    let residual = front.remove(index);
    let nx = v.next_index(i);
    let q1 = v.queues.update(i, v.queues[i].drop_first());
    lemma_card_total_update(v.pools, i, v.pools[i].push(front[index]));
    lemma_card_total_front(v.queues[i]);
    lemma_queued_total_update(v.queues, i, v.queues[i].drop_first());
    assert(residual.len() == front.len() - 1);
    if residual.len() > 0 {
        lemma_queued_total_update(q1, nx, q1[nx].push(residual));
        assert(q1[nx].push(residual).drop_last() =~= q1[nx]);
        assert(card_total(q1[nx].push(residual)) == card_total(q1[nx]) + residual.len());
    }
    let mid = v.after_pass(seat, index);
    assert(mid.pools == v.pools.update(i, v.pools[i].push(front[index])));
    assert(mid.generated == v.generated);
    assert(v.pools[i].push(front[index]).len() == v.pools[i].len() + 1);
    assert(cards_in_draft(mid) == cards_in_draft(v));
    if v.pick_starts_round(seat, index) {
        lemma_pick_step(v, seat, index);
        assert(!v.round_finished()) by {
            assert(v.queues[i].len() > 0);
        }
        assert(mid.wf());
        lemma_round_keeps_cards(mid);
    }
}

/// The cards of packs that all hold `size` cards.
pub proof fn lemma_uniform_packs(packs: Seq<Seq<Card>>, size: nat)
    requires
        forall|i: int| 0 <= i < packs.len() ==> #[trigger] packs[i].len() == size,
    ensures
        card_total(packs) == packs.len() * size,
    decreases packs.len(),
{
    if packs.len() > 0 {
        lemma_uniform_packs(packs.drop_last(), size);
        assert(packs.last().len() == size);
        assert((packs.len() - 1) * size + size == packs.len() * size) by (nonlinear_arith);
    }
}

/// At every point of a draft opened from `players * rounds` packs of `size`
/// cards, the picked cards, the queued cards and `size` times the unopened
/// packs add up to `players * rounds * size`.
pub proof fn lemma_card_count(v: DraftView, size: nat, picks: Seq<(Seat, int)>)
    requires
        v.wf(),
        v.round_finished(),
        v.current_round == 0,
        v.rounds > 0,
        forall|i: int| 0 <= i < v.pools.len() ==> #[trigger] v.pools[i].len() == 0,
        forall|i: int| 0 <= i < v.generated.len() ==> #[trigger] v.generated[i].len() == size,
    ensures
        ({
            let w = run_picks(v.after_start_round(), picks);
            card_total(w.pools) + queued_total(w.queues) + w.generated.len() * size == v.players.len()
                * v.rounds * size
        }),
{
    let start = v.after_start_round();
    lemma_enough_unopened(v);
    assert(start.generated =~= v.generated.subrange(0, start.generated.len() as int));
    lemma_round_keeps_cards(v);
    lemma_round_opens_one_each(v);
    lemma_queued_all_empty(v.queues);
    lemma_card_total_zero(v.pools);
    lemma_uniform_packs(v.generated, size);
    lemma_run_keeps_cards(start, picks, v.generated, size);
    let w = run_picks(start, picks);
    lemma_uniform_packs(w.generated, size);
    assert(v.generated.len() * size == v.players.len() * v.rounds * size) by {
        assert(v.generated.len() == v.rounds * v.players.len());
        assert(v.rounds * v.players.len() * size == v.players.len() * v.rounds * size) by (nonlinear_arith);
    }
}

proof fn lemma_enough_unopened(v: DraftView)
    requires
        v.wf(),
        v.current_round < v.rounds,
    ensures
        v.generated.len() >= v.players.len(),
{
    let n = v.players.len() as int;
    let a = (v.rounds - v.current_round) as int;
    assert(a * n >= n) by (nonlinear_arith)
        requires
            a >= 1,
            n >= 0,
    ;
}

proof fn lemma_card_total_zero(s: Seq<Seq<Card>>)
    requires
        forall|i: int| 0 <= i < s.len() ==> #[trigger] s[i].len() == 0,
    ensures
        card_total(s) == 0,
    decreases s.len(),
{
    if s.len() > 0 {
        lemma_card_total_zero(s.drop_last());
        assert(s.last().len() == 0);
    }
}

/// Pick attempts keep every card, keep the draft well formed, and only
/// ever take unopened packs off the end.
proof fn lemma_run_keeps_cards(v: DraftView, picks: Seq<(Seat, int)>, packs: Seq<Seq<Card>>, size: nat)
    requires
        v.wf(),
        v.generated.len() <= packs.len(),
        v.generated == packs.subrange(0, v.generated.len() as int),
        forall|i: int| 0 <= i < packs.len() ==> #[trigger] packs[i].len() == size,
    ensures
        run_picks(v, picks).wf(),
        cards_in_draft(run_picks(v, picks)) == cards_in_draft(v),
        forall|i: int| 0 <= i < run_picks(v, picks).generated.len() ==> #[trigger] run_picks(v, picks).generated[i].len() == size,
        run_picks(v, picks).generated.len() <= packs.len(),
        run_picks(v, picks).generated == packs.subrange(0, run_picks(v, picks).generated.len() as int),
    decreases picks.len(),
{
    if picks.len() > 0 {
        lemma_run_keeps_cards(v, picks.drop_last(), packs, size);
        let w = run_picks(v, picks.drop_last());
        let last = picks.last();
        if w.can_pick(last.0, last.1) {
            lemma_pick_step(w, last.0, last.1);
            lemma_pick_keeps_cards(w, last.0, last.1);
            let next = w.after_pick(last.0, last.1);
            let mid = w.after_pass(last.0, last.1);
            assert(mid.generated == w.generated);
            if w.pick_starts_round(last.0, last.1) {
                lemma_enough_unopened(mid);
                assert(next.generated == mid.generated.subrange(0, mid.generated.len() - mid.players.len()));
            } else {
                assert(next == mid);
            }
            assert(next.generated.len() <= w.generated.len());
            assert(next.generated =~= packs.subrange(0, next.generated.len() as int));
        }
    } else {
        assert forall|i: int| 0 <= i < v.generated.len() implies #[trigger] v.generated[i].len() == size by {
            assert(v.generated[i] == packs[i]);
        }
    }
}

} // verus!
