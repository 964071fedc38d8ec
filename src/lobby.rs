use vstd::prelude::*;
use vstd::string::StringExecFns;

use crate::cards::Card;
use crate::game::{clone_pack, fresh_draft, packs_view, Draft, DraftView, NewPacks, Seat};
use crate::messages::{
    default_name, details_view, outgoing_view, DetailsView, ClientMessage, ClientStatus, DraftServerRequest, MessageView,
    Outgoing, OutgoingView, PlayerDetails, ServerMessage,
};
use crate::packs::{lemma_same_stock_packs, make_packs, packs_fit, packs_owed, packs_refused, DraftConfig, DraftPool, Pack, Res};

verus! {

/// The stage a lobby is in. Stages only move forward: lobby, draft,
/// finished; any stage may end in `Terminated`.
#[derive(Clone, Copy, Debug, PartialEq, Eq, Structural)]
pub enum Stage {
    Lobby,
    Draft,
    Finished,
    Terminated,
}

pub open spec fn stage_rank(s: Stage) -> int {
    match s {
        Stage::Lobby => 0,
        Stage::Draft => 1,
        Stage::Finished => 2,
        Stage::Terminated => 3,
    }
}

/// What a lobby holds in each stage: readiness by seat with the settings
/// and the pool; the draft; every seat's final pool; nothing.
pub enum Phase {
    Lobby(Vec<(Seat, bool)>, DraftConfig, DraftPool),
    Draft(Draft),
    Finished(Vec<(Seat, Vec<Card>)>),
    Terminated,
}

/// The phase as values: readiness by client with the settings and the
/// pool; the draft; the final pools; nothing.
pub enum PhaseView {
    Lobby(Seq<bool>, DraftConfig, DraftPool),
    Draft(DraftView),
    Finished(Seq<(Seat, Seq<Card>)>),
    Terminated,
}

/// A client's record as values.
pub struct ClientView {
    pub seat: Seat,
    pub name: Seq<char>,
    pub known_status: ClientStatus,
    pub heartbeat: u64,
    pub link_open: bool,
}

/// The records after the connection state is refreshed: a client's link
/// is open unless its seat is listed as closed.
pub open spec fn refreshed(cs: Seq<ClientView>, closed: Seq<Seat>) -> Seq<ClientView> {
    Seq::new(cs.len(), |j: int| ClientView { link_open: !closed.contains(cs[j].seat), ..cs[j] })
}

struct Client {
    id: Seat,
    name: String,
    known_status: ClientStatus,
    heartbeat: u64,
    link_open: bool,
}

/// The messages that sending `m` to every seat but `exclude` produces, in
/// seating order.
pub open spec fn broadcast_spec(seats: Seq<Seat>, m: MessageView, exclude: Option<Seat>) -> Seq<OutgoingView>
    decreases seats.len(),
{
    if seats.len() == 0 {
        Seq::empty()
    } else {
        let prev = broadcast_spec(seats.drop_last(), m, exclude);
        if exclude == Some(seats.last()) {
            prev
        } else {
            prev.push(OutgoingView::Send(seats.last(), m))
        }
    }
}

/// The `Pack` messages for the shown packs whose seat is a client, in order.
pub open spec fn pack_sends(seats: Seq<Seat>, shown: Seq<(Seat, Seq<Card>)>) -> Seq<OutgoingView>
    decreases shown.len(),
{
    if shown.len() == 0 {
        Seq::empty()
    } else {
        let prev = pack_sends(seats, shown.drop_last());
        let last = shown.last();
        if seats.contains(last.0) {
            prev.push(OutgoingView::Send(last.0, MessageView::Pack(last.1)))
        } else {
            prev
        }
    }
}

/// One `Finished` message per seat, with that seat's pool.
pub open spec fn finished_sends(players: Seq<Seat>, pools: Seq<Seq<Card>>) -> Seq<OutgoingView> {
    Seq::new(players.len(), |i: int| OutgoingView::Send(players[i], MessageView::Finished(pools[i])))
}

/// Every seat with its final pool.
pub open spec fn final_pools_of(v: DraftView) -> Seq<(Seat, Seq<Card>)> {
    Seq::new(v.players.len(), |i: int| (v.players[i], v.pools[i]))
}

/// Stopping the lobby because packs cannot be built: closing, then the
/// reason to every client.
pub open spec fn fatal_sends(seats: Seq<Seat>, e: Seq<char>) -> Seq<OutgoingView> {
    seq![OutgoingView::CloseRequests] + broadcast_spec(
        seats,
        MessageView::FatalError("Failed to create packs for draft: "@ + e),
        None,
    )
}

/// What starting the draft of lobby `old` with build result `b` leaves,
/// with messages `before` already out. Built
/// packs make the fresh draft of its seats with its first round open, and
/// each seat is sent its pack; a build error stops the lobby with that error
/// as the reason.
pub open spec fn started_with(
    old: DraftServer,
    before: Seq<OutgoingView>,
    new: DraftServer,
    out: Seq<OutgoingView>,
    b: Result<Seq<Pack>, Seq<char>>,
) -> bool {
    let seats = old.seats();
    let config = old.lobby_config()->Some_0;
    &&& new.seats() == seats
    &&& new.lobby_id() == old.lobby_id()
    &&& match b {
        Ok(packs) => {
            let f = fresh_draft(seats, config.rounds as nat, packs);
            &&& new.phase_view() == PhaseView::Draft(f.after_start_round())
            &&& new.stage() == Stage::Draft
            &&& new.draft_state() == Some(f.after_start_round())
            &&& new.is_accepting() == old.is_accepting()
            &&& out == before + pack_sends(seats, f.opened())
        },
        Err(e) => {
            &&& new.phase_view() == PhaseView::Terminated
            &&& new.stage() == Stage::Terminated
            &&& !new.is_accepting()
            &&& out == before + fatal_sends(seats, e)
        },
    }
}

/// What building the packs for lobby `old` may give: the packs are built
/// for its seats from its settings and a copy of its pool, so they fit
/// those; they must come where building is owed to succeed and an error
/// must come where it is owed to fail. A pack count that overflows is an
/// error of its own.
pub open spec fn build_allows(old: DraftServer, b: Result<Seq<Pack>, Seq<char>>) -> bool {
    let n = old.seats().len();
    let config = old.lobby_config()->Some_0;
    let pool = old.lobby_pool()->Some_0;
    if n * config.rounds > usize::MAX {
        b == Err::<Seq<Pack>, Seq<char>>("more packs than can be counted"@)
    } else {
        &&& b matches Ok(p) ==> packs_fit(n as usize, config, pool, p)
        &&& packs_owed(n as usize, config, pool) ==> b is Ok
        &&& packs_refused(n as usize, config, pool) ==> b is Err
    }
}

/// What starting the draft of lobby `old` leaves: the outcome of some
/// build result that building may give.
pub open spec fn start_outcome(old: DraftServer, before: Seq<OutgoingView>, new: DraftServer, out: Seq<OutgoingView>) -> bool {
    exists|b: Result<Seq<Pack>, Seq<char>>| build_allows(old, b) && started_with(old, before, new, out, b)
}

/// The start outcome depends only on the seats, settings, pool, id and
/// whether requests are taken.
pub proof fn lemma_start_outcome_transfer(a: DraftServer, b: DraftServer, before: Seq<OutgoingView>, new: DraftServer, out: Seq<OutgoingView>)
    requires
        a.seats() == b.seats(),
        a.lobby_config() == b.lobby_config(),
        a.lobby_pool() == b.lobby_pool(),
        a.lobby_id() == b.lobby_id(),
        a.is_accepting() == b.is_accepting(),
        start_outcome(a, before, new, out),
    ensures
        start_outcome(b, before, new, out),
{
    let w = choose|w: Result<Seq<Pack>, Seq<char>>| build_allows(a, w) && started_with(a, before, new, out, w);
    assert(build_allows(b, w));
    assert(started_with(b, before, new, out, w));
}

spec fn client_view(c: Client) -> ClientView {
    ClientView { seat: c.id, name: c.name@, known_status: c.known_status, heartbeat: c.heartbeat, link_open: c.link_open }
}

spec fn seats_of(clients: Seq<Client>) -> Seq<Seat> {
    clients.map_values(|c: Client| c.id)
}

/// Appends `m` for every client but `exclude`.
fn broadcast(clients: &Vec<Client>, out: &mut Vec<Outgoing>, m: &ServerMessage, exclude: Option<Seat>)
    ensures
        outgoing_view(final(out)@) == outgoing_view(old(out)@) + broadcast_spec(seats_of(clients@), m@, exclude),
{
    let mut i: usize = 0;
    while i < clients.len()
        invariant
            i <= clients@.len(),
            outgoing_view(out@) == outgoing_view(old(out)@) + broadcast_spec(seats_of(clients@).subrange(0, i as int), m@, exclude),
        decreases clients@.len() - i,
    {
        let ghost prev = out@;
        let id = clients[i].id;
        proof {
            assert(seats_of(clients@).subrange(0, i + 1).drop_last() =~= seats_of(clients@).subrange(0, i as int));
        }
        if exclude != Some(id) {
            out.push(Outgoing::Send(id, m.duplicate()));
            assert(outgoing_view(out@) =~= outgoing_view(prev).push(OutgoingView::Send(id, m@)));
        }
        i = i + 1;
    }
    assert(seats_of(clients@).subrange(0, clients@.len() as int) =~= seats_of(clients@));
}

/// Index of the client at `seat`.
fn client_index(clients: &Vec<Client>, seat: Seat) -> (r: Option<usize>)
    requires
        seats_of(clients@).no_duplicates(),
    ensures
        r is None <==> !seats_of(clients@).contains(seat),
        r matches Some(i) ==> i < clients@.len() && clients@[i as int].id == seat,
{
    let mut i: usize = 0;
    while i < clients.len()
        invariant
            i <= clients@.len(),
            forall|j: int| 0 <= j < i ==> clients@[j].id != seat,
        decreases clients@.len() - i,
    {
        if clients[i].id == seat {
            assert(seats_of(clients@)[i as int] == seat);
            return Some(i);
        }
        i = i + 1;
    }
    assert forall|j: int| 0 <= j < seats_of(clients@).len() implies seats_of(clients@)[j] != seat by {
        assert(clients@[j].id != seat);
    }
    None
}

fn status_of(c: &Client) -> (r: ClientStatus)
    ensures
        r == (if c.link_open { c.known_status } else { ClientStatus::Error }),
{
    if c.link_open {
        c.known_status
    } else {
        ClientStatus::Error
    }
}

/// The client records after a message from client `i` at time `now`: its
/// heartbeat is recorded; a disconnect removes it in the lobby stage and
/// marks it in error afterwards; a new name is kept.
pub open spec fn message_clients(cs: Seq<ClientView>, i: int, now: u64, msg: ClientMessage, in_lobby: bool) -> Seq<ClientView> {
    let base = cs.update(i, ClientView { heartbeat: now, ..cs[i] });
    match msg {
        ClientMessage::Disconnected => if in_lobby {
            base.remove(i)
        } else {
            base.update(i, ClientView { known_status: ClientStatus::Error, ..base[i] })
        },
        ClientMessage::SetName(n) => base.update(i, ClientView { name: n@, ..base[i] }),
        _ => base,
    }
}

/// The phase after a message from client `i`, where the message leaves the
/// draft stage and the start of the draft aside: a disconnect in the lobby
/// stage drops the client's readiness, a readiness message in the lobby
/// stage records it, and anything else leaves the phase.
pub open spec fn message_phase(p: PhaseView, i: int, msg: ClientMessage) -> PhaseView {
    match p {
        PhaseView::Lobby(r, c, pool) => match msg {
            ClientMessage::Disconnected => PhaseView::Lobby(r.remove(i), c, pool),
            ClientMessage::ReadyState(b) => PhaseView::Lobby(r.update(i, b), c, pool),
            _ => p,
        },
        _ => p,
    }
}

/// The `PlayerUpdate` sent to everyone but `seat` when its status changed.
pub open spec fn update_if_changed(changed: bool, seats: Seq<Seat>, d: DetailsView, seat: Seat) -> Seq<OutgoingView> {
    if changed {
        broadcast_spec(seats, MessageView::PlayerUpdate(d), Some(seat))
    } else {
        Seq::empty()
    }
}

/// What a returning seat is told, by stage: a welcome in the lobby stage;
/// in the draft stage, its pool and current pack and then the player list;
/// once finished, its final pool and the player list; once terminated, the
/// news.
pub open spec fn welcome_msgs(srv: DraftServer, seat: Seat) -> Seq<OutgoingView> {
    let id = srv.lobby_id();
    match srv.stage() {
        Stage::Lobby => seq![OutgoingView::Send(seat, MessageView::Connected(id, seat))],
        Stage::Draft => {
            let v = srv.draft_state()->Some_0;
            seq![
                OutgoingView::Send(seat, MessageView::Reconnected(id, seat, true, v.pools[v.index_of(seat)->Some_0], v.current_pack(seat))),
                OutgoingView::Send(seat, MessageView::PlayerList(srv.details_list())),
            ]
        },
        Stage::Finished => {
            let fp = srv.final_pools()->Some_0;
            seq![
                OutgoingView::Send(seat, MessageView::Reconnected(id, seat, false, fp[srv.seats().index_of(seat)].1, None)),
                OutgoingView::Send(seat, MessageView::PlayerList(srv.details_list())),
            ]
        },
        Stage::Terminated => seq![OutgoingView::Send(seat, MessageView::FatalError("Draft terminated."@))],
    }
}

/// The lobby actor's state: its id, its phase, its clients in joining
/// order, and whether it still takes requests.
pub struct DraftServer {
    id: u128,
    phase: Phase,
    clients: Vec<Client>,
    accepting: bool,
}

impl DraftServer {
    /// The phase, as values.
    pub closed spec fn phase_view(&self) -> PhaseView {
        match self.phase {
            Phase::Lobby(r, c, p) => PhaseView::Lobby(r@.map_values(|e: (Seat, bool)| e.1), c, p),
            Phase::Draft(d) => PhaseView::Draft(d@),
            Phase::Finished(p) => PhaseView::Finished(p@.map_values(|e: (Seat, Vec<Card>)| (e.0, e.1@))),
            Phase::Terminated => PhaseView::Terminated,
        }
    }

    /// The client records in joining order, as values.
    pub closed spec fn clients_view(&self) -> Seq<ClientView> {
        Seq::new(self.clients@.len(), |i: int| client_view(self.clients@[i]))
    }

    /// How the views determine what else the lobby shows.
    pub proof fn lemma_views(&self)
        ensures
            self.stage() == match self.phase_view() {
                PhaseView::Lobby(..) => Stage::Lobby,
                PhaseView::Draft(_) => Stage::Draft,
                PhaseView::Finished(_) => Stage::Finished,
                PhaseView::Terminated => Stage::Terminated,
            },
            self.readiness() == match self.phase_view() {
                PhaseView::Lobby(r, _, _) => Some(r),
                _ => None,
            },
            self.lobby_config() == match self.phase_view() {
                PhaseView::Lobby(_, c, _) => Some(c),
                _ => None,
            },
            self.lobby_pool() == match self.phase_view() {
                PhaseView::Lobby(_, _, p) => Some(p),
                _ => None,
            },
            self.draft_state() == match self.phase_view() {
                PhaseView::Draft(d) => Some(d),
                _ => None,
            },
            self.final_pools() == match self.phase_view() {
                PhaseView::Finished(p) => Some(p),
                _ => None,
            },
            self.seats() == Seq::new(self.clients_view().len(), |i: int| self.clients_view()[i].seat),
            forall|i: int| 0 <= i < self.clients_view().len() ==> #[trigger] self.known_status_of(i) == self.clients_view()[i].known_status
                && self.name_of(i) == self.clients_view()[i].name,
    {
        assert(self.seats() =~= Seq::new(self.clients_view().len(), |i: int| self.clients_view()[i].seat));
    }

    pub closed spec fn stage(&self) -> Stage {
        match self.phase {
            Phase::Lobby(..) => Stage::Lobby,
            Phase::Draft(_) => Stage::Draft,
            Phase::Finished(_) => Stage::Finished,
            Phase::Terminated => Stage::Terminated,
        }
    }

    /// The seats of the clients, in joining order.
    pub closed spec fn seats(&self) -> Seq<Seat> {
        seats_of(self.clients@)
    }

    pub closed spec fn lobby_id(&self) -> u128 {
        self.id
    }

    pub closed spec fn is_accepting(&self) -> bool {
        self.accepting
    }

    /// The draft, in the draft stage.
    pub closed spec fn draft_state(&self) -> Option<DraftView> {
        match self.phase {
            Phase::Draft(d) => Some(d@),
            _ => None,
        }
    }

    /// Readiness of each client, in the lobby stage.
    pub closed spec fn readiness(&self) -> Option<Seq<bool>> {
        match self.phase {
            Phase::Lobby(r, ..) => Some(r@.map_values(|e: (Seat, bool)| e.1)),
            _ => None,
        }
    }

    /// The settings, in the lobby stage.
    pub closed spec fn lobby_config(&self) -> Option<DraftConfig> {
        match self.phase {
            Phase::Lobby(_, c, _) => Some(c),
            _ => None,
        }
    }

    /// The pool, in the lobby stage.
    pub closed spec fn lobby_pool(&self) -> Option<DraftPool> {
        match self.phase {
            Phase::Lobby(_, _, p) => Some(p),
            _ => None,
        }
    }

    /// Every seat with its final pool, once finished.
    pub closed spec fn final_pools(&self) -> Option<Seq<(Seat, Seq<Card>)>> {
        match self.phase {
            Phase::Finished(p) => Some(p@.map_values(|e: (Seat, Vec<Card>)| (e.0, e.1@))),
            _ => None,
        }
    }

    /// The last status recorded for client `i`.
    pub closed spec fn known_status_of(&self, i: int) -> ClientStatus {
        self.clients@[i].known_status
    }

    /// The details of every client, in joining order.
    pub open spec fn details_list(&self) -> Seq<DetailsView> {
        Seq::new(self.seats().len(), |i: int| self.client_details(i))
    }

    pub closed spec fn name_of(&self, i: int) -> Seq<char> {
        self.clients@[i].name@
    }

    /// What the other players are told of client `i`: readiness is its flag
    /// in the lobby stage and true afterwards; a closed connection shows as
    /// an error.
    pub closed spec fn client_details(&self, i: int) -> DetailsView {
        let c = self.clients@[i];
        DetailsView {
            seat: c.id,
            name: c.name@,
            ready: match self.phase {
                Phase::Lobby(r, ..) => r@[i].1,
                _ => true,
            },
            status: if c.link_open {
                c.known_status
            } else {
                ClientStatus::Error
            },
        }
    }

    pub closed spec fn wf(&self) -> bool {
        &&& self.seats().no_duplicates()
        &&& (self.phase is Terminated ==> !self.accepting)
        &&& match self.phase {
            Phase::Lobby(r, c, p) => {
                &&& p.wf()
                &&& c.rounds >= 1
                &&& r@.len() == self.clients@.len()
                &&& forall|i: int| 0 <= i < r@.len() ==> (#[trigger] r@[i]).0 == self.clients@[i].id
            },
            Phase::Draft(d) => d.wf() && d@.players == self.seats(),
            Phase::Finished(p) => {
                &&& p@.len() == self.clients@.len()
                &&& forall|i: int| 0 <= i < p@.len() ==> (#[trigger] p@[i]).0 == self.clients@[i].id
            },
            _ => true,
        }
    }

    /// A new lobby with the given id, settings and pool, taking requests.
    pub fn new(id: u128, config: DraftConfig, pool: DraftPool) -> (r: DraftServer)
        requires
            pool.wf(),
            config.rounds >= 1,
        ensures
            r.wf(),
            r.stage() == Stage::Lobby,
            r.seats() == Seq::<Seat>::empty(),
            r.lobby_id() == id,
            r.is_accepting(),
    {
        let r = DraftServer { id, phase: Phase::Lobby(Vec::new(), config, pool), clients: Vec::new(), accepting: true };
        assert(r.seats() =~= Seq::<Seat>::empty());
        r
    }

    /// The lobby's stage.
    pub fn current_stage(&self) -> (r: Stage)
        ensures
            r == self.stage(),
    {
        match self.phase {
            Phase::Lobby(..) => Stage::Lobby,
            Phase::Draft(_) => Stage::Draft,
            Phase::Finished(_) => Stage::Finished,
            Phase::Terminated => Stage::Terminated,
        }
    }

    /// Whether the lobby still takes requests.
    pub fn is_open(&self) -> (r: bool)
        ensures
            r == self.is_accepting(),
    {
        self.accepting
    }

    /// Whether client `i` counts as ready: its flag in the lobby stage, and
    /// always afterwards.
    fn ready_at(&self, i: usize) -> (r: bool)
        requires
            self.wf(),
            i < self.clients@.len(),
        ensures
            r == self.client_details(i as int).ready,
    {
        match &self.phase {
            Phase::Lobby(readys, ..) => readys[i].1,
            _ => true,
        }
    }

    fn details_at(&self, i: usize) -> (r: PlayerDetails)
        requires
            self.wf(),
            i < self.clients@.len(),
        ensures
            r@ == self.client_details(i as int),
    {
        let c = &self.clients[i];
        PlayerDetails { seat: c.id, name: c.name.clone(), ready: self.ready_at(i), status: status_of(c) }
    }

    /// Details of every client, in joining order.
    fn player_list(&self) -> (r: Vec<PlayerDetails>)
        requires
            self.wf(),
        ensures
            details_view(r@) == Seq::new(self.clients@.len(), |i: int| self.client_details(i)),
    {
        let mut out: Vec<PlayerDetails> = Vec::new();
        let mut i: usize = 0;
        while i < self.clients.len()
            invariant
                self.wf(),
                i <= self.clients@.len(),
                details_view(out@) == Seq::new(i as nat, |k: int| self.client_details(k)),
            decreases self.clients@.len() - i,
        {
            let ghost prev = out@;
            let d = self.details_at(i);
            out.push(d);
            assert(details_view(out@) =~= details_view(prev).push(self.client_details(i as int)));
            i = i + 1;
            assert(details_view(out@) =~= Seq::new(i as nat, |k: int| self.client_details(k)));
        }
        out
    }

    /// Tells everyone but `seat` its current details.
    fn broadcast_player_update(&self, out: &mut Vec<Outgoing>, seat: Seat)
        requires
            self.wf(),
        ensures
            self.seats().contains(seat) ==> outgoing_view(final(out)@) == outgoing_view(old(out)@) + broadcast_spec(
                self.seats(),
                MessageView::PlayerUpdate(self.client_details(self.seats().index_of(seat))),
                Some(seat),
            ),
            !self.seats().contains(seat) ==> final(out)@ == old(out)@,
    {
        proof {
            if self.seats().contains(seat) {
                self.seats().index_of_first_ensures(seat);
            }
        }
        if let Some(i) = client_index(&self.clients, seat) {
            proof {
                let k = self.seats().index_of(seat);
                assert(self.seats()[i as int] == seat);
                assert(self.seats()[k] == seat);
                assert(k == i);
            }
            let m = ServerMessage::PlayerUpdate(self.details_at(i));
            broadcast(&self.clients, out, &m, Some(seat));
        }
    }

    /// Records a new status for the client at index `i`, telling the others
    /// when it changed.
    fn set_client_status(&mut self, out: &mut Vec<Outgoing>, i: usize, status: ClientStatus)
        requires
            old(self).wf(),
            i < old(self).clients@.len(),
        ensures
            final(self).wf(),
            final(self).seats() == old(self).seats(),
            final(self).phase == old(self).phase,
            final(self).id == old(self).id,
            final(self).accepting == old(self).accepting,
            final(self).clients@ == old(self).clients@.update(i as int, Client { known_status: status, ..old(self).clients@[i as int] }),
            outgoing_view(final(out)@) == outgoing_view(old(out)@) + if old(self).known_status_of(i as int) != status {
                broadcast_spec(old(self).seats(), MessageView::PlayerUpdate(final(self).client_details(i as int)), Some(old(self).seats()[i as int]))
            } else {
                Seq::empty()
            },
    {
        proof {
            self.seats().index_of_first_ensures(self.seats()[i as int]);
            assert(self.seats().index_of(self.seats()[i as int]) == i);
        }
        if self.clients[i].known_status != status {
            let seat = self.clients[i].id;
            self.clients[i].known_status = status;
            proof {
                assert(self.seats() =~= old(self).seats());
                assert(self.clients@ =~= old(self).clients@.update(i as int, Client { known_status: status, ..old(self).clients@[i as int] }));
                assert(self.seats()[i as int] == seat);
            }
            self.broadcast_player_update(out, seat);
        } else {
            assert(outgoing_view(out@) =~= outgoing_view(old(out)@) + Seq::<OutgoingView>::empty());
            assert(self.clients@ =~= old(self).clients@.update(i as int, Client { known_status: status, ..old(self).clients@[i as int] }));
        }
    }

    /// Sends each pack to its seat.
    fn send_packs(clients: &Vec<Client>, out: &mut Vec<Outgoing>, packs: NewPacks)
        requires
            seats_of(clients@).no_duplicates(),
        ensures
            outgoing_view(final(out)@) == outgoing_view(old(out)@) + pack_sends(seats_of(clients@), packs_view(packs@)),
    {
        let ghost p0 = packs_view(packs@);
        let mut packs = packs;
        let ghost mut k: int = 0;
        while packs.len() > 0
            invariant
                seats_of(clients@).no_duplicates(),
                0 <= k <= p0.len(),
                packs_view(packs@) == p0.subrange(k, p0.len() as int),
                outgoing_view(out@) == outgoing_view(old(out)@) + pack_sends(seats_of(clients@), p0.subrange(0, k)),
            decreases packs@.len(),
        {
            let ghost before = packs@;
            let ghost prev = out@;
            let (seat, pack) = packs.remove(0);
            proof {
                assert(packs_view(before).len() == before.len());
                assert(k < p0.len());
                assert(p0.subrange(k, p0.len() as int)[0] == p0[k]);
                assert(before[0] == (seat, pack));
                assert(packs_view(before)[0] == (seat, pack@));
                assert(p0[k] == (seat, pack@));
                assert(packs@ =~= before.subrange(1, before.len() as int));
                assert(p0.subrange(0, k + 1).drop_last() =~= p0.subrange(0, k));
                assert forall|j: int| 0 <= j < packs@.len() implies #[trigger] packs_view(packs@)[j] == p0.subrange(k + 1, p0.len() as int)[j] by {
                    assert(packs@[j] == before[j + 1]);
                    assert(packs_view(before)[j + 1] == p0.subrange(k, p0.len() as int)[j + 1]);
                }
                assert(packs_view(packs@) =~= p0.subrange(k + 1, p0.len() as int));
            }
            if client_index(clients, seat).is_some() {
                out.push(Outgoing::Send(seat, ServerMessage::Pack(pack)));
                assert(outgoing_view(out@) =~= outgoing_view(prev).push(OutgoingView::Send(seat, MessageView::Pack(p0[k].1))));
            }
            proof {
                k = k + 1;
            }
        }
        assert(p0.subrange(0, k) =~= p0);
    }

    /// Stops the lobby: no further requests, and every client is told why.
    fn terminate(&mut self, out: &mut Vec<Outgoing>, reason: String)
        requires
            old(self).wf(),
        ensures
            final(self).wf(),
            final(self).stage() == Stage::Terminated,
            !final(self).is_accepting(),
            final(self).seats() == old(self).seats(),
            final(self).clients@ == old(self).clients@,
            final(self).clients_view() == old(self).clients_view(),
            final(self).phase_view() == PhaseView::Terminated,
            final(self).id == old(self).id,
            outgoing_view(final(out)@) == outgoing_view(old(out)@) + seq![OutgoingView::CloseRequests]
                + broadcast_spec(old(self).seats(), MessageView::FatalError(reason@), None),
    {
        self.phase = Phase::Terminated;
        self.accepting = false;
        let ghost prev = out@;
        out.push(Outgoing::CloseRequests);
        assert(outgoing_view(out@) =~= outgoing_view(prev) + seq![OutgoingView::CloseRequests]);
        broadcast(&self.clients, out, &ServerMessage::FatalError(reason), None);
        assert(outgoing_view(out@) =~= outgoing_view(prev) + seq![OutgoingView::CloseRequests]
            + broadcast_spec(old(self).seats(), MessageView::FatalError(reason@), None));
    }

    /// Ends the draft once its last pick is made: every seat gets its pool.
    fn finish_if_done(&mut self, out: &mut Vec<Outgoing>)
        requires
            old(self).wf(),
        ensures
            final(self).wf(),
            final(self).seats() == old(self).seats(),
            final(self).clients@ == old(self).clients@,
            final(self).id == old(self).id,
            final(self).accepting == old(self).accepting,
            old(self).draft_state() is Some && old(self).draft_state()->Some_0.complete() ==> {
                let v = old(self).draft_state()->Some_0;
                &&& final(self).stage() == Stage::Finished
                &&& final(self).final_pools() == Some(final_pools_of(v))
                &&& outgoing_view(final(out)@) == outgoing_view(old(out)@) + finished_sends(v.players, v.pools)
            },
            !(old(self).draft_state() is Some && old(self).draft_state()->Some_0.complete()) ==> *final(self)
                == *old(self) && final(out)@ == old(out)@,
    {
        let pools = match &self.phase {
            Phase::Draft(draft) => if draft.draft_complete() {
                draft.pools()
            } else {
                return ;
            },
            _ => {
                return ;
            },
        };
        let ghost v = self.draft_state()->Some_0;
        let ghost sends = finished_sends(v.players, v.pools);
        let mut i: usize = 0;
        while i < pools.len()
            invariant
                *self == *old(self),
                old(self).wf(),
                v == old(self).draft_state()->Some_0,
                sends == finished_sends(v.players, v.pools),
                v.players == self.seats(),
                pools@.len() == v.players.len(),
                forall|j: int| 0 <= j < pools@.len() ==> (#[trigger] pools@[j]).0 == v.players[j] && pools@[j].1@ == v.pools[j],
                i <= pools@.len(),
                outgoing_view(out@) == outgoing_view(old(out)@) + sends.subrange(0, i as int),
            decreases pools@.len() - i,
        {
            let seat = pools[i].0;
            let ghost prev = out@;
            proof {
                assert(self.seats()[i as int] == seat);
            }
            assert(self.seats().contains(seat));
            if client_index(&self.clients, seat).is_some() {
                let pool = clone_pack(&pools[i].1);
                out.push(Outgoing::Send(seat, ServerMessage::Finished(pool)));
                assert(sends[i as int] == OutgoingView::Send(seat, MessageView::Finished(pool@)));
                assert(outgoing_view(out@) =~= outgoing_view(prev).push(sends[i as int]));
            }
            i = i + 1;
            assert(sends.subrange(0, i as int) =~= sends.subrange(0, i - 1).push(sends[i - 1]));
            assert(outgoing_view(out@) =~= outgoing_view(old(out)@) + sends.subrange(0, i as int));
        }
        assert(sends.subrange(0, i as int) =~= sends);
        self.phase = Phase::Finished(pools);
        proof {
            assert(self.final_pools()->Some_0 =~= final_pools_of(v));
        }
    }

    /// Starts the draft of a lobby with the build result `built`: packs open
    /// the first round of a fresh draft among the clients, in joining order,
    /// and each seat is sent its pack; an error terminates the lobby with
    /// "Failed to create packs for draft: " and the error.
    pub fn start_with(&mut self, out: &mut Vec<Outgoing>, built: Res<Vec<Pack>>)
        requires
            old(self).wf(),
            old(self).stage() == Stage::Lobby,
            built matches Ok(p) ==> p@.len() == old(self).seats().len() * old(self).lobby_config()->Some_0.rounds,
        ensures
            final(self).wf(),
            final(self).clients_view() == old(self).clients_view(),
            started_with(*old(self), outgoing_view(old(out)@), *final(self), outgoing_view(final(out)@), match built {
                Ok(p) => Ok(p@),
                Err(e) => Err(e@),
            }),
    {
        let rounds = match &self.phase {
            Phase::Lobby(_, config, _) => config.rounds,
            _ => 1,
        };
        let mut players: Vec<Seat> = Vec::new();
        let mut k: usize = 0;
        while k < self.clients.len()
            invariant
                *self == *old(self),
                k <= self.clients@.len(),
                players@ == seats_of(self.clients@).subrange(0, k as int),
            decreases self.clients@.len() - k,
        {
            players.push(self.clients[k].id);
            k = k + 1;
            assert(players@ =~= seats_of(self.clients@).subrange(0, k as int));
        }
        assert(players@ =~= seats_of(self.clients@));
        let ghost seats = self.seats();
        let ghost c0 = self.clients@;
        assert(c0 == old(self).clients@);
        match built {
            Ok(packs) => {
                let ghost pk = packs@;
                let mut draft = Draft::new(players, rounds, packs);
                let opened = draft.begin();
                DraftServer::send_packs(&self.clients, out, opened);
                self.phase = Phase::Draft(draft);
                proof {
                    let f = fresh_draft(seats, rounds as nat, pk);
                    assert(self.draft_state() == Some(f.after_start_round()));
                    assert(outgoing_view(out@) == outgoing_view(old(out)@) + pack_sends(seats, f.opened()));
                    assert(self.clients@ == c0);
                    assert(self.clients_view() =~= old(self).clients_view());
                }
            },
            Err(e) => {
                let reason = String::from_str("Failed to create packs for draft: ").concat(e.as_str());
                proof {
                    assert(reason@ == "Failed to create packs for draft: "@ + e@);
                }
                self.terminate(out, reason);
                proof {
                    assert(outgoing_view(out@) =~= outgoing_view(old(out)@) + fatal_sends(seats, e@));
                    assert(self.clients_view() =~= old(self).clients_view());
                }
            },
        }
    }

    /// Starts the draft when every client of a non-empty lobby is ready:
    /// builds the packs and opens the first round, or terminates the lobby
    /// when the packs cannot be built. Returns whether the stage changed.
    fn start_if_ready(&mut self, out: &mut Vec<Outgoing>) -> (r: bool)
        requires
            old(self).wf(),
        ensures
            final(self).wf(),
            final(self).seats() == old(self).seats(),
            final(self).id == old(self).id,
            r ==> old(self).stage() == Stage::Lobby && (final(self).stage() == Stage::Draft || final(self).stage() == Stage::Terminated),
            r <==> old(self).stage() == Stage::Lobby && old(self).seats().len() > 0 && (forall|i: int| 0 <= i < old(self).seats().len() ==> old(self).readiness()->Some_0[i]),
            !r ==> *final(self) == *old(self) && final(out)@ == old(out)@,
            r ==> start_outcome(*old(self), outgoing_view(old(out)@), *final(self), outgoing_view(final(out)@)),
            final(self).clients_view() == old(self).clients_view(),
            final(self).stage() != Stage::Terminated ==> final(self).accepting == old(self).accepting,
    {
        let built = match &self.phase {
            Phase::Lobby(readys, config, pool) => {
                if self.clients.len() == 0 {
                    return false;
                }
                assert(old(self).readiness() == Some(readys@.map_values(|e: (Seat, bool)| e.1)));
                let mut i: usize = 0;
                while i < readys.len()
                    invariant
                        i <= readys@.len(),
                        readys@.len() == old(self).seats().len(),
                        old(self).readiness() == Some(readys@.map_values(|e: (Seat, bool)| e.1)),
                        *self == *old(self),
                        old(self).wf(),
                        forall|j: int| 0 <= j < i ==> (#[trigger] readys@[j]).1,
                    decreases readys@.len() - i,
                {
                    if !readys[i].1 {
                        assert(!old(self).readiness()->Some_0[i as int]);
                        return false;
                    }
                    i = i + 1;
                }
                let n = self.clients.len();
                match n.checked_mul(config.rounds) {
                    Some(_) => {
                        let copy = pool.duplicate();
                        proof {
                            lemma_same_stock_packs(copy, *pool, n, *config, Seq::empty());
                        }
                        let r = make_packs(n, config, copy);
                        proof {
                            if r is Ok {
                                lemma_same_stock_packs(copy, *pool, n, *config, r->Ok_0@);
                            }
                        }
                        r
                    },
                    None => Err(String::from_str("more packs than can be counted")),
                }
            },
            _ => {
                return false;
            },
        };
        let ghost b = if built is Ok {
            Ok::<Seq<Pack>, Seq<char>>(built->Ok_0@)
        } else {
            Err::<Seq<Pack>, Seq<char>>(built->Err_0@)
        };
        proof {
            assert(build_allows(*old(self), b));
        }
        self.start_with(out, built);
        proof {
            assert(started_with(*old(self), outgoing_view(old(out)@), *self, outgoing_view(out@), b));
        }
        true
    }

    /// What a returning client at index `i` is told: its status is reset,
    /// then it is welcomed by stage.
    fn welcome_back(&mut self, out: &mut Vec<Outgoing>, i: usize, seat: Seat)
        requires
            old(self).wf(),
            i < old(self).clients@.len(),
            old(self).clients@[i as int].id == seat,
        ensures
            final(self).wf(),
            final(self).seats() == old(self).seats(),
            final(self).phase == old(self).phase,
            final(self).id == old(self).id,
            final(self).accepting == old(self).accepting,
            final(self).clients@ == old(self).clients@.update(i as int, Client { known_status: ClientStatus::Healthy, ..old(self).clients@[i as int] }),
            outgoing_view(final(out)@) == outgoing_view(old(out)@) + update_if_changed(
                old(self).known_status_of(i as int) != ClientStatus::Healthy,
                old(self).seats(),
                final(self).client_details(i as int),
                seat,
            ) + welcome_msgs(*final(self), seat),
    {
        self.set_client_status(out, i, ClientStatus::Healthy);
        let draft_id = self.id;
        let ghost prev = out@;
        proof {
            assert(self.seats()[i as int] == seat);
            self.seats().index_of_first_ensures(seat);
            assert(self.seats().index_of(seat) == i);
            assert(update_if_changed(old(self).known_status_of(i as int) != ClientStatus::Healthy, old(self).seats(),
                self.client_details(i as int), seat) =~= if old(self).known_status_of(i as int) != ClientStatus::Healthy {
                broadcast_spec(old(self).seats(), MessageView::PlayerUpdate(self.client_details(i as int)), Some(old(self).seats()[i as int]))
            } else {
                Seq::empty()
            });
        }
        match &self.phase {
            Phase::Lobby(..) => {
                out.push(Outgoing::Send(seat, ServerMessage::Connected { draft: draft_id, seat }));
                assert(outgoing_view(out@) =~= outgoing_view(prev) + welcome_msgs(*self, seat));
            },
            Phase::Draft(draft) => {
                proof {
                    assert(draft@.players.contains(seat));
                }
                let pool = match draft.drafted_cards(seat) {
                    Some(p) => clone_pack(p),
                    None => Vec::new(),
                };
                let pack = draft.current_pack(seat);
                let m = ServerMessage::Reconnected { draft: draft_id, seat, in_progress: true, pool, pack };
                out.push(Outgoing::Send(seat, m));
                let list = self.player_list();
                out.push(Outgoing::Send(seat, ServerMessage::PlayerList(list)));
                assert(outgoing_view(out@) =~= outgoing_view(prev) + welcome_msgs(*self, seat));
            },
            Phase::Finished(pools) => {
                let pool = clone_pack(&pools[i].1);
                out.push(Outgoing::Send(seat, ServerMessage::Reconnected { draft: draft_id, seat, in_progress: false, pool, pack: None }));
                let list = self.player_list();
                out.push(Outgoing::Send(seat, ServerMessage::PlayerList(list)));
                assert(outgoing_view(out@) =~= outgoing_view(prev) + welcome_msgs(*self, seat));
            },
            Phase::Terminated => {
                out.push(Outgoing::Send(seat, ServerMessage::FatalError(String::from_str("Draft terminated."))));
                assert(outgoing_view(out@) =~= outgoing_view(prev) + welcome_msgs(*self, seat));
            },
        }
    }

    /// A connection for `seat`. A known seat gets the new connection and,
    /// by stage, a welcome, its pool and pack with the player list, or the
    /// news that the lobby ended. An unknown seat joins while in the lobby
    /// stage and is refused afterwards.
    fn handle_client_connection(&mut self, out: &mut Vec<Outgoing>, seat: Seat, now: u64)
        requires
            old(self).wf(),
        ensures
            final(self).wf(),
            final(self).id == old(self).id,
            final(self).accepting == old(self).accepting,
            final(self).stage() == old(self).stage(),
            final(self).draft_state() == old(self).draft_state(),
            old(self).seats().contains(seat) ==> {
                let i = old(self).seats().index_of(seat);
                &&& final(self).phase_view() == old(self).phase_view()
                &&& final(self).clients_view() == old(self).clients_view().update(i, ClientView {
                    known_status: ClientStatus::Healthy,
                    link_open: true,
                    ..old(self).clients_view()[i]
                })
                &&& final(self).seats() == old(self).seats()
                &&& final(self).known_status_of(i) == ClientStatus::Healthy
                &&& final(self).client_details(i).status == ClientStatus::Healthy
                &&& outgoing_view(final(out)@) == outgoing_view(old(out)@) + seq![OutgoingView::Attach(seat)]
                    + update_if_changed(old(self).known_status_of(i) != ClientStatus::Healthy, old(self).seats(),
                    final(self).client_details(i), seat) + welcome_msgs(*final(self), seat)
            },
            !old(self).seats().contains(seat) && old(self).stage() == Stage::Lobby ==> {
                let n = old(self).seats().len() as int;
                &&& final(self).phase_view() == PhaseView::Lobby(old(self).readiness()->Some_0.push(false),
                    old(self).lobby_config()->Some_0, old(self).lobby_pool()->Some_0)
                &&& final(self).clients_view() == old(self).clients_view().push(ClientView {
                    seat,
                    name: crate::messages::uuid_text(seat).subrange(0, 8),
                    known_status: ClientStatus::Healthy,
                    heartbeat: now,
                    link_open: true,
                })
                &&& final(self).seats() == old(self).seats().push(seat)
                &&& final(self).name_of(n) == crate::messages::uuid_text(seat).subrange(0, 8)
                &&& final(self).readiness() == Some(old(self).readiness()->Some_0.push(false))
                &&& final(self).client_details(n) == (DetailsView { seat, name: crate::messages::uuid_text(seat).subrange(0, 8),
                    ready: false, status: ClientStatus::Healthy })
                &&& outgoing_view(final(out)@) == outgoing_view(old(out)@)
                    + seq![OutgoingView::Attach(seat), OutgoingView::Send(seat, MessageView::Connected(old(self).id, seat))]
                    + broadcast_spec(final(self).seats(), MessageView::PlayerList(final(self).details_list()), None)
            },
            !old(self).seats().contains(seat) && old(self).stage() != Stage::Lobby ==> {
                &&& *final(self) == *old(self)
                &&& final(self).seats() == old(self).seats()
                &&& outgoing_view(final(out)@) == outgoing_view(old(out)@).push(OutgoingView::Reply(MessageView::Started))
            },
    {
        let ghost out0 = out@;
        match client_index(&self.clients, seat) {
            Some(i) => {
                out.push(Outgoing::Attach(seat));
                let ghost attached = out@;
                self.clients[i].link_open = true;
                proof {
                    assert(self.seats() =~= old(self).seats());
                    self.seats().index_of_first_ensures(seat);
                    assert(self.seats()[i as int] == seat);
                    assert(self.seats().index_of(seat) == i);
                }
                let mut rest: Vec<Outgoing> = Vec::new();
                self.welcome_back(&mut rest, i, seat);
                let ghost tail = rest@;
                out.append(&mut rest);
                proof {
                    assert(self.clients_view() =~= old(self).clients_view().update(i as int, ClientView {
                        known_status: ClientStatus::Healthy,
                        link_open: true,
                        ..old(self).clients_view()[i as int]
                    }));
                    assert(outgoing_view(out@) =~= outgoing_view(attached) + outgoing_view(tail));
                    assert(outgoing_view(attached) =~= outgoing_view(out0) + seq![OutgoingView::Attach(seat)]);
                    assert(outgoing_view(tail) =~= Seq::<OutgoingView>::empty() + update_if_changed(
                        old(self).known_status_of(i as int) != ClientStatus::Healthy, old(self).seats(),
                        self.client_details(i as int), seat) + welcome_msgs(*self, seat));
                }
            },
            None => {
                let is_lobby = match &self.phase {
                    Phase::Lobby(..) => true,
                    _ => false,
                };
                if is_lobby {
                    let client = Client {
                        id: seat,
                        name: default_name(seat),
                        known_status: ClientStatus::Healthy,
                        heartbeat: now,
                        link_open: true,
                    };
                    if let Phase::Lobby(readys, ..) = &mut self.phase {
                        readys.push((seat, false));
                    }
                    self.clients.push(client);
                    proof {
                        let old_seats = old(self).seats();
                        assert(self.seats() =~= old_seats.push(seat));
                        assert forall|a: int, b: int| 0 <= a < b < self.seats().len() implies self.seats()[a] != self.seats()[b] by {
                            if b == old_seats.len() {
                                assert(old_seats[a] != seat);
                            }
                        }
                    }
                    out.push(Outgoing::Attach(seat));
                    out.push(Outgoing::Send(seat, ServerMessage::Connected { draft: self.id, seat }));
                    let ghost joined = out@;
                    proof {
                        assert(outgoing_view(joined) =~= outgoing_view(out0)
                            + seq![OutgoingView::Attach(seat), OutgoingView::Send(seat, MessageView::Connected(self.id, seat))]);
                    }
                    let list = ServerMessage::PlayerList(self.player_list());
                    proof {
                        assert(details_view(list->PlayerList_0@) =~= self.details_list());
                        assert(self.clients_view() =~= old(self).clients_view().push(ClientView {
                            seat,
                            name: crate::messages::uuid_text(seat).subrange(0, 8),
                            known_status: ClientStatus::Healthy,
                            heartbeat: now,
                            link_open: true,
                        }));
                        assert(self.readiness()->Some_0 =~= old(self).readiness()->Some_0.push(false));
                    }
                    broadcast(&self.clients, out, &list, None);
                } else {
                    out.push(Outgoing::Reply(ServerMessage::Started));
                }
            },
        }
    }

    /// A message from `seat`'s connection. Unknown seats are ignored.
    fn handle_client_message(&mut self, out: &mut Vec<Outgoing>, seat: Seat, msg: ClientMessage, now: u64)
        requires
            old(self).wf(),
        ensures
            final(self).wf(),
            final(self).id == old(self).id,
            stage_rank(final(self).stage()) >= stage_rank(old(self).stage()),
            final(self).stage() != Stage::Terminated ==> final(self).accepting == old(self).accepting,
            !old(self).seats().contains(seat) ==> *final(self) == *old(self) && final(out)@ == old(out)@,
            old(self).seats().contains(seat) ==> final(self).clients_view() == message_clients(old(self).clients_view(),
                old(self).seats().index_of(seat), now, msg, old(self).stage() == Stage::Lobby),
            old(self).seats().contains(seat) && !(old(self).stage() == Stage::Draft && msg is Pick)
                && !(old(self).stage() == Stage::Lobby && msg is ReadyState && final(self).stage() != Stage::Lobby)
                ==> final(self).phase_view() == message_phase(old(self).phase_view(), old(self).seats().index_of(seat), msg),
            old(self).seats().contains(seat) && old(self).stage() == Stage::Draft && msg is Pick ==> {
                let v = old(self).draft_state()->Some_0;
                let index = msg->Pick_0 as int;
                let after = v.after_pick(seat, index);
                &&& v.can_pick(seat, index) && after.complete() ==> final(self).phase_view() == PhaseView::Finished(final_pools_of(after))
                &&& v.can_pick(seat, index) && !after.complete() ==> final(self).phase_view() == PhaseView::Draft(after)
                &&& !v.can_pick(seat, index) ==> final(self).phase_view() == old(self).phase_view()
            },
            old(self).seats().contains(seat) && msg is Pick && old(self).stage() != Stage::Draft ==> {
                &&& outgoing_view(final(out)@) == outgoing_view(old(out)@).push(OutgoingView::Send(seat, MessageView::Refresh))
                &&& final(self).stage() == old(self).stage()
                &&& final(self).seats() == old(self).seats()
            },
            old(self).seats().contains(seat) && old(self).stage() == Stage::Draft ==> (msg matches ClientMessage::Pick(index) ==> {
                let v = old(self).draft_state()->Some_0;
                &&& v.can_pick(seat, index as int) ==> {
                    let after = v.after_pick(seat, index as int);
                    &&& outgoing_view(final(out)@) == outgoing_view(old(out)@)
                        + seq![OutgoingView::Send(seat, MessageView::PickSuccessful(v.picked_card(seat, index as int)))]
                        + pack_sends(old(self).seats(), v.shown(seat, index as int))
                        + if after.complete() { finished_sends(after.players, after.pools) } else { Seq::empty() }
                    &&& final(self).stage() == Stage::Draft ==> final(self).draft_state() == Some(after)
                    &&& final(self).stage() == Stage::Finished <==> after.complete()
                    &&& final(self).stage() == Stage::Finished ==> final(self).final_pools() == Some(final_pools_of(after))
                    &&& final(self).seats() == old(self).seats()
                }
                &&& !v.can_pick(seat, index as int) ==> {
                    &&& final(self).draft_state() == Some(v)
                    &&& outgoing_view(final(out)@) == outgoing_view(old(out)@) + match v.current_pack(seat) {
                        Some(p) => seq![OutgoingView::Send(seat, MessageView::Pack(p))],
                        None => Seq::empty(),
                    }
                }
            }),
            old(self).seats().contains(seat) && old(self).stage() == Stage::Lobby && msg is Disconnected ==> {
                &&& final(self).stage() == Stage::Lobby
                &&& final(self).seats() == old(self).seats().remove(old(self).seats().index_of(seat))
                &&& final(self).readiness() == Some(old(self).readiness()->Some_0.remove(old(self).seats().index_of(seat)))
                &&& outgoing_view(final(out)@) == outgoing_view(old(out)@) + broadcast_spec(
                    final(self).seats(),
                    MessageView::PlayerList(final(self).details_list()),
                    None,
                )
            },
            old(self).seats().contains(seat) && old(self).stage() != Stage::Lobby && msg is Disconnected ==> {
                let i = old(self).seats().index_of(seat);
                &&& final(self).seats() == old(self).seats()
                &&& final(self).draft_state() == old(self).draft_state()
                &&& final(self).known_status_of(i) == ClientStatus::Error
                &&& outgoing_view(final(out)@) == outgoing_view(old(out)@) + update_if_changed(
                    old(self).known_status_of(i) != ClientStatus::Error, old(self).seats(), final(self).client_details(i), seat)
            },
            old(self).seats().contains(seat) && old(self).stage() != Stage::Lobby && msg is ReadyState ==> {
                &&& final(self).seats() == old(self).seats()
                &&& final(self).stage() == old(self).stage()
                &&& final(self).draft_state() == old(self).draft_state()
                &&& final(out)@ == old(out)@
            },
            old(self).seats().contains(seat) && msg is Disconnected ==> final(self).stage() == old(self).stage(),
            old(self).seats().contains(seat) ==> (msg matches ClientMessage::SetName(n) ==> {
                &&& final(self).seats() == old(self).seats()
                &&& final(self).name_of(old(self).seats().index_of(seat)) == n@
                &&& final(self).stage() == old(self).stage()
                &&& final(self).client_details(old(self).seats().index_of(seat)).name == n@
                &&& outgoing_view(final(out)@) == outgoing_view(old(out)@) + broadcast_spec(
                    final(self).seats(),
                    MessageView::PlayerUpdate(final(self).client_details(old(self).seats().index_of(seat))),
                    Some(seat),
                )
            }),
            old(self).seats().contains(seat) && old(self).stage() == Stage::Lobby ==> (msg matches ClientMessage::ReadyState(r) ==> {
                let ready = old(self).readiness()->Some_0.update(old(self).seats().index_of(seat), r);
                &&& final(self).seats() == old(self).seats()
                &&& (forall|k: int| 0 <= k < ready.len() ==> ready[k]) ==> start_outcome(*old(self),
                    outgoing_view(old(out)@), *final(self), outgoing_view(final(out)@))
                &&& !(forall|k: int| 0 <= k < ready.len() ==> ready[k]) ==> {
                    &&& final(self).readiness() == Some(ready)
                    &&& final(self).client_details(old(self).seats().index_of(seat)).ready == r
                    &&& outgoing_view(final(out)@) == outgoing_view(old(out)@) + broadcast_spec(
                        final(self).seats(),
                        MessageView::PlayerUpdate(final(self).client_details(old(self).seats().index_of(seat))),
                        Some(seat),
                    )
                }
            }),
    {
        let i = match client_index(&self.clients, seat) {
            Some(i) => i,
            None => {
                return ;
            },
        };
        proof {
            assert(self.seats()[i as int] == seat);
            assert(self.seats().index_of(seat) == i as int) by {
                self.seats().index_of_first_ensures(seat);
            }
        }
        self.clients[i].heartbeat = now;
        proof {
            assert(self.seats() =~= old(self).seats());
            assert(self.clients@ =~= old(self).clients@.update(i as int, Client { heartbeat: now, ..old(self).clients@[i as int] }));
            assert(self.known_status_of(i as int) == old(self).known_status_of(i as int));
            assert(self.clients_view() =~= old(self).clients_view().update(i as int, ClientView {
                heartbeat: now,
                ..old(self).clients_view()[i as int]
            }));
        }
        let ghost base = self.clients_view();
        match msg {
            ClientMessage::HeartBeat => {},
            ClientMessage::ReadyState(ready) => {
                let in_lobby = match &mut self.phase {
                    Phase::Lobby(readys, ..) => {
                        readys[i] = (seat, ready);
                        true
                    },
                    _ => false,
                };
                if in_lobby {
                    proof {
                        let ready_seq = old(self).readiness()->Some_0.update(i as int, ready);
                        assert(self.readiness()->Some_0 =~= ready_seq);
                        assert(self.lobby_config() == old(self).lobby_config());
                        assert(self.lobby_pool() == old(self).lobby_pool());
                        assert(self.is_accepting() == old(self).is_accepting());
                        assert(self.seats().len() > 0);
                    }
                    let ghost mid = *self;
                    let ghost before = outgoing_view(out@);
                    if !self.start_if_ready(out) {
                        self.broadcast_player_update(out, seat);
                    } else {
                        proof {
                            lemma_start_outcome_transfer(mid, *old(self), before, *self, outgoing_view(out@));
                        }
                    }
                }
            },
            ClientMessage::Disconnected => {
                let in_lobby = match &mut self.phase {
                    Phase::Lobby(readys, ..) => {
                        readys.remove(i);
                        true
                    },
                    _ => false,
                };
                if in_lobby {
                    self.clients.remove(i);
                    proof {
                        assert(self.clients_view() =~= base.remove(i as int));
                        assert(self.seats() =~= old(self).seats().remove(i as int));
                        assert forall|a: int, b: int| 0 <= a < b < self.seats().len() implies self.seats()[a] != self.seats()[b] by {
                            let o = old(self).seats();
                            let oa = if a < i { a } else { a + 1 };
                            let ob = if b < i { b } else { b + 1 };
                            assert(self.seats()[a] == o[oa]);
                            assert(self.seats()[b] == o[ob]);
                        }
                    }
                    proof {
                        assert(self.readiness()->Some_0 =~= old(self).readiness()->Some_0.remove(i as int));
                    }
                    let list = ServerMessage::PlayerList(self.player_list());
                    proof {
                        assert(details_view(list->PlayerList_0@) =~= self.details_list());
                    }
                    broadcast(&self.clients, out, &list, None);
                } else {
                    self.set_client_status(out, i, ClientStatus::Error);
                    proof {
                        assert(self.clients_view() =~= base.update(i as int, ClientView {
                            known_status: ClientStatus::Error,
                            ..base[i as int]
                        }));
                        assert(self.seats()[i as int] == seat);
                        assert(self.known_status_of(i as int) == ClientStatus::Error);
                    }
                }
            },
            ClientMessage::SetName(name) => {
                let ghost n = name@;
                self.clients[i].name = name;
                proof {
                    assert(self.clients_view() =~= base.update(i as int, ClientView { name: n, ..base[i as int] }));
                    assert(self.seats() =~= old(self).seats());
                }
                self.broadcast_player_update(out, seat);
            },
            ClientMessage::Pick(index) => {
                let picked = match &mut self.phase {
                    Phase::Draft(draft) => Some(
                        match draft.handle_pick(seat, index) {
                            Ok((card, packs)) => Ok((card, packs)),
                            Err(_) => Err(draft.current_pack(seat)),
                        },
                    ),
                    _ => None,
                };
                match picked {
                    None => {
                        out.push(Outgoing::Send(seat, ServerMessage::Refresh));
                    },
                    Some(Ok((card, packs))) => {
                        let ghost mark = out@;
                        let ghost shown = packs_view(packs@);
                        let ghost c = card;
                        out.push(Outgoing::Send(seat, ServerMessage::PickSuccessful(card)));
                        let ghost pushed = out@;
                        let mut rest: Vec<Outgoing> = Vec::new();
                        proof {
                            assert(outgoing_view(rest@) =~= Seq::empty());
                        }
                        DraftServer::send_packs(&self.clients, &mut rest, packs);
                        let ghost sent = rest@;
                        self.finish_if_done(&mut rest);
                        let ghost tail = rest@;
                        out.append(&mut rest);
                        proof {
                            assert(outgoing_view(pushed) =~= outgoing_view(mark)
                                + seq![OutgoingView::Send(seat, MessageView::PickSuccessful(c))]);
                            assert(outgoing_view(sent) =~= pack_sends(old(self).seats(), shown));
                            assert(outgoing_view(out@) =~= outgoing_view(pushed) + outgoing_view(tail));
                        }
                    },
                    Some(Err(Some(pack))) => {
                        out.push(Outgoing::Send(seat, ServerMessage::Pack(pack)));
                    },
                    Some(Err(None)) => {},
                }
            },
        }
    }

    /// Handles one request and returns what is to be done, in order.
    /// `closed` lists the seats whose connection has closed; `now` is the
    /// time, recorded as a heartbeat for messages.
    pub fn handle_request(&mut self, req: DraftServerRequest, now: u64, closed: &Vec<Seat>) -> (out: Vec<Outgoing>)
        requires
            old(self).wf(),
        ensures
            final(self).wf(),
            final(self).lobby_id() == old(self).lobby_id(),
            stage_rank(final(self).stage()) >= stage_rank(old(self).stage()),
            final(self).stage() != Stage::Terminated ==> final(self).is_accepting() == old(self).is_accepting(),
            req matches DraftServerRequest::Terminate(_) ==> final(self).phase_view() == PhaseView::Terminated
                && final(self).clients_view() == refreshed(old(self).clients_view(), closed@),
            req matches DraftServerRequest::Connect(seat) ==> {
                let cs = refreshed(old(self).clients_view(), closed@);
                let i = old(self).seats().index_of(seat);
                &&& old(self).seats().contains(seat) ==> {
                    &&& final(self).phase_view() == old(self).phase_view()
                    &&& final(self).clients_view() == cs.update(i, ClientView {
                        known_status: ClientStatus::Healthy,
                        link_open: true,
                        ..cs[i]
                    })
                }
                &&& !old(self).seats().contains(seat) && old(self).stage() == Stage::Lobby ==> {
                    &&& final(self).phase_view() == PhaseView::Lobby(old(self).readiness()->Some_0.push(false),
                        old(self).lobby_config()->Some_0, old(self).lobby_pool()->Some_0)
                    &&& final(self).clients_view() == cs.push(ClientView {
                        seat,
                        name: crate::messages::uuid_text(seat).subrange(0, 8),
                        known_status: ClientStatus::Healthy,
                        heartbeat: now,
                        link_open: true,
                    })
                }
                &&& !old(self).seats().contains(seat) && old(self).stage() != Stage::Lobby ==> {
                    &&& final(self).phase_view() == old(self).phase_view()
                    &&& final(self).clients_view() == cs
                }
            },
            req matches DraftServerRequest::Message(seat, msg) ==> {
                let cs = refreshed(old(self).clients_view(), closed@);
                let i = old(self).seats().index_of(seat);
                &&& !old(self).seats().contains(seat) ==> final(self).phase_view() == old(self).phase_view()
                    && final(self).clients_view() == cs
                &&& old(self).seats().contains(seat) ==> final(self).clients_view() == message_clients(cs, i, now, msg,
                    old(self).stage() == Stage::Lobby)
                &&& old(self).seats().contains(seat) && !(old(self).stage() == Stage::Draft && msg is Pick)
                    && !(old(self).stage() == Stage::Lobby && msg is ReadyState && final(self).stage() != Stage::Lobby)
                    ==> final(self).phase_view() == message_phase(old(self).phase_view(), i, msg)
                &&& old(self).seats().contains(seat) && old(self).stage() == Stage::Draft && msg is Pick ==> {
                    let v = old(self).draft_state()->Some_0;
                    let index = msg->Pick_0 as int;
                    let after = v.after_pick(seat, index);
                    &&& v.can_pick(seat, index) && after.complete() ==> final(self).phase_view() == PhaseView::Finished(final_pools_of(after))
                    &&& v.can_pick(seat, index) && !after.complete() ==> final(self).phase_view() == PhaseView::Draft(after)
                    &&& !v.can_pick(seat, index) ==> final(self).phase_view() == old(self).phase_view()
                }
            },
            req matches DraftServerRequest::Terminate(reason) ==> {
                &&& final(self).stage() == Stage::Terminated
                &&& !final(self).is_accepting()
                &&& final(self).seats() == old(self).seats()
                &&& outgoing_view(out@) == seq![OutgoingView::CloseRequests]
                    + broadcast_spec(old(self).seats(), MessageView::FatalError(reason@), None)
            },
            req matches DraftServerRequest::Connect(seat) ==> {
                &&& final(self).stage() == old(self).stage()
                &&& final(self).draft_state() == old(self).draft_state()
                &&& old(self).seats().contains(seat) ==> final(self).seats() == old(self).seats() && out@.len() > 0
                    && out@[0]@ == OutgoingView::Attach(seat)
                    && outgoing_view(out@) == seq![OutgoingView::Attach(seat)] + update_if_changed(
                        old(self).known_status_of(old(self).seats().index_of(seat)) != ClientStatus::Healthy, old(self).seats(),
                        final(self).client_details(old(self).seats().index_of(seat)), seat) + welcome_msgs(*final(self), seat)
                &&& !old(self).seats().contains(seat) && old(self).stage() == Stage::Lobby ==> {
                    let n = old(self).seats().len() as int;
                    &&& final(self).seats() == old(self).seats().push(seat)
                    &&& final(self).name_of(n) == crate::messages::uuid_text(seat).subrange(0, 8)
                    &&& final(self).readiness() == Some(old(self).readiness()->Some_0.push(false))
                    &&& final(self).client_details(n) == (DetailsView { seat, name: crate::messages::uuid_text(seat).subrange(0, 8),
                        ready: false, status: ClientStatus::Healthy })
                    &&& outgoing_view(out@) == seq![OutgoingView::Attach(seat),
                        OutgoingView::Send(seat, MessageView::Connected(old(self).lobby_id(), seat))]
                        + broadcast_spec(final(self).seats(), MessageView::PlayerList(final(self).details_list()), None)
                }
                &&& !old(self).seats().contains(seat) && old(self).stage() != Stage::Lobby ==> {
                    &&& final(self).seats() == old(self).seats()
                    &&& outgoing_view(out@) == seq![OutgoingView::Reply(MessageView::Started)]
                }
            },
            req matches DraftServerRequest::Message(seat, ClientMessage::Pick(index)) ==> {
                &&& old(self).seats().contains(seat) && old(self).stage() != Stage::Draft ==> {
                    &&& outgoing_view(out@) == seq![OutgoingView::Send(seat, MessageView::Refresh)]
                    &&& final(self).stage() == old(self).stage()
                }
                &&& old(self).seats().contains(seat) && old(self).stage() == Stage::Draft ==> {
                    let v = old(self).draft_state()->Some_0;
                    &&& v.can_pick(seat, index as int) ==> {
                        let after = v.after_pick(seat, index as int);
                        &&& outgoing_view(out@) == seq![OutgoingView::Send(seat, MessageView::PickSuccessful(v.picked_card(seat, index as int)))]
                            + pack_sends(old(self).seats(), v.shown(seat, index as int))
                            + if after.complete() { finished_sends(after.players, after.pools) } else { Seq::empty() }
                        &&& final(self).stage() == Stage::Draft ==> final(self).draft_state() == Some(after)
                        &&& final(self).stage() == Stage::Finished <==> after.complete()
                        &&& final(self).stage() == Stage::Finished ==> final(self).final_pools() == Some(final_pools_of(after))
                    }
                    &&& !v.can_pick(seat, index as int) ==> {
                        &&& final(self).draft_state() == Some(v)
                        &&& outgoing_view(out@) == match v.current_pack(seat) {
                            Some(p) => seq![OutgoingView::Send(seat, MessageView::Pack(p))],
                            None => Seq::empty(),
                        }
                    }
                }
            },
            req matches DraftServerRequest::Message(seat, ClientMessage::Disconnected) ==> (old(self).seats().contains(seat) ==> {
                let i = old(self).seats().index_of(seat);
                &&& final(self).stage() == old(self).stage()
                &&& old(self).stage() == Stage::Lobby ==> {
                    &&& final(self).seats() == old(self).seats().remove(i)
                    &&& final(self).readiness() == Some(old(self).readiness()->Some_0.remove(i))
                    &&& outgoing_view(out@) == broadcast_spec(final(self).seats(), MessageView::PlayerList(final(self).details_list()), None)
                }
                &&& old(self).stage() != Stage::Lobby ==> {
                    &&& final(self).seats() == old(self).seats()
                    &&& final(self).draft_state() == old(self).draft_state()
                    &&& final(self).known_status_of(i) == ClientStatus::Error
                    &&& outgoing_view(out@) == update_if_changed(old(self).known_status_of(i) != ClientStatus::Error,
                        old(self).seats(), final(self).client_details(i), seat)
                }
            }),
            req matches DraftServerRequest::Message(seat, ClientMessage::SetName(n)) ==> (old(self).seats().contains(seat) ==> {
                &&& final(self).seats() == old(self).seats()
                &&& final(self).name_of(old(self).seats().index_of(seat)) == n@
                &&& final(self).stage() == old(self).stage()
                &&& final(self).client_details(old(self).seats().index_of(seat)).name == n@
                &&& outgoing_view(out@) == broadcast_spec(
                    final(self).seats(),
                    MessageView::PlayerUpdate(final(self).client_details(old(self).seats().index_of(seat))),
                    Some(seat),
                )
            }),
            req matches DraftServerRequest::Message(seat, ClientMessage::ReadyState(r)) ==> (old(self).seats().contains(seat) ==> {
                &&& old(self).stage() != Stage::Lobby ==> {
                    &&& final(self).seats() == old(self).seats()
                    &&& final(self).stage() == old(self).stage()
                    &&& final(self).draft_state() == old(self).draft_state()
                    &&& out@.len() == 0
                }
                &&& old(self).stage() == Stage::Lobby ==> {
                    let ready = old(self).readiness()->Some_0.update(old(self).seats().index_of(seat), r);
                    &&& final(self).seats() == old(self).seats()
                    &&& (forall|k: int| 0 <= k < ready.len() ==> ready[k]) ==> start_outcome(*old(self),
                        Seq::empty(), *final(self), outgoing_view(out@))
                    &&& !(forall|k: int| 0 <= k < ready.len() ==> ready[k]) ==> {
                        &&& final(self).readiness() == Some(ready)
                        &&& final(self).client_details(old(self).seats().index_of(seat)).ready == r
                        &&& outgoing_view(out@) == broadcast_spec(
                            final(self).seats(),
                            MessageView::PlayerUpdate(final(self).client_details(old(self).seats().index_of(seat))),
                            Some(seat),
                        )
                    }
                }
            }),
            req matches DraftServerRequest::Message(seat, _) && !old(self).seats().contains(seat) ==> {
                &&& out@.len() == 0
                &&& final(self).stage() == old(self).stage()
                &&& final(self).seats() == old(self).seats()
            },
    {
        let mut i: usize = 0;
        while i < self.clients.len()
            invariant
                i <= self.clients@.len(),
                self.wf(),
                self.seats() == old(self).seats(),
                self.phase == old(self).phase,
                self.id == old(self).id,
                self.accepting == old(self).accepting,
                self.clients@.len() == old(self).clients@.len(),
                forall|j: int| 0 <= j < self.clients@.len() ==> (#[trigger] self.clients@[j]) == (Client {
                    link_open: self.clients@[j].link_open, ..old(self).clients@[j] }),
                forall|j: int| 0 <= j < i ==> (#[trigger] self.clients@[j]).link_open == !closed@.contains(self.clients@[j].id),
            decreases self.clients@.len() - i,
        {
            let id = self.clients[i].id;
            let mut open = true;
            let mut k: usize = 0;
            while k < closed.len()
                invariant
                    k <= closed@.len(),
                    open == !closed@.subrange(0, k as int).contains(id),
                decreases closed@.len() - k,
            {
                let ghost prev = closed@.subrange(0, k as int);
                let ghost next = closed@.subrange(0, k + 1);
                proof {
                    assert(next =~= prev.push(closed@[k as int]));
                    if closed@[k as int] == id {
                        assert(next[k as int] == id);
                    } else {
                        assert(next.contains(id) ==> prev.contains(id)) by {
                            if next.contains(id) {
                                let j = choose|j: int| 0 <= j < next.len() && next[j] == id;
                                assert(j < k);
                                assert(prev[j] == id);
                            }
                        }
                        assert(prev.contains(id) ==> next.contains(id)) by {
                            if prev.contains(id) {
                                let j = choose|j: int| 0 <= j < prev.len() && prev[j] == id;
                                assert(next[j] == id);
                            }
                        }
                    }
                }
                if closed[k] == id {
                    open = false;
                }
                k = k + 1;
            }
            proof {
                assert(closed@.subrange(0, k as int) =~= closed@);
            }
            let ghost before = self.clients@;
            self.clients[i].link_open = open;
            proof {
                assert(self.seats() =~= old(self).seats());
                assert forall|j: int| 0 <= j < self.clients@.len() implies #[trigger] self.clients@[j].id == before[j].id by {}
                assert forall|j: int| 0 <= j < self.clients@.len() implies (#[trigger] self.clients@[j]) == (Client {
                    link_open: self.clients@[j].link_open, ..old(self).clients@[j] }) by {
                    if j != i {
                        assert(self.clients@[j] == before[j]);
                    }
                }
            }
            i = i + 1;
        }
        proof {
            assert forall|j: int| 0 <= j < self.clients@.len() implies #[trigger] self.known_status_of(j) == old(self).known_status_of(j) by {
                assert(self.clients@[j] == (Client { link_open: self.clients@[j].link_open, ..old(self).clients@[j] }));
            }
            assert(self.clients_view() =~= refreshed(old(self).clients_view(), closed@));
            assert(self.phase_view() == old(self).phase_view());
        }
        let mut out: Vec<Outgoing> = Vec::new();
        match req {
            DraftServerRequest::Connect(seat) => {
                proof {
                    assert(outgoing_view(out@) =~= Seq::empty());
                }
                let ghost mid = *self;
                self.handle_client_connection(&mut out, seat, now);
                proof {
                    if old(self).seats().contains(seat) {
                        let i = old(self).seats().index_of(seat);
                        assert(outgoing_view(out@) =~= seq![OutgoingView::Attach(seat)] + update_if_changed(
                            old(self).known_status_of(i) != ClientStatus::Healthy, old(self).seats(),
                            self.client_details(i), seat) + welcome_msgs(*self, seat));
                        assert(outgoing_view(out@)[0] == OutgoingView::Attach(seat));
                        assert(outgoing_view(out@)[0] == out@[0]@);
                    } else if old(self).stage() == Stage::Lobby {
                        assert(outgoing_view(out@) =~= seq![OutgoingView::Attach(seat),
                            OutgoingView::Send(seat, MessageView::Connected(old(self).lobby_id(), seat))]
                            + broadcast_spec(self.seats(), MessageView::PlayerList(self.details_list()), None));
                    } else {
                        assert(outgoing_view(out@) =~= seq![OutgoingView::Reply(MessageView::Started)]);
                    }
                }
            },
            DraftServerRequest::Message(seat, msg) => {
                proof {
                    assert(outgoing_view(out@) =~= Seq::empty());
                }
                let ghost r0 = *self;
                self.handle_client_message(&mut out, seat, msg, now);
                proof {
                    if start_outcome(r0, Seq::empty(), *self, outgoing_view(out@)) {
                        lemma_start_outcome_transfer(r0, *old(self), Seq::empty(), *self, outgoing_view(out@));
                    }
                }
            },
            DraftServerRequest::Terminate(reason) => {
                self.terminate(&mut out, reason);
            },
        }
        out
    }
}

} // verus!
