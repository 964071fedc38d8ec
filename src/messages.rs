use vstd::prelude::*;
use vstd::string::StringExecFns;

use crate::cards::Card;
use crate::game::{clone_pack, Seat};
use crate::packs::Pack;

verus! {

/// Connection health of a client as reported to the other players.
#[derive(Clone, Copy, Debug, PartialEq, Eq, Structural)]
pub enum ClientStatus {
    Healthy,
    Warning,
    Error,
}

/// What the other players see of a client.
#[derive(Debug)]
pub struct PlayerDetails {
    pub seat: Seat,
    pub name: String,
    pub ready: bool,
    pub status: ClientStatus,
}

pub struct DetailsView {
    pub seat: Seat,
    pub name: Seq<char>,
    pub ready: bool,
    pub status: ClientStatus,
}

impl View for PlayerDetails {
    type V = DetailsView;

    open spec fn view(&self) -> DetailsView {
        DetailsView { seat: self.seat, name: self.name@, ready: self.ready, status: self.status }
    }
}

impl PlayerDetails {
    pub fn duplicate(&self) -> (r: PlayerDetails)
        ensures
            r@ == self@,
    {
        PlayerDetails { seat: self.seat, name: self.name.clone(), ready: self.ready, status: self.status }
    }
}

/// A message from the server to one client.
#[derive(Debug)]
pub enum ServerMessage {
    /// The draft already started; the seat cannot join.
    Started,
    /// The draft has ended.
    Ended,
    /// The lobby stopped on a fatal error.
    FatalError(String),
    /// A pack to pick from.
    Pack(Pack),
    /// The pick went through; the pack has been passed on.
    PickSuccessful(Card),
    /// The draft is over; the seat's final pool.
    Finished(Vec<Card>),
    /// Joined the lobby.
    Connected { draft: u128, seat: Seat },
    /// Came back to a draft in progress or finished.
    Reconnected { draft: u128, seat: Seat, in_progress: bool, pool: Vec<Card>, pack: Option<Vec<Card>> },
    /// The client asked for something its state cannot explain: it should
    /// reload.
    Refresh,
    /// The players of the lobby.
    PlayerList(Vec<PlayerDetails>),
    /// A change of one player's name, readiness or status.
    PlayerUpdate(PlayerDetails),
}

pub enum MessageView {
    Started,
    Ended,
    FatalError(Seq<char>),
    Pack(Seq<Card>),
    PickSuccessful(Card),
    Finished(Seq<Card>),
    Connected(u128, Seat),
    Reconnected(u128, Seat, bool, Seq<Card>, Option<Seq<Card>>),
    Refresh,
    PlayerList(Seq<DetailsView>),
    PlayerUpdate(DetailsView),
}

pub open spec fn details_view(v: Seq<PlayerDetails>) -> Seq<DetailsView> {
    v.map_values(|d: PlayerDetails| d@)
}

impl View for ServerMessage {
    type V = MessageView;

    open spec fn view(&self) -> MessageView {
        match self {
            ServerMessage::Started => MessageView::Started,
            ServerMessage::Ended => MessageView::Ended,
            ServerMessage::FatalError(s) => MessageView::FatalError(s@),
            ServerMessage::Pack(p) => MessageView::Pack(p@),
            ServerMessage::PickSuccessful(c) => MessageView::PickSuccessful(*c),
            ServerMessage::Finished(p) => MessageView::Finished(p@),
            ServerMessage::Connected { draft, seat } => MessageView::Connected(*draft, *seat),
            ServerMessage::Reconnected { draft, seat, in_progress, pool, pack } => MessageView::Reconnected(
                *draft,
                *seat,
                *in_progress,
                pool@,
                match pack {
                    Some(p) => Some(p@),
                    None => None,
                },
            ),
            ServerMessage::Refresh => MessageView::Refresh,
            ServerMessage::PlayerList(l) => MessageView::PlayerList(details_view(l@)),
            ServerMessage::PlayerUpdate(d) => MessageView::PlayerUpdate(d@),
        }
    }
}

pub fn clone_details(list: &Vec<PlayerDetails>) -> (r: Vec<PlayerDetails>)
    ensures
        details_view(r@) == details_view(list@),
{
    let mut out: Vec<PlayerDetails> = Vec::new();
    let mut i: usize = 0;
    while i < list.len()
        invariant
            i <= list@.len(),
            details_view(out@) == details_view(list@.subrange(0, i as int)),
        decreases list@.len() - i,
    {
        let ghost prev = out@;
        out.push(list[i].duplicate());
        i = i + 1;
        assert(details_view(out@) =~= details_view(prev).push(list@[i - 1]@));
        assert(details_view(out@) =~= details_view(list@.subrange(0, i as int)));
    }
    assert(list@.subrange(0, list@.len() as int) =~= list@);
    out
}

impl ServerMessage {
    /// A copy of this message.
    pub fn duplicate(&self) -> (r: ServerMessage)
        ensures
            r@ == self@,
    {
        match self {
            ServerMessage::Started => ServerMessage::Started,
            ServerMessage::Ended => ServerMessage::Ended,
            ServerMessage::FatalError(s) => ServerMessage::FatalError(s.clone()),
            ServerMessage::Pack(p) => ServerMessage::Pack(clone_pack(p)),
            ServerMessage::PickSuccessful(c) => ServerMessage::PickSuccessful(c.duplicate()),
            ServerMessage::Finished(p) => ServerMessage::Finished(clone_pack(p)),
            ServerMessage::Connected { draft, seat } => ServerMessage::Connected { draft: *draft, seat: *seat },
            ServerMessage::Reconnected { draft, seat, in_progress, pool, pack } => {
                let pack = match pack {
                    Some(p) => Some(clone_pack(p)),
                    None => None,
                };
                ServerMessage::Reconnected {
                    draft: *draft,
                    seat: *seat,
                    in_progress: *in_progress,
                    pool: clone_pack(pool),
                    pack,
                }
            },
            ServerMessage::Refresh => ServerMessage::Refresh,
            ServerMessage::PlayerList(l) => ServerMessage::PlayerList(clone_details(l)),
            ServerMessage::PlayerUpdate(d) => ServerMessage::PlayerUpdate(d.duplicate()),
        }
    }
}

/// A message from a client to the server.
#[derive(Debug)]
pub enum ClientMessage {
    HeartBeat,
    ReadyState(bool),
    Disconnected,
    SetName(String),
    Pick(usize),
}

/// A request to a lobby. The connection a `Connect` comes from stays with
/// the caller, which binds it as the lobby's answer says.
#[derive(Debug)]
pub enum DraftServerRequest {
    Connect(Seat),
    Message(Seat, ClientMessage),
    Terminate(String),
}

/// What the lobby asks its caller to do, in order.
#[derive(Debug)]
pub enum Outgoing {
    /// Make the requesting connection the seat's connection, replacing any
    /// earlier one.
    Attach(Seat),
    /// Send a message on the requesting connection.
    Reply(ServerMessage),
    /// Send a message on the seat's connection.
    Send(Seat, ServerMessage),
    /// Accept no further requests.
    CloseRequests,
}

pub enum OutgoingView {
    Attach(Seat),
    Reply(MessageView),
    Send(Seat, MessageView),
    CloseRequests,
}

impl View for Outgoing {
    type V = OutgoingView;

    open spec fn view(&self) -> OutgoingView {
        match self {
            Outgoing::Attach(s) => OutgoingView::Attach(*s),
            Outgoing::Reply(m) => OutgoingView::Reply(m@),
            Outgoing::Send(s, m) => OutgoingView::Send(*s, m@),
            Outgoing::CloseRequests => OutgoingView::CloseRequests,
        }
    }
}

pub open spec fn outgoing_view(v: Seq<Outgoing>) -> Seq<OutgoingView> {
    v.map_values(|o: Outgoing| o@)
}

/// One lowercase hexadecimal digit.
pub open spec fn hex_digit(d: int) -> char {
    seq!['0', '1', '2', '3', '4', '5', '6', '7', '8', '9', 'a', 'b', 'c', 'd', 'e', 'f'][d]
}

/// The last `n` hexadecimal digits of `v`, most significant first.
pub open spec fn hex_digits(v: nat, n: nat) -> Seq<char>
    decreases n,
{
    if n == 0 {
        Seq::empty()
    } else {
        hex_digits(v / 16, (n - 1) as nat).push(hex_digit((v % 16) as int))
    }
}

/// A 128-bit identifier in the hyphenated form: 32 lowercase hexadecimal
/// digits grouped 8-4-4-4-12.
pub open spec fn uuid_text(v: u128) -> Seq<char> {
    let d = hex_digits(v as nat, 32);
    d.subrange(0, 8) + seq!['-'] + d.subrange(8, 12) + seq!['-'] + d.subrange(12, 16) + seq!['-']
        + d.subrange(16, 20) + seq!['-'] + d.subrange(20, 32)
}

pub proof fn lemma_hex_digits_len(v: nat, n: nat)
    ensures
        hex_digits(v, n).len() == n,
    decreases n,
{
    if n > 0 {
        lemma_hex_digits_len(v / 16, (n - 1) as nat);
    }
}

pub open spec fn pow16(n: nat) -> nat
    decreases n,
{
    if n == 0 {
        1
    } else {
        16 * pow16((n - 1) as nat)
    }
}

proof fn lemma_hex_digit_injective(a: int, b: int)
    requires
        0 <= a < 16,
        0 <= b < 16,
        hex_digit(a) == hex_digit(b),
    ensures
        a == b,
{
    let s = seq!['0', '1', '2', '3', '4', '5', '6', '7', '8', '9', 'a', 'b', 'c', 'd', 'e', 'f'];
    assert(s[a] == s[b]);
    assert(s =~= seq!['0', '1', '2', '3', '4', '5', '6', '7', '8', '9', 'a', 'b', 'c', 'd', 'e', 'f']);
    if a != b {
        assert(a == 0 || a == 1 || a == 2 || a == 3 || a == 4 || a == 5 || a == 6 || a == 7 || a == 8 || a == 9
            || a == 10 || a == 11 || a == 12 || a == 13 || a == 14 || a == 15);
        assert(b == 0 || b == 1 || b == 2 || b == 3 || b == 4 || b == 5 || b == 6 || b == 7 || b == 8 || b == 9
            || b == 10 || b == 11 || b == 12 || b == 13 || b == 14 || b == 15);
    }
}

proof fn lemma_hex_digits_determine(a: nat, b: nat, n: nat)
    requires
        hex_digits(a, n) == hex_digits(b, n),
    ensures
        a % pow16(n) == b % pow16(n),
    decreases n,
{
    if n > 0 {
        let m = (n - 1) as nat;
        assert(hex_digits(a, n).drop_last() =~= hex_digits(a / 16, m));
        assert(hex_digits(b, n).drop_last() =~= hex_digits(b / 16, m));
        assert(hex_digits(a, n).last() == hex_digit((a % 16) as int));
        assert(hex_digits(b, n).last() == hex_digit((b % 16) as int));
        lemma_hex_digit_injective((a % 16) as int, (b % 16) as int);
        lemma_hex_digits_determine(a / 16, b / 16, m);
        lemma_pow16_positive(m);
        vstd::arithmetic::div_mod::lemma_mod_breakdown(a as int, 16, pow16(m) as int);
        vstd::arithmetic::div_mod::lemma_mod_breakdown(b as int, 16, pow16(m) as int);
    }
}

proof fn lemma_pow16_positive(n: nat)
    ensures
        pow16(n) > 0,
    decreases n,
{
    if n > 0 {
        lemma_pow16_positive((n - 1) as nat);
    }
}

/// Different values have different text forms.
pub proof fn lemma_uuid_text_injective(a: u128, b: u128)
    requires
        uuid_text(a) == uuid_text(b),
    ensures
        a == b,
{
    lemma_hex_digits_len(a as nat, 32);
    lemma_hex_digits_len(b as nat, 32);
    let ta = uuid_text(a);
    let da = hex_digits(a as nat, 32);
    let db = hex_digits(b as nat, 32);
    assert(da =~= ta.subrange(0, 8) + ta.subrange(9, 13) + ta.subrange(14, 18) + ta.subrange(19, 23) + ta.subrange(24, 36));
    assert(db =~= ta.subrange(0, 8) + ta.subrange(9, 13) + ta.subrange(14, 18) + ta.subrange(19, 23) + ta.subrange(24, 36));
    lemma_hex_digits_determine(a as nat, b as nat, 32);
    assert(pow16(32) == 0x1_0000_0000_0000_0000_0000_0000_0000_0000nat) by {
        reveal_with_fuel(pow16, 33);
    }
    vstd::arithmetic::div_mod::lemma_small_mod(a as nat, pow16(32));
    vstd::arithmetic::div_mod::lemma_small_mod(b as nat, pow16(32));
}

/// Relies on uuid's `Uuid::from_u128` and its `Display` impl: the
/// hyphenated lowercase form of the value, bytes in big-endian order.
#[verifier::external_body]
pub(crate) fn uuid_string(v: u128) -> (r: String)
    ensures
        r@ == uuid_text(v),
{
    uuid::Uuid::from_u128(v).to_string()
}

/// The name a new client starts with: the first eight characters of its
/// seat's text form.
pub fn default_name(seat: Seat) -> (r: String)
    ensures
        r@ == uuid_text(seat).subrange(0, 8),
{
    proof {
        lemma_hex_digits_len(seat as nat, 32);
    }
    let text = uuid_string(seat);
    String::from_str(text.as_str().substring_char(0, 8))
}

} // verus!
