use vstd::prelude::*;
use crate::model::{Message, MessageView, Status, copy_bytes};

verus! {

/// A connected client, as the server tracks it.
#[derive(Debug, Clone, Copy, PartialEq, Eq, Structural)]
pub struct Client {
    /// The player id the client claims (0 before it has claimed one).
    pub player: u8,
    /// Where the client stands in the battle.
    pub status: Status,
    /// Whether the client's channel still takes messages.
    pub active: bool,
    /// Whether the server has dropped the client from the battle: a dropped client is
    /// sent nothing and heard no more.
    pub dropped: bool,
}

impl Client {
    /// A client that has just connected.
    pub fn new() -> (r: Client)
        ensures
            r == (Client { player: 0, status: Status::Connected, active: true, dropped: false }),
    {
        Client { player: 0, status: Status::Connected, active: true, dropped: false }
    }

    /// Records a send to this client and says whether the message went out.
    ///
    /// `delivered` is whether the client's channel took the message; it is consulted
    /// only while the client is active, for an inactive client is not sent to at all.
    /// A send that fails makes the client inactive for good.
    pub fn send(&mut self, delivered: bool) -> (r: bool)
        ensures
            r == (old(self).active && delivered),
            final(self).active == r,
            final(self).player == old(self).player,
            final(self).status == old(self).status,
            final(self).dropped == old(self).dropped,
    {
        if !self.active {
            return false;
        }
        if delivered {
            true
        } else {
            self.active = false;
            false
        }
    }
}

/// A message to be sent to the client at index `client` of the server's list.
#[derive(Debug)]
pub struct Outgoing {
    pub client: usize,
    pub msg: Message,
}

/// The messages of a list of outgoing messages, each with its client's index.
pub open spec fn outgoing_view(out: Seq<Outgoing>) -> Seq<(int, MessageView)> {
    out.map_values(|o: Outgoing| (o.client as int, o.msg@))
}

/// The messages among `sends` that go to client `c`, in order.
pub open spec fn messages_to(sends: Seq<(int, MessageView)>, c: int) -> Seq<MessageView>
    decreases sends.len(),
{
    if sends.len() == 0 {
        Seq::empty()
    } else {
        messages_to(sends.drop_last(), c) + if sends.last().0 == c {
            seq![sends.last().1]
        } else {
            Seq::empty()
        }
    }
}

/// The stages of a battle, in the order they come.
#[derive(Debug, Clone, Copy, PartialEq, Eq, Structural)]
pub enum Phase {
    /// Waiting for enough players to announce themselves.
    Preparing,
    /// Sending the battle's metadata until enough players are ready.
    Loading,
    /// Asking players to start until enough have started.
    Starting,
    /// Broadcasting data frames until enough players have stopped.
    Running,
    /// The battle is over.
    Stopped,
}

/// The position of a phase in the order `Preparing, Loading, Starting, Running, Stopped`.
pub open spec fn phase_rank(p: Phase) -> nat {
    match p {
        Phase::Preparing => 0,
        Phase::Loading => 1,
        Phase::Starting => 2,
        Phase::Running => 3,
        Phase::Stopped => 4,
    }
}

/// The mathematical state of a server.
pub struct ServerView {
    pub clients: Seq<Client>,
    pub connected: u64,
    pub players: Seq<u8>,
    pub cache: Seq<MessageView>,
    pub frame: usize,
    pub phase: Phase,
    pub battle: u8,
    pub needed: u8,
}

/// The battle coordinator: the clients, the players taking part, the inputs waiting
/// for the next data frame, and the battle's stage.
pub struct Server {
    clients: Vec<Client>,
    connected: u64,
    players: Vec<u8>,
    cache: Vec<Message>,
    frame: usize,
    phase: Phase,
    battle: u8,
    needed: u8,
}

impl View for Server {
    type V = ServerView;

    closed spec fn view(&self) -> ServerView {
        ServerView {
            clients: self.clients@,
            connected: self.connected,
            players: self.players@,
            cache: self.cache@.map_values(|m: Message| m@),
            frame: self.frame,
            phase: self.phase,
            battle: self.battle,
            needed: self.needed,
        }
    }
}

/// Whether a client takes part in the battle and waits for it.
pub open spec fn kept_waiting(c: Client) -> bool {
    !c.dropped && c.status == Status::Wait
}

/// No two clients that wait for the battle hold the same player id.
pub open spec fn waiting_distinct(cs: Seq<Client>) -> bool {
    forall|i: int, j: int|
        0 <= i < cs.len() && 0 <= j < cs.len() && i != j && kept_waiting(cs[i]) && kept_waiting(
            cs[j],
        ) ==> #[trigger] cs[i].player != #[trigger] cs[j].player
}

/// The server's invariant: the clients that wait for the battle hold distinct ids, and
/// while the battle is being prepared no client is dropped and no player is listed.
pub open spec fn server_wf(s: ServerView) -> bool {
    &&& waiting_distinct(s.clients)
    &&& s.phase == Phase::Preparing ==> s.players.len() == 0 && forall|i: int|
        0 <= i < s.clients.len() ==> !(#[trigger] s.clients[i]).dropped
}

/// The actions of all `DataInput` messages of `cache`, in order.
pub open spec fn cache_actions(cache: Seq<MessageView>) -> Seq<u8>
    decreases cache.len(),
{
    if cache.len() == 0 {
        Seq::empty()
    } else {
        cache_actions(cache.drop_last()) + match cache.last() {
            MessageView::DataInput { actions, .. } => actions,
            _ => Seq::empty(),
        }
    }
}

/// How many of the first `k` clients take part and have status `st`.
pub open spec fn count_status(cs: Seq<Client>, st: Status, k: nat) -> nat
    decreases k,
{
    if k == 0 {
        0
    } else {
        count_status(cs, st, (k - 1) as nat) + if !cs[k - 1].dropped && cs[k - 1].status == st {
            1nat
        } else {
            0nat
        }
    }
}

/// The ids of the clients among the first `k` that wait for the battle, in order.
pub open spec fn waiting_players(cs: Seq<Client>, k: nat) -> Seq<u8>
    decreases k,
{
    if k == 0 {
        Seq::empty()
    } else {
        let prev = waiting_players(cs, (k - 1) as nat);
        if kept_waiting(cs[k - 1]) {
            prev.push(cs[k - 1].player)
        } else {
            prev
        }
    }
}

// ---------------------------------------------------------------------------------
// Preparing: an announced client (Init) that claims an id no waiting client holds,
// and that no client before it in this round took, is made to wait (Wait) and is
// sent its claim back; a duplicate claim stays announced.

/// The ids in use after the first `k` clients of a preparing round: those of the
/// waiting clients, then those the round gave out.
pub open spec fn prepare_seen(cs: Seq<Client>, k: nat) -> Seq<u8>
    decreases k,
{
    if k == 0 {
        waiting_players(cs, cs.len())
    } else {
        let s = prepare_seen(cs, (k - 1) as nat);
        let c = cs[k - 1];
        if !c.dropped && c.status == Status::Init && !s.contains(c.player) {
            s.push(c.player)
        } else {
            s
        }
    }
}

/// Whether the client at `j` goes from Init to Wait in a preparing round.
pub open spec fn promoted(cs: Seq<Client>, j: int) -> bool {
    !cs[j].dropped && cs[j].status == Status::Init && !prepare_seen(cs, j as nat).contains(
        cs[j].player,
    )
}

/// The clients after a preparing round.
pub open spec fn prepared(cs: Seq<Client>) -> Seq<Client> {
    Seq::new(
        cs.len(),
        |j: int|
            if promoted(cs, j) {
                Client { status: Status::Wait, ..cs[j] }
            } else {
                cs[j]
            },
    )
}

/// The clients once preparation ends: every client that does not wait is dropped.
pub open spec fn finalized(cs: Seq<Client>) -> Seq<Client> {
    Seq::new(
        cs.len(),
        |j: int|
            if kept_waiting(cs[j]) {
                cs[j]
            } else {
                Client { dropped: true, ..cs[j] }
            },
    )
}

/// The `BattleInit` echoes of a preparing round to the first `k` clients.
pub open spec fn prepare_sends(cs: Seq<Client>, battle: u8, k: nat) -> Seq<(int, MessageView)>
    decreases k,
{
    if k == 0 {
        Seq::empty()
    } else {
        let prev = prepare_sends(cs, battle, (k - 1) as nat);
        if promoted(cs, k - 1) {
            prev.push((k - 1, MessageView::BattleInit { battle, player: cs[k - 1].player }))
        } else {
            prev
        }
    }
}

/// The `BattleMeta` messages of a loading round to the waiting clients among the first `k`.
pub open spec fn meta_sends(cs: Seq<Client>, battle: u8, players: Seq<u8>, k: nat) -> Seq<
    (int, MessageView),
>
    decreases k,
{
    if k == 0 {
        Seq::empty()
    } else {
        let prev = meta_sends(cs, battle, players, (k - 1) as nat);
        if kept_waiting(cs[k - 1]) {
            prev.push(
                (k - 1, MessageView::BattleMeta { battle, player: cs[k - 1].player, raw: players }),
            )
        } else {
            prev
        }
    }
}

/// The `BattleStart` messages of a starting round to the ready clients among the first `k`.
pub open spec fn start_sends(cs: Seq<Client>, battle: u8, k: nat) -> Seq<(int, MessageView)>
    decreases k,
{
    if k == 0 {
        Seq::empty()
    } else {
        let prev = start_sends(cs, battle, (k - 1) as nat);
        if !cs[k - 1].dropped && cs[k - 1].status == Status::Ready {
            prev.push((k - 1, MessageView::BattleStart { battle }))
        } else {
            prev
        }
    }
}

/// The same message to each client among the first `k` that takes part.
pub open spec fn frame_sends(cs: Seq<Client>, m: MessageView, k: nat) -> Seq<(int, MessageView)>
    decreases k,
{
    if k == 0 {
        Seq::empty()
    } else {
        let prev = frame_sends(cs, m, (k - 1) as nat);
        if !cs[k - 1].dropped {
            prev.push((k - 1, m))
        } else {
            prev
        }
    }
}

/// The data frame a running round broadcasts.
pub open spec fn next_frame(s: ServerView) -> MessageView {
    MessageView::DataFrame { battle: s.battle, frame: s.frame, actions: cache_actions(s.cache) }
}

/// The state after one round of the battle's current stage, and the messages it sends.
pub open spec fn tick_spec(s: ServerView) -> (ServerView, Seq<(int, MessageView)>) {
    let n = s.clients.len();
    match s.phase {
        Phase::Preparing => {
            let cs = prepared(s.clients);
            let sends = prepare_sends(s.clients, s.battle, n);
            if count_status(cs, Status::Wait, n) >= s.needed {
                (
                    ServerView {
                        clients: finalized(cs),
                        players: s.players + waiting_players(cs, n),
                        phase: Phase::Loading,
                        ..s
                    },
                    sends,
                )
            } else {
                (ServerView { clients: cs, ..s }, sends)
            }
        },
        Phase::Loading => {
            let sends = meta_sends(s.clients, s.battle, s.players, n);
            if count_status(s.clients, Status::Ready, n) >= s.needed {
                (ServerView { phase: Phase::Starting, ..s }, sends)
            } else {
                (s, sends)
            }
        },
        Phase::Starting => {
            let sends = start_sends(s.clients, s.battle, n);
            if count_status(s.clients, Status::Start, n) >= s.needed {
                (ServerView { phase: Phase::Running, ..s }, sends)
            } else {
                (s, sends)
            }
        },
        Phase::Running => {
            if count_status(s.clients, Status::Stop, n) >= s.needed {
                (ServerView { phase: Phase::Stopped, cache: Seq::empty(), ..s }, Seq::empty())
            } else {
                (
                    ServerView { frame: (s.frame + 1) as usize, cache: Seq::empty(), ..s },
                    frame_sends(s.clients, next_frame(s), n),
                )
            }
        },
        Phase::Stopped => (s, Seq::empty()),
    }
}

/// The rounds that run at one moment: a round, and further rounds while each moves the
/// battle to a new stage before it runs.
pub open spec fn round_spec(s: ServerView) -> (ServerView, Seq<(int, MessageView)>)
    decreases 4 - phase_rank(s.phase),
{
    let r = tick_spec(s);
    if phase_rank(s.phase) < phase_rank(r.0.phase) && phase_rank(r.0.phase) < 3 {
        let more = round_spec(r.0);
        (more.0, r.1 + more.1)
    } else {
        r
    }
}

/// Whether an input received from client `c` goes to the queue for the next frame:
/// it is a `DataInput` from a client that takes part and has started.
pub open spec fn input_accepted(s: ServerView, c: int, msg: MessageView) -> bool {
    &&& 0 <= c < s.clients.len()
    &&& msg is DataInput
    &&& !s.clients[c].dropped
    &&& s.clients[c].status == Status::Start
}

/// The clients after the server receives `msg` from the client at `c`.
pub open spec fn received_clients(s: ServerView, c: int, msg: MessageView) -> Seq<Client> {
    let cl = s.clients[c];
    if !(0 <= c < s.clients.len()) || cl.dropped {
        s.clients
    } else {
        match msg {
            MessageView::BattleInit { battle, player } => if battle == s.battle {
                s.clients.update(c, Client { player, status: Status::Init, ..cl })
            } else {
                s.clients
            },
            MessageView::BattleMeta { .. } => s.clients.update(
                c,
                Client { status: Status::Ready, ..cl },
            ),
            MessageView::BattleStart { .. } => s.clients.update(
                c,
                Client { status: Status::Start, ..cl },
            ),
            MessageView::BattleStop { .. } => s.clients.update(
                c,
                Client { status: Status::Stop, ..cl },
            ),
            _ => s.clients,
        }
    }
}

/// The state after the server receives `msg` from the client at `c`.
pub open spec fn receive_spec(s: ServerView, c: int, msg: MessageView) -> ServerView {
    ServerView {
        clients: received_clients(s, c, msg),
        cache: if input_accepted(s, c, msg) {
            s.cache.push(msg)
        } else {
            s.cache
        },
        ..s
    }
}

fn contains_id(v: &Vec<u8>, x: u8) -> (r: bool)
    ensures
        r == v@.contains(x),
{
    let mut i: usize = 0;
    while i < v.len()
        invariant
            i <= v@.len(),
            forall|j: int| 0 <= j < i ==> v@[j] != x,
        decreases v@.len() - i,
    {
        if v[i] == x {
            return true;
        }
        i = i + 1;
    }
    false
}

proof fn lemma_outgoing_push(out: Seq<Outgoing>, o: Outgoing)
    ensures
        outgoing_view(out.push(o)) == outgoing_view(out).push((o.client as int, o.msg@)),
{
    assert(outgoing_view(out.push(o)) =~= outgoing_view(out).push((o.client as int, o.msg@)));
}

proof fn lemma_outgoing_add(a: Seq<Outgoing>, b: Seq<Outgoing>)
    ensures
        outgoing_view(a + b) == outgoing_view(a) + outgoing_view(b),
{
    assert(outgoing_view(a + b) =~= outgoing_view(a) + outgoing_view(b));
}

proof fn lemma_cache_push(cache: Seq<Message>, m: Message)
    ensures
        cache.push(m).map_values(|x: Message| x@) == cache.map_values(|x: Message| x@).push(m@),
{
    assert(cache.push(m).map_values(|x: Message| x@) =~= cache.map_values(|x: Message| x@).push(
        m@,
    ));
}

impl Server {
    /// A server for battle `battle` that waits for `players` players.
    pub fn new(battle: u8, players: u8) -> (r: Server)
        ensures
            r@ == (ServerView {
                clients: Seq::empty(),
                connected: 0,
                players: Seq::empty(),
                cache: Seq::empty(),
                frame: 1,
                phase: Phase::Preparing,
                battle,
                needed: players,
            }),
            server_wf(r@),
    {
        let r = Server {
            clients: Vec::new(),
            connected: 0,
            players: Vec::new(),
            cache: Vec::new(),
            frame: 1,
            phase: Phase::Preparing,
            battle,
            needed: players,
        };
        assert(r@.cache =~= Seq::<MessageView>::empty());
        r
    }

    /// The battle's current stage.
    pub fn phase(&self) -> (r: Phase)
        ensures
            r == self@.phase,
    {
        self.phase
    }

    /// The battle this server runs.
    pub fn battle(&self) -> (r: u8)
        ensures
            r == self@.battle,
    {
        self.battle
    }

    /// How many clients the server knows.
    pub fn client_count(&self) -> (r: usize)
        ensures
            r == self@.clients.len(),
    {
        self.clients.len()
    }

    /// The number the next data frame will carry.
    pub fn frame(&self) -> (r: usize)
        ensures
            r == self@.frame,
    {
        self.frame
    }

    /// How many clients have connected so far.
    pub fn connected(&self) -> (r: u64)
        ensures
            r == self@.connected,
    {
        self.connected
    }

    /// The client at index `i`.
    pub fn client(&self, i: usize) -> (r: Client)
        requires
            i < self@.clients.len(),
        ensures
            r == self@.clients[i as int],
    {
        self.clients[i]
    }

    /// The players taking part in the battle.
    pub fn players(&self) -> (r: &Vec<u8>)
        ensures
            r@ == self@.players,
    {
        &self.players
    }

    /// Adds a newly connected client and gives its index. Once preparation is over, a
    /// client that connects is not one the battle knows, and is dropped at once.
    pub fn register_client(&mut self) -> (r: usize)
        requires
            server_wf(old(self)@),
            old(self)@.connected < u64::MAX,
        ensures
            r == old(self)@.clients.len(),
            final(self)@ == (ServerView {
                clients: old(self)@.clients.push(
                    Client {
                        player: 0,
                        status: Status::Connected,
                        active: true,
                        dropped: old(self)@.phase != Phase::Preparing,
                    },
                ),
                connected: (old(self)@.connected + 1) as u64,
                ..old(self)@
            }),
            server_wf(final(self)@),
    {
        let r = self.clients.len();
        self.connected = self.connected + 1;
        let dropped = self.phase != Phase::Preparing;
        self.clients.push(
            Client { player: 0, status: Status::Connected, active: true, dropped },
        );
        r
    }

    /// Records a send to the client at `i`; see `Client::send`.
    pub fn record_send(&mut self, i: usize, delivered: bool) -> (r: bool)
        requires
            i < old(self)@.clients.len(),
            server_wf(old(self)@),
        ensures
            ({
                let c = old(self)@.clients[i as int];
                &&& r == (c.active && delivered)
                &&& final(self)@ == (ServerView {
                    clients: old(self)@.clients.update(i as int, Client { active: r, ..c }),
                    ..old(self)@
                })
            }),
            server_wf(final(self)@),
    {
        let mut c = self.clients[i];
        let r = c.send(delivered);
        self.clients.set(i, c);
        proof {
            assert(self@.clients =~= old(self)@.clients.update(
                i as int,
                Client { active: r, ..old(self)@.clients[i as int] },
            ));
        }
        r
    }

    /// Composes the next data frame of battle `battle`: the actions of all queued
    /// `DataInput` messages, in the order they arrived, under the current frame number.
    /// The queue is emptied and the frame number goes up by one.
    pub fn get_frame(&mut self, battle: u8) -> (r: Message)
        requires
            old(self)@.frame < usize::MAX,
        ensures
            r@ == (MessageView::DataFrame {
                battle,
                frame: old(self)@.frame,
                actions: cache_actions(old(self)@.cache),
            }),
            final(self)@ == (ServerView {
                frame: (old(self)@.frame + 1) as usize,
                cache: Seq::empty(),
                ..old(self)@
            }),
    {
        let mut game_actions: Vec<u8> = Vec::new();
        let frame = self.frame;
        self.frame = frame + 1;
        let ghost cache = self@.cache;
        let mut i: usize = 0;
        while i < self.cache.len()
            invariant
                i <= self.cache@.len(),
                cache == self.cache@.map_values(|m: Message| m@),
                game_actions@ == cache_actions(cache.take(i as int)),
            decreases self.cache@.len() - i,
        {
            proof {
                assert(cache.take(i + 1).drop_last() =~= cache.take(i as int));
                assert(cache.take(i + 1).last() == cache[i as int]);
            }
            match &self.cache[i] {
                Message::DataInput { actions, .. } => {
                    let ghost before = game_actions@;
                    let mut k: usize = 0;
                    while k < actions.len()
                        invariant
                            k <= actions@.len(),
                            game_actions@ == before + actions@.subrange(0, k as int),
                        decreases actions@.len() - k,
                    {
                        game_actions.push(actions[k]);
                        k = k + 1;
                        assert(game_actions@ =~= before + actions@.subrange(0, k as int));
                    }
                    assert(actions@.subrange(0, actions@.len() as int) =~= actions@);
                },
                _ => {
                    assert(game_actions@ =~= game_actions@ + Seq::<u8>::empty());
                },
            }
            i = i + 1;
        }
        assert(cache.take(cache.len() as int) =~= cache);
        self.cache.clear();
        proof {
            assert(self@.cache =~= Seq::<MessageView>::empty());
        }
        Message::DataFrame { battle, frame, actions: game_actions }
    }

    /// Handles a message received from the client at `client`.
    ///
    /// A dropped client is no longer heard. Otherwise `BattleInit` for this battle records
    /// the player id the client claims and marks it announced (one for another battle is
    /// ignored); `BattleMeta` marks it ready;
    /// `BattleStart` marks it started; `BattleStop` marks it stopped; a `DataInput` from a
    /// started client is queued for the next data frame; anything else is ignored.
    pub fn receive(&mut self, client: usize, msg: Message)
        requires
            client < old(self)@.clients.len(),
            server_wf(old(self)@),
        ensures
            final(self)@ == receive_spec(old(self)@, client as int, msg@),
            server_wf(final(self)@),
    {
        let c = self.clients[client];
        if c.dropped {
            return;
        }
        match msg {
            Message::BattleInit { battle, player } => {
                if battle == self.battle {
                    self.clients.set(client, Client { player, status: Status::Init, ..c });
                }
            },
            Message::BattleMeta { .. } => {
                self.clients.set(client, Client { status: Status::Ready, ..c });
            },
            Message::BattleStart { .. } => {
                self.clients.set(client, Client { status: Status::Start, ..c });
            },
            Message::BattleStop { .. } => {
                self.clients.set(client, Client { status: Status::Stop, ..c });
            },
            Message::DataInput { .. } => {
                if c.status == Status::Start {
                    proof {
                        lemma_cache_push(self.cache@, msg);
                    }
                    self.cache.push(msg);
                }
            },
            _ => {},
        }
        proof {
            let s = old(self)@;
            let t = receive_spec(s, client as int, msg@);
            assert(self@.clients =~= t.clients);
            assert(self@.cache =~= t.cache);
        }
    }
}

impl Server {
    fn prepare_round(&mut self) -> (out: Vec<Outgoing>)
        requires
            server_wf(old(self)@),
            old(self)@.phase == Phase::Preparing,
        ensures
            (final(self)@, outgoing_view(out@)) == tick_spec(old(self)@),
    {
        let ghost cs0 = self.clients@;
        let n = self.clients.len();
        let battle = self.battle;
        let mut seen: Vec<u8> = Vec::new();
        let mut k: usize = 0;
        while k < n
            invariant
                n == cs0.len(),
                cs0 == self.clients@,
                k <= n,
                seen@ == waiting_players(cs0, k as nat),
            decreases n - k,
        {
            let c = self.clients[k];
            if !c.dropped && c.status == Status::Wait {
                seen.push(c.player);
            }
            k = k + 1;
        }
        let mut next: Vec<Client> = Vec::new();
        let mut out: Vec<Outgoing> = Vec::new();
        let mut i: usize = 0;
        while i < n
            invariant
                n == cs0.len(),
                cs0 == self.clients@,
                battle == self.battle,
                i <= n,
                seen@ == prepare_seen(cs0, i as nat),
                next@ == prepared(cs0).take(i as int),
                outgoing_view(out@) == prepare_sends(cs0, battle, i as nat),
            decreases n - i,
        {
            let c = self.clients[i];
            if !c.dropped && c.status == Status::Init && !contains_id(&seen, c.player) {
                seen.push(c.player);
                next.push(Client { status: Status::Wait, ..c });
                let o = Outgoing { client: i, msg: Message::BattleInit { battle, player: c.player } };
                proof {
                    lemma_outgoing_push(out@, o);
                }
                out.push(o);
            } else {
                next.push(c);
            }
            proof {
                assert(next@ =~= prepared(cs0).take(i + 1));
            }
            i = i + 1;
        }
        proof {
            assert(next@ =~= prepared(cs0));
        }
        let ghost cs1 = next@;
        let mut ready: usize = 0;
        let mut k: usize = 0;
        while k < n
            invariant
                n == cs1.len(),
                cs1 == next@,
                k <= n,
                ready as nat == count_status(cs1, Status::Wait, k as nat),
                ready <= k,
            decreases n - k,
        {
            let c = next[k];
            if !c.dropped && c.status == Status::Wait {
                ready = ready + 1;
            }
            k = k + 1;
        }
        if ready >= self.needed as usize {
            let mut fin: Vec<Client> = Vec::new();
            let ghost p0 = self.players@;
            let mut k: usize = 0;
            while k < n
                invariant
                    k <= n,
                    n == cs1.len(),
                    cs1 == next@,
                    fin@ == finalized(cs1).take(k as int),
                    self.players@ == p0 + waiting_players(cs1, k as nat),
                    self.cache == old(self).cache,
                    self.frame == old(self).frame,
                    self.connected == old(self).connected,
                    self.battle == old(self).battle,
                    self.needed == old(self).needed,
                    self.phase == old(self).phase,
                decreases n - k,
            {
                let c = next[k];
                if !c.dropped && c.status == Status::Wait {
                    self.players.push(c.player);
                    fin.push(c);
                } else {
                    fin.push(Client { dropped: true, ..c });
                }
                proof {
                    assert(fin@ =~= finalized(cs1).take(k + 1));
                }
                k = k + 1;
            }
            proof {
                assert(fin@ =~= finalized(cs1));
            }
            self.clients = fin;
            self.phase = Phase::Loading;
        } else {
            self.clients = next;
        }
        proof {
            let t = tick_spec(old(self)@);
            assert(self@.clients =~= t.0.clients);
            assert(self@.players =~= t.0.players);
            assert(self@.cache =~= t.0.cache);
            assert(self@.phase == t.0.phase);
            assert(outgoing_view(out@) =~= t.1);
        }
        out
    }

    fn loading_round(&mut self) -> (out: Vec<Outgoing>)
        requires
            server_wf(old(self)@),
            old(self)@.phase == Phase::Loading,
        ensures
            (final(self)@, outgoing_view(out@)) == tick_spec(old(self)@),
    {
        let ghost cs0 = self.clients@;
        let n = self.clients.len();
        let battle = self.battle;
        let mut ready: usize = 0;
        let mut out: Vec<Outgoing> = Vec::new();
        let mut i: usize = 0;
        while i < n
            invariant
                n == cs0.len(),
                cs0 == self.clients@,
                battle == self.battle,
                i <= n,
                ready as nat == count_status(cs0, Status::Ready, i as nat),
                ready <= i,
                outgoing_view(out@) == meta_sends(cs0, battle, self.players@, i as nat),
            decreases n - i,
        {
            let c = self.clients[i];
            if !c.dropped && c.status == Status::Wait {
                let raw = copy_bytes(self.players.as_slice());
                let o = Outgoing {
                    client: i,
                    msg: Message::BattleMeta { battle, player: c.player, raw },
                };
                proof {
                    lemma_outgoing_push(out@, o);
                }
                out.push(o);
            } else if !c.dropped && c.status == Status::Ready {
                ready = ready + 1;
            }
            i = i + 1;
        }
        if ready >= self.needed as usize {
            self.phase = Phase::Starting;
        }
        out
    }

    fn starting_round(&mut self) -> (out: Vec<Outgoing>)
        requires
            server_wf(old(self)@),
            old(self)@.phase == Phase::Starting,
        ensures
            (final(self)@, outgoing_view(out@)) == tick_spec(old(self)@),
    {
        let ghost cs0 = self.clients@;
        let n = self.clients.len();
        let battle = self.battle;
        let mut ready: usize = 0;
        let mut out: Vec<Outgoing> = Vec::new();
        let mut i: usize = 0;
        while i < n
            invariant
                n == cs0.len(),
                cs0 == self.clients@,
                battle == self.battle,
                i <= n,
                ready as nat == count_status(cs0, Status::Start, i as nat),
                ready <= i,
                outgoing_view(out@) == start_sends(cs0, battle, i as nat),
            decreases n - i,
        {
            let c = self.clients[i];
            if !c.dropped && c.status == Status::Ready {
                let o = Outgoing { client: i, msg: Message::BattleStart { battle } };
                proof {
                    lemma_outgoing_push(out@, o);
                }
                out.push(o);
            } else if !c.dropped && c.status == Status::Start {
                ready = ready + 1;
            }
            i = i + 1;
        }
        if ready >= self.needed as usize {
            self.phase = Phase::Running;
        }
        out
    }

    fn count_kept(&self, st: Status) -> (r: usize)
        ensures
            r as nat == count_status(self@.clients, st, self@.clients.len()),
    {
        let n = self.clients.len();
        let mut r: usize = 0;
        let mut i: usize = 0;
        while i < n
            invariant
                n == self@.clients.len(),
                i <= n,
                r <= i,
                r as nat == count_status(self@.clients, st, i as nat),
            decreases n - i,
        {
            let c = self.clients[i];
            if !c.dropped && c.status == st {
                r = r + 1;
            }
            i = i + 1;
        }
        r
    }

    fn running_round(&mut self) -> (out: Vec<Outgoing>)
        requires
            server_wf(old(self)@),
            old(self)@.phase == Phase::Running,
            old(self)@.frame < usize::MAX,
        ensures
            (final(self)@, outgoing_view(out@)) == tick_spec(old(self)@),
    {
        let ghost s0 = self@;
        let stopped = self.count_kept(Status::Stop);
        if stopped >= self.needed as usize {
            self.cache.clear();
            self.phase = Phase::Stopped;
            let out: Vec<Outgoing> = Vec::new();
            proof {
                assert(self@.cache =~= Seq::<MessageView>::empty());
                assert(outgoing_view(out@) =~= Seq::<(int, MessageView)>::empty());
            }
            return out;
        }
        let battle = self.battle;
        let frame = self.get_frame(battle);
        let n = self.clients.len();
        let mut out: Vec<Outgoing> = Vec::new();
        let mut i: usize = 0;
        while i < n
            invariant
                i <= n,
                n == s0.clients.len(),
                self@.clients == s0.clients,
                frame@ == next_frame(s0),
                outgoing_view(out@) == frame_sends(s0.clients, next_frame(s0), i as nat),
            decreases n - i,
        {
            if !self.clients[i].dropped {
                let o = Outgoing { client: i, msg: frame.duplicate() };
                proof {
                    lemma_outgoing_push(out@, o);
                }
                out.push(o);
            }
            i = i + 1;
        }
        out
    }

    /// Runs one round of the battle's current stage and gives the messages to send.
    ///
    /// - Preparing: each announced client (Init) whose claimed id no waiting client holds
    ///   and no earlier client took in this round is made to wait (Wait) and is sent its
    ///   `BattleInit` back. With at least as many clients waiting as the battle needs,
    ///   their ids join the battle's players, every other client is dropped, and loading
    ///   begins.
    /// - Loading: each waiting client is sent `BattleMeta` with the players; once enough
    ///   clients are ready (Ready), starting begins.
    /// - Starting: each ready client is sent `BattleStart`; once enough clients have
    ///   started (Start), the battle runs.
    /// - Running: once enough clients have stopped (Stop), the battle stops and its queued
    ///   inputs are dropped; until then the next data frame (see `get_frame`) is sent to
    ///   every client that takes part.
    /// - Stopped: nothing happens.
    pub fn tick(&mut self) -> (out: Vec<Outgoing>)
        requires
            server_wf(old(self)@),
            old(self)@.phase == Phase::Running ==> old(self)@.frame < usize::MAX,
        ensures
            (final(self)@, outgoing_view(out@)) == tick_spec(old(self)@),
            server_wf(final(self)@),
    {
        let out = match self.phase {
            Phase::Preparing => self.prepare_round(),
            Phase::Loading => self.loading_round(),
            Phase::Starting => self.starting_round(),
            Phase::Running => self.running_round(),
            Phase::Stopped => Vec::new(),
        };
        proof {
            if old(self)@.phase == Phase::Stopped {
                assert(outgoing_view(out@) =~= Seq::<(int, MessageView)>::empty());
            }
            lemma_tick_keeps_wf(old(self)@);
        }
        out
    }

    /// Runs the rounds due at one moment: a round, and another right after each round that
    /// moves the battle on to loading or starting. A battle that has just begun running
    /// gets its first frame from the next call.
    pub fn advance(&mut self) -> (out: Vec<Outgoing>)
        requires
            server_wf(old(self)@),
            old(self)@.phase == Phase::Running ==> old(self)@.frame < usize::MAX,
        ensures
            (final(self)@, outgoing_view(out@)) == round_spec(old(self)@),
            server_wf(final(self)@),
        decreases 4 - phase_rank(old(self)@.phase),
    {
        let before = self.phase;
        let mut out = self.tick();
        let after = self.phase;
        let moved_on = match (before, after) {
            (Phase::Preparing, Phase::Loading) => true,
            (Phase::Preparing, Phase::Starting) => true,
            (Phase::Loading, Phase::Starting) => true,
            _ => false,
        };
        proof {
            lemma_phase_moves_forward(old(self)@);
        }
        if moved_on {
            let ghost mid = out@;
            let mut more = self.advance();
            let ghost m2 = more@;
            out.append(&mut more);
            proof {
                lemma_outgoing_add(mid, m2);
            }
        }
        out
    }
}

// ---------------------------------------------------------------------------------
// Laws

proof fn lemma_waiting_players_contains(cs: Seq<Client>, k: nat, j: int)
    requires
        0 <= j < k <= cs.len(),
        kept_waiting(cs[j]),
    ensures
        waiting_players(cs, k).contains(cs[j].player),
    decreases k,
{
    if j < k - 1 {
        lemma_waiting_players_contains(cs, (k - 1) as nat, j);
        let w = waiting_players(cs, (k - 1) as nat);
        let i = choose|i: int| 0 <= i < w.len() && w[i] == cs[j].player;
        if kept_waiting(cs[k - 1]) {
            assert(w.push(cs[k - 1].player)[i] == cs[j].player);
        }
    } else {
        let w = waiting_players(cs, (k - 1) as nat);
        assert(w.push(cs[j].player)[w.len() as int] == cs[j].player);
    }
}

proof fn lemma_waiting_players_held(cs: Seq<Client>, k: nat, x: u8)
    requires
        k <= cs.len(),
        waiting_players(cs, k).contains(x),
    ensures
        exists|j: int| 0 <= j < k && kept_waiting(cs[j]) && cs[j].player == x,
    decreases k,
{
    if k > 0 {
        let w = waiting_players(cs, (k - 1) as nat);
        if w.contains(x) {
            lemma_waiting_players_held(cs, (k - 1) as nat, x);
        } else {
            let i = choose|i: int|
                0 <= i < waiting_players(cs, k).len() && waiting_players(cs, k)[i] == x;
            assert(kept_waiting(cs[k - 1]));
            assert(i == w.len());
        }
    }
}

proof fn lemma_seen_grows(cs: Seq<Client>, k1: nat, k2: nat, x: u8)
    requires
        k1 <= k2 <= cs.len(),
        prepare_seen(cs, k1).contains(x),
    ensures
        prepare_seen(cs, k2).contains(x),
    decreases k2,
{
    if k1 < k2 {
        lemma_seen_grows(cs, k1, (k2 - 1) as nat, x);
        let s = prepare_seen(cs, (k2 - 1) as nat);
        let i = choose|i: int| 0 <= i < s.len() && s[i] == x;
        let c = cs[k2 - 1];
        if !c.dropped && c.status == Status::Init && !s.contains(c.player) {
            assert(s.push(c.player)[i] == x);
        }
    }
}

proof fn lemma_seen_source(cs: Seq<Client>, k: nat, x: u8)
    requires
        k <= cs.len(),
        prepare_seen(cs, k).contains(x),
    ensures
        (exists|j: int| 0 <= j < cs.len() && kept_waiting(cs[j]) && cs[j].player == x) || (exists|
            j: int,
        | 0 <= j < k && promoted(cs, j) && cs[j].player == x),
    decreases k,
{
    if k == 0 {
        lemma_waiting_players_held(cs, cs.len(), x);
    } else {
        let s = prepare_seen(cs, (k - 1) as nat);
        if s.contains(x) {
            lemma_seen_source(cs, (k - 1) as nat, x);
        } else {
            let c = cs[k - 1];
            let i = choose|i: int|
                0 <= i < prepare_seen(cs, k).len() && prepare_seen(cs, k)[i] == x;
            assert(promoted(cs, k - 1));
            assert(i == s.len());
        }
    }
}

proof fn lemma_promoted_seen(cs: Seq<Client>, j: int)
    requires
        0 <= j < cs.len(),
        promoted(cs, j),
    ensures
        prepare_seen(cs, (j + 1) as nat).contains(cs[j].player),
{
    let s = prepare_seen(cs, j as nat);
    assert(prepare_seen(cs, (j + 1) as nat) == s.push(cs[j].player));
    assert(s.push(cs[j].player)[s.len() as int] == cs[j].player);
}

proof fn lemma_prepared_distinct(cs: Seq<Client>)
    requires
        waiting_distinct(cs),
    ensures
        waiting_distinct(prepared(cs)),
        waiting_distinct(finalized(prepared(cs))),
{
    let p = prepared(cs);
    let n = cs.len();
    assert forall|i: int, j: int|
        0 <= i < p.len() && 0 <= j < p.len() && i != j && kept_waiting(p[i]) && kept_waiting(
            p[j],
        ) implies #[trigger] p[i].player != #[trigger] p[j].player by {
        if promoted(cs, i) && !promoted(cs, j) {
            lemma_waiting_players_contains(cs, n, j);
            lemma_seen_grows(cs, 0, i as nat, cs[j].player);
        } else if !promoted(cs, i) && promoted(cs, j) {
            lemma_waiting_players_contains(cs, n, i);
            lemma_seen_grows(cs, 0, j as nat, cs[i].player);
        } else if promoted(cs, i) && promoted(cs, j) {
            if i < j {
                lemma_promoted_seen(cs, i);
                lemma_seen_grows(cs, (i + 1) as nat, j as nat, cs[i].player);
            } else {
                lemma_promoted_seen(cs, j);
                lemma_seen_grows(cs, (j + 1) as nat, i as nat, cs[j].player);
            }
        }
    }
    let f = finalized(p);
    assert forall|i: int, j: int|
        0 <= i < f.len() && 0 <= j < f.len() && i != j && kept_waiting(f[i]) && kept_waiting(
            f[j],
        ) implies #[trigger] f[i].player != #[trigger] f[j].player by {
        assert(p[i].player != p[j].player);
    }
}

/// Every round of the battle keeps the server's invariant.
pub proof fn lemma_tick_keeps_wf(s: ServerView)
    requires
        server_wf(s),
    ensures
        server_wf(tick_spec(s).0),
{
    lemma_prepared_distinct(s.clients);
}

/// The battle's stages only move forward, one at a time: a round leaves the stage as it
/// is or moves it to the next one, and a stopped battle stays stopped.
pub proof fn lemma_phase_moves_forward(s: ServerView)
    ensures
        phase_rank(tick_spec(s).0.phase) == phase_rank(s.phase) || phase_rank(tick_spec(s).0.phase)
            == phase_rank(s.phase) + 1,
        s.phase == Phase::Stopped ==> tick_spec(s).0.phase == Phase::Stopped,
{
}

/// A stage is left only once enough clients have reached the state it waits for: as
/// many clients waiting (after the round) as the battle needs to begin loading, as many
/// ready to begin starting, as many started to run, and as many stopped to stop.
pub proof fn lemma_stage_left_when_enough(s: ServerView)
    ensures
        ({
            let t = tick_spec(s).0;
            let n = s.clients.len();
            &&& s.phase == Phase::Preparing && t.phase != s.phase ==> t.phase == Phase::Loading
                && count_status(prepared(s.clients), Status::Wait, n) >= s.needed
            &&& s.phase == Phase::Loading && t.phase != s.phase ==> t.phase == Phase::Starting
                && count_status(s.clients, Status::Ready, n) >= s.needed
            &&& s.phase == Phase::Starting && t.phase != s.phase ==> t.phase == Phase::Running
                && count_status(s.clients, Status::Start, n) >= s.needed
            &&& s.phase == Phase::Running && t.phase != s.phase ==> t.phase == Phase::Stopped
                && count_status(s.clients, Status::Stop, n) >= s.needed
        }),
{
}

proof fn lemma_messages_to_push(sends: Seq<(int, MessageView)>, x: (int, MessageView), c: int)
    ensures
        messages_to(sends.push(x), c) == messages_to(sends, c) + if x.0 == c {
            seq![x.1]
        } else {
            Seq::empty()
        },
{
    assert(sends.push(x).drop_last() =~= sends);
}

proof fn lemma_prepare_messages(cs: Seq<Client>, b: u8, k: nat, c: int)
    requires
        k <= cs.len(),
    ensures
        messages_to(prepare_sends(cs, b, k), c) == if 0 <= c < k && promoted(cs, c) {
            seq![MessageView::BattleInit { battle: b, player: cs[c].player }]
        } else {
            Seq::<MessageView>::empty()
        },
    decreases k,
{
    if k > 0 {
        lemma_prepare_messages(cs, b, (k - 1) as nat, c);
        let prev = prepare_sends(cs, b, (k - 1) as nat);
        if promoted(cs, k - 1) {
            lemma_messages_to_push(
                prev,
                (k - 1, MessageView::BattleInit { battle: b, player: cs[k - 1].player }),
                c,
            );
        }
        assert(messages_to(prepare_sends(cs, b, k), c) =~= if 0 <= c < k && promoted(cs, c) {
            seq![MessageView::BattleInit { battle: b, player: cs[c].player }]
        } else {
            Seq::<MessageView>::empty()
        });
    }
}

proof fn lemma_meta_messages(cs: Seq<Client>, b: u8, players: Seq<u8>, k: nat, c: int)
    requires
        k <= cs.len(),
    ensures
        messages_to(meta_sends(cs, b, players, k), c) == if 0 <= c < k && kept_waiting(cs[c]) {
            seq![MessageView::BattleMeta { battle: b, player: cs[c].player, raw: players }]
        } else {
            Seq::<MessageView>::empty()
        },
    decreases k,
{
    if k > 0 {
        lemma_meta_messages(cs, b, players, (k - 1) as nat, c);
        let prev = meta_sends(cs, b, players, (k - 1) as nat);
        if kept_waiting(cs[k - 1]) {
            lemma_messages_to_push(
                prev,
                (k - 1, MessageView::BattleMeta { battle: b, player: cs[k - 1].player, raw: players }),
                c,
            );
        }
        assert(messages_to(meta_sends(cs, b, players, k), c) =~= if 0 <= c < k && kept_waiting(
            cs[c],
        ) {
            seq![MessageView::BattleMeta { battle: b, player: cs[c].player, raw: players }]
        } else {
            Seq::<MessageView>::empty()
        });
    }
}

proof fn lemma_start_messages(cs: Seq<Client>, b: u8, k: nat, c: int)
    requires
        k <= cs.len(),
    ensures
        messages_to(start_sends(cs, b, k), c) == if 0 <= c < k && !cs[c].dropped && cs[c].status
            == Status::Ready {
            seq![MessageView::BattleStart { battle: b }]
        } else {
            Seq::<MessageView>::empty()
        },
    decreases k,
{
    if k > 0 {
        lemma_start_messages(cs, b, (k - 1) as nat, c);
        let prev = start_sends(cs, b, (k - 1) as nat);
        if !cs[k - 1].dropped && cs[k - 1].status == Status::Ready {
            lemma_messages_to_push(prev, (k - 1, MessageView::BattleStart { battle: b }), c);
        }
        assert(messages_to(start_sends(cs, b, k), c) =~= if 0 <= c < k && !cs[c].dropped
            && cs[c].status == Status::Ready {
            seq![MessageView::BattleStart { battle: b }]
        } else {
            Seq::<MessageView>::empty()
        });
    }
}

proof fn lemma_frame_messages(cs: Seq<Client>, m: MessageView, k: nat, c: int)
    requires
        k <= cs.len(),
    ensures
        messages_to(frame_sends(cs, m, k), c) == if 0 <= c < k && !cs[c].dropped {
            seq![m]
        } else {
            Seq::<MessageView>::empty()
        },
    decreases k,
{
    if k > 0 {
        lemma_frame_messages(cs, m, (k - 1) as nat, c);
        let prev = frame_sends(cs, m, (k - 1) as nat);
        if !cs[k - 1].dropped {
            lemma_messages_to_push(prev, (k - 1, m), c);
        }
        assert(messages_to(frame_sends(cs, m, k), c) =~= if 0 <= c < k && !cs[c].dropped {
            seq![m]
        } else {
            Seq::<MessageView>::empty()
        });
    }
}

/// In a preparing round a client is sent one message, the echo of its claim, if it is made
/// to wait, and nothing otherwise.
pub proof fn lemma_preparing_round_messages(s: ServerView, c: int)
    requires
        s.phase == Phase::Preparing,
    ensures
        messages_to(tick_spec(s).1, c) == if 0 <= c < s.clients.len() && promoted(s.clients, c) {
            seq![MessageView::BattleInit { battle: s.battle, player: s.clients[c].player }]
        } else {
            Seq::<MessageView>::empty()
        },
{
    lemma_prepare_messages(s.clients, s.battle, s.clients.len(), c);
}

/// In a preparing round, an announced client that claims an id no waiting client holds,
/// and that no client before it took in this round, is made to wait, stays in the battle,
/// and is sent exactly its claim back.
pub proof fn lemma_unused_claim_accepted(s: ServerView, c: int)
    requires
        server_wf(s),
        s.phase == Phase::Preparing,
        0 <= c < s.clients.len(),
        s.clients[c].status == Status::Init,
        forall|j: int|
            0 <= j < s.clients.len() && kept_waiting(s.clients[j]) ==> s.clients[j].player
                != s.clients[c].player,
        forall|j: int|
            0 <= j < c && promoted(s.clients, j) ==> s.clients[j].player != s.clients[c].player,
    ensures
        promoted(s.clients, c),
        kept_waiting(tick_spec(s).0.clients[c]),
        tick_spec(s).0.clients[c].player == s.clients[c].player,
        messages_to(tick_spec(s).1, c) == seq![
            MessageView::BattleInit { battle: s.battle, player: s.clients[c].player },
        ],
{
    let cs = s.clients;
    if prepare_seen(cs, c as nat).contains(cs[c].player) {
        lemma_seen_source(cs, c as nat, cs[c].player);
    }
    lemma_preparing_round_messages(s, c);
}

/// In a loading round each waiting client, and only those, is sent the battle's metadata
/// with the list of players.
pub proof fn lemma_loading_round_messages(s: ServerView, c: int)
    requires
        s.phase == Phase::Loading,
    ensures
        messages_to(tick_spec(s).1, c) == if 0 <= c < s.clients.len() && kept_waiting(
            s.clients[c],
        ) {
            seq![
                MessageView::BattleMeta {
                    battle: s.battle,
                    player: s.clients[c].player,
                    raw: s.players,
                },
            ]
        } else {
            Seq::<MessageView>::empty()
        },
{
    lemma_meta_messages(s.clients, s.battle, s.players, s.clients.len(), c);
}

/// In a starting round each ready client, and only those, is asked to start.
pub proof fn lemma_starting_round_messages(s: ServerView, c: int)
    requires
        s.phase == Phase::Starting,
    ensures
        messages_to(tick_spec(s).1, c) == if 0 <= c < s.clients.len() && !s.clients[c].dropped
            && s.clients[c].status == Status::Ready {
            seq![MessageView::BattleStart { battle: s.battle }]
        } else {
            Seq::<MessageView>::empty()
        },
{
    lemma_start_messages(s.clients, s.battle, s.clients.len(), c);
}

/// In a running round, unless enough clients have stopped, every client that takes part
/// is sent the next frame once, and a dropped client nothing; once enough have stopped,
/// nothing is sent.
pub proof fn lemma_running_round_messages(s: ServerView, c: int)
    requires
        s.phase == Phase::Running,
    ensures
        messages_to(tick_spec(s).1, c) == if count_status(s.clients, Status::Stop, s.clients.len())
            < s.needed && 0 <= c < s.clients.len() && !s.clients[c].dropped {
            seq![next_frame(s)]
        } else {
            Seq::<MessageView>::empty()
        },
{
    if count_status(s.clients, Status::Stop, s.clients.len()) < s.needed {
        lemma_frame_messages(s.clients, next_frame(s), s.clients.len(), c);
    } else {
        assert(messages_to(Seq::<(int, MessageView)>::empty(), c) =~= Seq::<MessageView>::empty());
    }
}

/// Once preparation ends, every client that did not wait is dropped, and the players are
/// the ids of those that wait, in order.
pub proof fn lemma_preparation_drops_others(s: ServerView)
    requires
        server_wf(s),
        s.phase == Phase::Preparing,
        tick_spec(s).0.phase == Phase::Loading,
    ensures
        ({
            let t = tick_spec(s).0;
            &&& t.players == waiting_players(prepared(s.clients), s.clients.len())
            &&& forall|j: int|
                0 <= j < t.clients.len() ==> (!t.clients[j].dropped <==> #[trigger] kept_waiting(
                    prepared(s.clients)[j],
                ))
        }),
{
    assert(s.players + waiting_players(prepared(s.clients), s.clients.len()) =~= waiting_players(
        prepared(s.clients),
        s.clients.len(),
    ));
}

/// An input received from a started client that takes part reaches the next data frame:
/// its actions come right after those of the inputs queued before it, and that frame
/// carries the current frame number.
pub proof fn lemma_input_reaches_next_frame(s: ServerView, c: int, msg: MessageView)
    requires
        0 <= c < s.clients.len(),
        !s.clients[c].dropped,
        s.clients[c].status == Status::Start,
        msg is DataInput,
    ensures
        next_frame(receive_spec(s, c, msg)) == (MessageView::DataFrame {
            battle: s.battle,
            frame: s.frame,
            actions: cache_actions(s.cache) + msg->DataInput_actions,
        }),
{
    let t = receive_spec(s, c, msg);
    assert(t.cache.drop_last() =~= s.cache);
}

/// Clients that wait for the battle hold player ids of their own.
pub proof fn lemma_waiting_players_distinct(s: ServerView, i: int, j: int)
    requires
        server_wf(s),
        0 <= i < s.clients.len(),
        0 <= j < s.clients.len(),
        i != j,
        kept_waiting(s.clients[i]),
        kept_waiting(s.clients[j]),
    ensures
        s.clients[i].player != s.clients[j].player,
{
}

/// What happens to the server over time, seen from its input queue.
pub enum Event {
    /// The server receives `msg` from the client at `client`.
    Receive { client: int, msg: MessageView },
    /// The server composes a data frame (`get_frame`, or a running round).
    Frame,
}

/// The state after one event.
pub open spec fn apply_event(s: ServerView, e: Event) -> ServerView {
    match e {
        Event::Receive { client, msg } => receive_spec(s, client, msg),
        Event::Frame => ServerView { frame: (s.frame + 1) as usize, cache: Seq::empty(), ..s },
    }
}

/// The state after a sequence of events.
pub open spec fn run_events(s: ServerView, evs: Seq<Event>) -> ServerView
    decreases evs.len(),
{
    if evs.len() == 0 {
        s
    } else {
        apply_event(run_events(s, evs.drop_last()), evs.last())
    }
}

/// The actions of the frames composed over a sequence of events, one frame after another.
pub open spec fn framed_actions(s: ServerView, evs: Seq<Event>) -> Seq<u8>
    decreases evs.len(),
{
    if evs.len() == 0 {
        Seq::empty()
    } else {
        let before = run_events(s, evs.drop_last());
        framed_actions(s, evs.drop_last()) + match evs.last() {
            Event::Frame => cache_actions(before.cache),
            _ => Seq::empty(),
        }
    }
}

/// The actions of the inputs queued over a sequence of events, in arrival order.
pub open spec fn accepted_actions(s: ServerView, evs: Seq<Event>) -> Seq<u8>
    decreases evs.len(),
{
    if evs.len() == 0 {
        Seq::empty()
    } else {
        let before = run_events(s, evs.drop_last());
        accepted_actions(s, evs.drop_last()) + match evs.last() {
            Event::Receive { client, msg } => if input_accepted(before, client, msg) {
                msg->DataInput_actions
            } else {
                Seq::empty()
            },
            _ => Seq::empty(),
        }
    }
}

/// Every queued input reaches exactly one frame, and in arrival order: over any sequence
/// of receptions and frames, the frames' actions followed by those still queued are the
/// actions queued at the start followed by those of the inputs accepted since. No
/// action is lost or repeated.
pub proof fn lemma_inputs_framed_once(s: ServerView, evs: Seq<Event>)
    ensures
        framed_actions(s, evs) + cache_actions(run_events(s, evs).cache) == cache_actions(s.cache)
            + accepted_actions(s, evs),
    decreases evs.len(),
{
    if evs.len() > 0 {
        let pre = evs.drop_last();
        lemma_inputs_framed_once(s, pre);
        let before = run_events(s, pre);
        match evs.last() {
            Event::Frame => {
                assert(cache_actions(Seq::<MessageView>::empty()) =~= Seq::<u8>::empty());
                assert(framed_actions(s, evs) + cache_actions(run_events(s, evs).cache)
                    =~= cache_actions(s.cache) + accepted_actions(s, evs));
            },
            Event::Receive { client, msg } => {
                let after = run_events(s, evs);
                assert(after == receive_spec(before, client, msg));
                assert(framed_actions(s, evs) =~= framed_actions(s, pre));
                if input_accepted(before, client, msg) {
                    assert(after.cache.drop_last() =~= before.cache);
                    assert(cache_actions(after.cache) == cache_actions(before.cache)
                        + msg->DataInput_actions);
                    assert(accepted_actions(s, evs) == accepted_actions(s, pre)
                        + msg->DataInput_actions);
                    let a = msg->DataInput_actions;
                    assert(framed_actions(s, pre) + (cache_actions(before.cache) + a)
                        =~= (framed_actions(s, pre) + cache_actions(before.cache)) + a);
                    assert((cache_actions(s.cache) + accepted_actions(s, pre)) + a
                        =~= cache_actions(s.cache) + (accepted_actions(s, pre) + a));
                } else {
                    assert(after.cache == before.cache);
                    assert(accepted_actions(s, evs) =~= accepted_actions(s, pre));
                }
                assert(framed_actions(s, evs) + cache_actions(after.cache) =~= cache_actions(
                    s.cache,
                ) + accepted_actions(s, evs));
            },
        }
    }
}

/// A running round that composes a frame composes the same frame as `get_frame`: the
/// queued inputs' actions under the current number.
pub proof fn lemma_running_round_is_frame_event(s: ServerView)
    requires
        s.phase == Phase::Running,
        count_status(s.clients, Status::Stop, s.clients.len()) < s.needed,
    ensures
        tick_spec(s).0 == apply_event(s, Event::Frame),
{
}

/// Successive frames are numbered one apart: each frame composed carries the number after
/// the one before it, with no gap and no repeat.
pub proof fn lemma_successive_frames(s: ServerView)
    requires
        s.frame < usize::MAX,
    ensures
        next_frame(apply_event(s, Event::Frame))->DataFrame_frame == next_frame(
            s,
        )->DataFrame_frame + 1,
{
}

// ---------------------------------------------------------------------------------
// Whole runs: any sequence of connections, received messages and rounds.

/// One thing that happens to the server.
pub enum ServerStep {
    /// A client connects (`register_client`).
    Register,
    /// The server receives `msg` from the client at `client` (`receive`).
    Receive { client: int, msg: MessageView },
    /// A round of the battle runs (`tick`).
    Tick,
}

/// The state after a client connects.
pub open spec fn register_spec(s: ServerView) -> ServerView {
    ServerView {
        clients: s.clients.push(
            Client {
                player: 0,
                status: Status::Connected,
                active: true,
                dropped: s.phase != Phase::Preparing,
            },
        ),
        connected: (s.connected + 1) as u64,
        ..s
    }
}

/// The state after one step, and the messages it sends.
pub open spec fn step_spec(s: ServerView, st: ServerStep) -> (ServerView, Seq<(int, MessageView)>) {
    match st {
        ServerStep::Register => (register_spec(s), Seq::empty()),
        ServerStep::Receive { client, msg } => (receive_spec(s, client, msg), Seq::empty()),
        ServerStep::Tick => tick_spec(s),
    }
}

/// The state after the first `i` steps of a run from `s`.
pub open spec fn run_state(s: ServerView, steps: Seq<ServerStep>, i: nat) -> ServerView
    decreases i,
{
    if i == 0 {
        s
    } else {
        step_spec(run_state(s, steps, (i - 1) as nat), steps[i - 1]).0
    }
}

/// The messages step `i` of a run sends.
pub open spec fn step_sends(s: ServerView, steps: Seq<ServerStep>, i: nat) -> Seq<
    (int, MessageView),
> {
    step_spec(run_state(s, steps, i), steps[i as int]).1
}

/// The condition for leaving the current stage: enough clients waiting (after the
/// round), ready, started or stopped.
pub open spec fn stage_gate(s: ServerView) -> bool {
    let n = s.clients.len();
    match s.phase {
        Phase::Preparing => count_status(prepared(s.clients), Status::Wait, n) >= s.needed,
        Phase::Loading => count_status(s.clients, Status::Ready, n) >= s.needed,
        Phase::Starting => count_status(s.clients, Status::Start, n) >= s.needed,
        Phase::Running => count_status(s.clients, Status::Stop, n) >= s.needed,
        Phase::Stopped => false,
    }
}

/// The kind of message each stage's rounds send.
pub open spec fn stage_message(p: Phase, m: MessageView) -> bool {
    match p {
        Phase::Preparing => m is BattleInit,
        Phase::Loading => m is BattleMeta,
        Phase::Starting => m is BattleStart,
        Phase::Running => m is DataFrame,
        Phase::Stopped => false,
    }
}

proof fn lemma_step_phase(s: ServerView, st: ServerStep)
    ensures
        phase_rank(s.phase) <= phase_rank(step_spec(s, st).0.phase) <= phase_rank(s.phase) + 1,
        phase_rank(step_spec(s, st).0.phase) > phase_rank(s.phase) ==> st is Tick && stage_gate(
            s,
        ),
{
    lemma_phase_moves_forward(s);
    lemma_stage_left_when_enough(s);
}

/// A step sends each client at most one message, of its stage's kind, and nothing to a
/// dropped client.
proof fn lemma_step_messages(s: ServerView, st: ServerStep, c: int)
    requires
        server_wf(s),
    ensures
        messages_to(step_spec(s, st).1, c).len() <= 1,
        forall|k: int|
            0 <= k < messages_to(step_spec(s, st).1, c).len() ==> stage_message(
                s.phase,
                #[trigger] messages_to(step_spec(s, st).1, c)[k],
            ),
        0 <= c < s.clients.len() && s.clients[c].dropped ==> messages_to(step_spec(s, st).1, c)
            == Seq::<MessageView>::empty(),
{
    if st is Tick {
        match s.phase {
            Phase::Preparing => lemma_preparing_round_messages(s, c),
            Phase::Loading => lemma_loading_round_messages(s, c),
            Phase::Starting => lemma_starting_round_messages(s, c),
            Phase::Running => lemma_running_round_messages(s, c),
            Phase::Stopped => {
                assert(messages_to(Seq::<(int, MessageView)>::empty(), c) =~= Seq::<
                    MessageView,
                >::empty());
            },
        }
    } else {
        assert(messages_to(Seq::<(int, MessageView)>::empty(), c) =~= Seq::<MessageView>::empty());
    }
}

proof fn lemma_step_keeps_wf(s: ServerView, st: ServerStep)
    requires
        server_wf(s),
    ensures
        server_wf(step_spec(s, st).0),
{
    match st {
        ServerStep::Tick => lemma_tick_keeps_wf(s),
        ServerStep::Register => {
            let t = register_spec(s);
            assert forall|i: int, j: int|
                0 <= i < t.clients.len() && 0 <= j < t.clients.len() && i != j && kept_waiting(
                    t.clients[i],
                ) && kept_waiting(t.clients[j]) implies #[trigger] t.clients[i].player
                != #[trigger] t.clients[j].player by {
                assert(s.clients[i].player != s.clients[j].player);
            }
        },
        ServerStep::Receive { client, msg } => {
            let t = receive_spec(s, client, msg);
            assert forall|i: int, j: int|
                0 <= i < t.clients.len() && 0 <= j < t.clients.len() && i != j && kept_waiting(
                    t.clients[i],
                ) && kept_waiting(t.clients[j]) implies #[trigger] t.clients[i].player
                != #[trigger] t.clients[j].player by {
                assert(s.clients[i].player != s.clients[j].player);
            }
        },
    }
}

proof fn lemma_step_keeps_dropped(s: ServerView, st: ServerStep, c: int)
    requires
        0 <= c < s.clients.len(),
        s.clients[c].dropped,
    ensures
        c < step_spec(s, st).0.clients.len(),
        step_spec(s, st).0.clients[c].dropped,
{
}

/// Every state of a run from a valid state is valid.
pub proof fn lemma_run_keeps_wf(s: ServerView, steps: Seq<ServerStep>, i: nat)
    requires
        server_wf(s),
        i <= steps.len(),
    ensures
        server_wf(run_state(s, steps, i)),
    decreases i,
{
    if i > 0 {
        lemma_run_keeps_wf(s, steps, (i - 1) as nat);
        lemma_step_keeps_wf(run_state(s, steps, (i - 1) as nat), steps[i - 1]);
    }
}

/// Over a run, the battle's stages come in order: the stage never goes back, and moves at
/// most one stage at a time.
pub proof fn lemma_run_stages_in_order(s: ServerView, steps: Seq<ServerStep>, i: nat, j: nat)
    requires
        i <= j <= steps.len(),
    ensures
        phase_rank(run_state(s, steps, i).phase) <= phase_rank(run_state(s, steps, j).phase),
        j == i + 1 ==> phase_rank(run_state(s, steps, j).phase) <= phase_rank(
            run_state(s, steps, i).phase,
        ) + 1,
    decreases j,
{
    if i < j {
        lemma_run_stages_in_order(s, steps, i, (j - 1) as nat);
        lemma_step_phase(run_state(s, steps, (j - 1) as nat), steps[j - 1]);
    }
}

/// Over a run, each stage the battle passes is left only by a round taken when enough
/// clients had reached the state it waits for.
pub proof fn lemma_run_stage_left_by_gate(s: ServerView, steps: Seq<ServerStep>, j: nat, k: nat)
    requires
        j <= steps.len(),
        phase_rank(s.phase) <= k < phase_rank(run_state(s, steps, j).phase),
    ensures
        exists|i: nat|
            #![trigger run_state(s, steps, i)]
            i < j && phase_rank(run_state(s, steps, i).phase) == k && steps[i as int] is Tick
                && stage_gate(run_state(s, steps, i)) && phase_rank(
                run_state(s, steps, i + 1).phase,
            ) == k + 1,
    decreases j,
{
    let p = run_state(s, steps, (j - 1) as nat);
    lemma_step_phase(p, steps[j - 1]);
    if k < phase_rank(p.phase) {
        lemma_run_stage_left_by_gate(s, steps, (j - 1) as nat, k);
    } else {
        let i = (j - 1) as nat;
        assert(run_state(s, steps, i + 1) == step_spec(p, steps[j - 1]).0);
    }
}

/// Whether, before step `j` of a run, stage number `g` was left by a round taken when its
/// gate held.
pub open spec fn stage_left_before(s: ServerView, steps: Seq<ServerStep>, j: nat, g: nat) -> bool {
    exists|i: nat|
        #![trigger run_state(s, steps, i)]
        i < j && phase_rank(run_state(s, steps, i).phase) == g && steps[i as int] is Tick
            && stage_gate(run_state(s, steps, i))
}

/// A message sent in a run is of the kind the sending stage sends, goes to a client
/// that takes part, and comes only after every earlier stage was left with enough
/// clients: no metadata before enough clients wait, no start request before enough are
/// ready, no frame before enough have started, and nothing once the battle stopped.
pub proof fn lemma_run_messages_after_gates(
    s: ServerView,
    steps: Seq<ServerStep>,
    j: nat,
    c: int,
    k: int,
)
    requires
        server_wf(s),
        s.phase == Phase::Preparing,
        j < steps.len(),
        0 <= k < messages_to(step_sends(s, steps, j), c).len(),
    ensures
        ({
            let st = run_state(s, steps, j);
            &&& stage_message(st.phase, messages_to(step_sends(s, steps, j), c)[k])
            &&& 0 <= c < st.clients.len() ==> !st.clients[c].dropped
            &&& forall|g: nat|
                g < phase_rank(st.phase) ==> #[trigger] stage_left_before(s, steps, j, g)
        }),
{
    let st = run_state(s, steps, j);
    lemma_run_keeps_wf(s, steps, j);
    lemma_step_messages(st, steps[j as int], c);
    assert forall|g: nat| g < phase_rank(st.phase) implies #[trigger] stage_left_before(
        s,
        steps,
        j,
        g,
    ) by {
        lemma_run_stage_left_by_gate(s, steps, j, g);
    }
}

/// A client once dropped stays dropped for the rest of a run and is sent nothing more.
pub proof fn lemma_run_dropped_never_sent(
    s: ServerView,
    steps: Seq<ServerStep>,
    i: nat,
    j: nat,
    c: int,
)
    requires
        server_wf(s),
        i <= j <= steps.len(),
        0 <= c < run_state(s, steps, i).clients.len(),
        run_state(s, steps, i).clients[c].dropped,
    ensures
        c < run_state(s, steps, j).clients.len(),
        run_state(s, steps, j).clients[c].dropped,
        j < steps.len() ==> messages_to(step_sends(s, steps, j), c) == Seq::<MessageView>::empty(),
    decreases j,
{
    if i < j {
        lemma_run_dropped_never_sent(s, steps, i, (j - 1) as nat, c);
        lemma_step_keeps_dropped(run_state(s, steps, (j - 1) as nat), steps[j - 1], c);
    }
    if j < steps.len() {
        lemma_run_keeps_wf(s, steps, j);
        lemma_step_messages(run_state(s, steps, j), steps[j as int], c);
    }
}

// ---------------------------------------------------------------------------------
// What rounds and receptions may change.

/// A gathering round ends preparation exactly when enough clients wait: if, after the
/// round, at least as many clients that take part are waiting as the battle needs, the
/// battle moves on to loading, whatever state the other clients are in; and once it
/// does, every client that is not waiting has been dropped.
pub proof fn lemma_enough_waiting_ends_preparation(s: ServerView)
    requires
        server_wf(s),
        s.phase == Phase::Preparing,
    ensures
        ({
            let t = tick_spec(s).0;
            &&& count_status(t.clients, Status::Wait, t.clients.len()) >= s.needed ==> t.phase
                == Phase::Loading
            &&& t.phase == Phase::Loading ==> forall|j: int|
                0 <= j < t.clients.len() ==> (#[trigger] t.clients[j]).dropped || t.clients[j].status
                    == Status::Wait
        }),
{
    let cs = prepared(s.clients);
    let n = s.clients.len();
    if count_status(cs, Status::Wait, n) >= s.needed {
    } else {
        assert(tick_spec(s).0.clients == cs);
    }
}

/// Rounds never move a client forward by themselves: a round keeps every client's player
/// id and channel state, and changes a status only by making an announced client wait
/// while the battle is prepared. A client becomes ready, started or stopped only when
/// the server receives its message, so a loading or starting round leaves the clients
/// exactly as they were.
pub proof fn lemma_rounds_do_not_advance_clients(s: ServerView)
    ensures
        ({
            let t = tick_spec(s).0;
            &&& t.clients.len() == s.clients.len()
            &&& forall|j: int|
                0 <= j < s.clients.len() ==> {
                    let (a, b) = (s.clients[j], #[trigger] t.clients[j]);
                    &&& b.player == a.player
                    &&& b.active == a.active
                    &&& (b.status == a.status || (s.phase == Phase::Preparing && a.status
                        == Status::Init && b.status == Status::Wait))
                }
            &&& (s.phase == Phase::Loading || s.phase == Phase::Starting || s.phase
                == Phase::Stopped) ==> t.clients == s.clients
        }),
{
}

/// From a loading state in which fewer clients are ready than the battle needs, rounds
/// with nothing received in between never leave loading; likewise a starting state with
/// too few started clients never reaches the running battle.
pub proof fn lemma_rounds_alone_wait_for_confirmations(s: ServerView, k: nat)
    requires
        s.phase == Phase::Loading || s.phase == Phase::Starting,
        s.phase == Phase::Loading ==> count_status(s.clients, Status::Ready, s.clients.len())
            < s.needed,
        s.phase == Phase::Starting ==> count_status(s.clients, Status::Start, s.clients.len())
            < s.needed,
    ensures
        run_state(s, Seq::new(k, |i: int| ServerStep::Tick), k) == s,
    decreases k,
{
    if k > 0 {
        let steps = Seq::new(k, |i: int| ServerStep::Tick);
        let shorter = Seq::new((k - 1) as nat, |i: int| ServerStep::Tick);
        lemma_rounds_alone_wait_for_confirmations(s, (k - 1) as nat);
        lemma_run_prefix(s, steps, shorter, (k - 1) as nat);
        assert(steps[k - 1] == ServerStep::Tick);
    }
}

/// A run depends only on the steps taken so far.
proof fn lemma_run_prefix(s: ServerView, a: Seq<ServerStep>, b: Seq<ServerStep>, i: nat)
    requires
        i <= a.len(),
        i <= b.len(),
        forall|j: int| 0 <= j < i ==> a[j] == b[j],
    ensures
        run_state(s, a, i) == run_state(s, b, i),
    decreases i,
{
    if i > 0 {
        lemma_run_prefix(s, a, b, (i - 1) as nat);
    }
}

/// Only a started client feeds the battle: receiving a message changes the input queue
/// only when it is a `DataInput` from a client that takes part and has started, and
/// then appends exactly that message.
pub proof fn lemma_only_started_inputs_queued(s: ServerView, c: int, msg: MessageView)
    ensures
        ({
            let t = receive_spec(s, c, msg);
            &&& t.cache == s.cache || t.cache == s.cache.push(msg)
            &&& t.cache != s.cache ==> 0 <= c < s.clients.len() && !s.clients[c].dropped
                && s.clients[c].status == Status::Start && msg is DataInput
            &&& (0 <= c < s.clients.len() && !s.clients[c].dropped && s.clients[c].status
                == Status::Start && msg is DataInput) ==> t.cache == s.cache.push(msg)
            &&& t.players == s.players && t.phase == s.phase && t.frame == s.frame
        }),
{
    let t = receive_spec(s, c, msg);
    if input_accepted(s, c, msg) {
        assert(s.cache.push(msg).len() != s.cache.len());
    }
}

} // verus!
