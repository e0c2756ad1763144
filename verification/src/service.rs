use vstd::prelude::*;
use crate::model::{Message, MessageView, Status};
use crate::server::{ServerView, receive_spec};

verus! {

/// A battle's settings: which battle, and how many players it waits for.
pub struct Service {
    pub battle: u8,
    pub players: u8,
}

/// What a client answers to a message from the server: it confirms battle metadata
/// and the request to start by sending them back, and answers nothing else.
pub open spec fn client_reply(m: MessageView) -> Option<MessageView> {
    match m {
        MessageView::BattleMeta { .. } => Some(m),
        MessageView::BattleStart { .. } => Some(m),
        _ => None,
    }
}

impl Service {
    /// The settings read from a configuration's `battle` and `players` numbers, each
    /// taken modulo 256.
    pub fn new(battle: u64, players: u64) -> (r: Service)
        ensures
            r.battle == battle % 256,
            r.players == players % 256,
    {
        Service { battle: (battle % 256) as u8, players: (players % 256) as u8 }
    }

    /// The message a client opens with: it announces player `player` (modulo 256) for
    /// this battle.
    pub fn start_client(&self, player: u64) -> (r: Message)
        ensures
            r@ == (MessageView::BattleInit { battle: self.battle, player: (player % 256) as u8 }),
    {
        Message::BattleInit { battle: self.battle, player: (player % 256) as u8 }
    }

    /// The input a client sends every second once it has opened: no actions, from
    /// player `player` (modulo 256) of this battle.
    pub fn client_input(&self, player: u64) -> (r: Message)
        ensures
            r@ == (MessageView::DataInput {
                battle: self.battle,
                player: (player % 256) as u8,
                actions: Seq::empty(),
            }),
    {
        let actions: Vec<u8> = Vec::new();
        assert(actions@ =~= Seq::<u8>::empty());
        Message::DataInput { battle: self.battle, player: (player % 256) as u8, actions }
    }

    /// The client's answer to a message from the server, if any.
    pub fn handle_server_message(&self, msg: Message) -> (r: Option<Message>)
        ensures
            r matches Some(m) ==> client_reply(msg@) == Some(m@),
            r is None ==> client_reply(msg@) is None,
    {
        match msg {
            Message::BattleMeta { .. } => Some(msg),
            Message::BattleStart { .. } => Some(msg),
            _ => None,
        }
    }
}

/// The handshake moves a client along: its opening message makes it announced with the
/// player id it claims, its confirmations of the battle's metadata and of the request to
/// start make it ready and started, and its stop message makes it stopped.
pub proof fn lemma_handshake_moves_client(s: ServerView, c: int, m: MessageView, player: u8)
    requires
        0 <= c < s.clients.len(),
        !s.clients[c].dropped,
    ensures
        ({
            let t = receive_spec(s, c, MessageView::BattleInit { battle: s.battle, player });
            &&& t.clients[c].status == Status::Init
            &&& t.clients[c].player == player
            &&& t.cache == s.cache
        }),
        m is BattleMeta ==> client_reply(m) == Some(m) && receive_spec(s, c, m).clients[c].status
            == Status::Ready,
        m is BattleStart ==> client_reply(m) == Some(m) && receive_spec(s, c, m).clients[c].status
            == Status::Start,
        receive_spec(s, c, MessageView::BattleStop { battle: s.battle }).clients[c].status
            == Status::Stop,
{
}

/// The client answers exactly the battle's metadata and the request to start, each by
/// sending it back unchanged; every other message from the server (an echoed
/// announcement, a data frame, anything else) gets no answer.
pub proof fn lemma_client_answers_only_confirmations(m: MessageView)
    ensures
        (m is BattleMeta || m is BattleStart) ==> client_reply(m) == Some(m),
        !(m is BattleMeta || m is BattleStart) ==> client_reply(m) is None,
{
}

} // verus!
