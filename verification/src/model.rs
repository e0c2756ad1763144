use vstd::prelude::*;

verus! {

/// A message of the battle protocol.
///
/// Every message travels in one frame; its flag byte is `Message::flag`.
#[derive(Debug, Clone)]
pub enum Message {
    BattleTest { raw: Vec<u8> },
    BattleInit { player: u8, battle: u8 },
    BattleMeta { battle: u8, player: u8, raw: Vec<u8> },
    BattleStart { battle: u8 },
    BattleStop { battle: u8 },
    DataInput { battle: u8, player: u8, actions: Vec<u8> },
    DataFrame { battle: u8, frame: usize, actions: Vec<u8> },
}

/// The mathematical value of a `Message`: its byte vectors taken as sequences.
pub enum MessageView {
    BattleTest { raw: Seq<u8> },
    BattleInit { player: u8, battle: u8 },
    BattleMeta { battle: u8, player: u8, raw: Seq<u8> },
    BattleStart { battle: u8 },
    BattleStop { battle: u8 },
    DataInput { battle: u8, player: u8, actions: Seq<u8> },
    DataFrame { battle: u8, frame: usize, actions: Seq<u8> },
}

impl View for Message {
    type V = MessageView;

    open spec fn view(&self) -> MessageView {
        match self {
            Message::BattleTest { raw } => MessageView::BattleTest { raw: raw@ },
            Message::BattleInit { player, battle } => MessageView::BattleInit {
                player: *player,
                battle: *battle,
            },
            Message::BattleMeta { battle, player, raw } => MessageView::BattleMeta {
                battle: *battle,
                player: *player,
                raw: raw@,
            },
            Message::BattleStart { battle } => MessageView::BattleStart { battle: *battle },
            Message::BattleStop { battle } => MessageView::BattleStop { battle: *battle },
            Message::DataInput { battle, player, actions } => MessageView::DataInput {
                battle: *battle,
                player: *player,
                actions: actions@,
            },
            Message::DataFrame { battle, frame, actions } => MessageView::DataFrame {
                battle: *battle,
                frame: *frame,
                actions: actions@,
            },
        }
    }
}

/// Copies the bytes of `src` from `start` up to `end` into a fresh vector.
pub fn copy_range(src: &[u8], start: usize, end: usize) -> (out: Vec<u8>)
    requires
        start <= end <= src@.len(),
    ensures
        out@ == src@.subrange(start as int, end as int),
{
    let mut out: Vec<u8> = Vec::new();
    let mut i: usize = start;
    while i < end
        invariant
            start <= i <= end <= src@.len(),
            out@ == src@.subrange(start as int, i as int),
        decreases end - i,
    {
        out.push(src[i]);
        i = i + 1;
        assert(out@ =~= src@.subrange(start as int, i as int));
    }
    out
}

/// Copies the bytes of `src` into a fresh vector.
pub fn copy_bytes(src: &[u8]) -> (out: Vec<u8>)
    ensures
        out@ == src@,
{
    let out = copy_range(src, 0, src.len());
    assert(out@ =~= src@);
    out
}

impl Message {
    /// A copy of this message with equal contents.
    pub fn duplicate(&self) -> (out: Message)
        ensures
            out@ == self@,
    {
        match self {
            Message::BattleTest { raw } => Message::BattleTest { raw: copy_bytes(raw.as_slice()) },
            Message::BattleInit { player, battle } => Message::BattleInit {
                player: *player,
                battle: *battle,
            },
            Message::BattleMeta { battle, player, raw } => Message::BattleMeta {
                battle: *battle,
                player: *player,
                raw: copy_bytes(raw.as_slice()),
            },
            Message::BattleStart { battle } => Message::BattleStart { battle: *battle },
            Message::BattleStop { battle } => Message::BattleStop { battle: *battle },
            Message::DataInput { battle, player, actions } => Message::DataInput {
                battle: *battle,
                player: *player,
                actions: copy_bytes(actions.as_slice()),
            },
            Message::DataFrame { battle, frame, actions } => Message::DataFrame {
                battle: *battle,
                frame: *frame,
                actions: copy_bytes(actions.as_slice()),
            },
        }
    }
}

/// The state of a connected player, as the server sees it.
#[derive(Debug, Clone, Copy, PartialEq, Eq, Structural)]
pub enum Status {
    Connected,
    Init,
    Wait,
    Ready,
    Start,
    Stop,
}

/// The number that stands for a status: its position in the list
/// `Connected, Init, Wait, Ready, Start, Stop`, from 0.
pub open spec fn status_number(s: Status) -> nat {
    match s {
        Status::Connected => 0,
        Status::Init => 1,
        Status::Wait => 2,
        Status::Ready => 3,
        Status::Start => 4,
        Status::Stop => 5,
    }
}

impl Status {
    /// The status numbered `s`; there are six, numbered 0 to 5.
    pub fn from_usize(s: usize) -> (r: Status)
        requires
            s < 6,
        ensures
            status_number(r) == s,
    {
        if s == 0 {
            Status::Connected
        } else if s == 1 {
            Status::Init
        } else if s == 2 {
            Status::Wait
        } else if s == 3 {
            Status::Ready
        } else if s == 4 {
            Status::Start
        } else {
            Status::Stop
        }
    }

    /// The number of this status.
    pub fn as_usize(&self) -> (r: usize)
        ensures
            r == status_number(*self),
    {
        match self {
            Status::Connected => 0,
            Status::Init => 1,
            Status::Wait => 2,
            Status::Ready => 3,
            Status::Start => 4,
            Status::Stop => 5,
        }
    }
}

/// Reading a status back from its number gives the status itself, and every
/// number below 6 is the number of exactly one status.
pub proof fn lemma_status_number_roundtrip(s: Status, n: nat)
    ensures
        status_number(s) < 6,
        n < 6 ==> exists|t: Status| status_number(t) == n,
        forall|t: Status| status_number(t) == status_number(s) ==> t == s,
{
    if n == 0 {
        assert(status_number(Status::Connected) == n);
    } else if n == 1 {
        assert(status_number(Status::Init) == n);
    } else if n == 2 {
        assert(status_number(Status::Wait) == n);
    } else if n == 3 {
        assert(status_number(Status::Ready) == n);
    } else if n == 4 {
        assert(status_number(Status::Start) == n);
    } else if n == 5 {
        assert(status_number(Status::Stop) == n);
    }
}

/// The error a frame that breaks the format gives.
#[derive(Debug)]
pub struct CodecError;

impl CodecError {
    /// The text that describes the error.
    pub fn description(&self) -> (r: &'static str)
        ensures
            r@ == "Bad data"@,
    {
        "Bad data"
    }
}

} // verus!
