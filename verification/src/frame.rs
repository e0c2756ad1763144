use vstd::prelude::*;
use crate::model::{Message, MessageView, CodecError, copy_range};
use crate::buffer::{buffer_contents, buffer_bytes, buffer_advance, buffer_extend};

verus! {

// A frame is a four-byte header followed by a payload:
//   byte 0      the message's flag (0 BattleTest, 1 BattleInit, 2 BattleMeta,
//               3 BattleStart, 4 BattleStop, 5 DataInput, 6 DataFrame);
//   bytes 1..4  the payload's length, little endian;
//   bytes 4..   the payload.

/// The number that four bytes spell, little endian.
pub open spec fn le32_value(b: Seq<u8>) -> nat
    recommends
        b.len() == 4,
{
    b[0] as nat + 256 * (b[1] as nat) + 65536 * (b[2] as nat) + 16777216 * (b[3] as nat)
}

/// The payload length that the header of `buf` declares (bytes 1 to 3, little endian).
pub open spec fn frame_len(buf: Seq<u8>) -> nat
    recommends
        buf.len() >= 4,
{
    buf[1] as nat + 256 * (buf[2] as nat) + 65536 * (buf[3] as nat)
}

/// The message that a payload carries under a flag, or `None` where the payload
/// does not have the layout the flag asks for.
pub open spec fn payload_message(flag: u8, p: Seq<u8>) -> Option<MessageView> {
    if flag == 0 {
        // raw length, raw bytes
        if p.len() >= 1 && p.len() == 1 + p[0] {
            Some(MessageView::BattleTest { raw: p.subrange(1, p.len() as int) })
        } else {
            None
        }
    } else if flag == 1 {
        // battle, player
        if p.len() == 2 {
            Some(MessageView::BattleInit { battle: p[0], player: p[1] })
        } else {
            None
        }
    } else if flag == 2 {
        // battle, player, raw length, raw bytes
        if p.len() >= 3 && p.len() == 3 + p[2] {
            Some(
                MessageView::BattleMeta {
                    battle: p[0],
                    player: p[1],
                    raw: p.subrange(3, p.len() as int),
                },
            )
        } else {
            None
        }
    } else if flag == 3 {
        if p.len() == 1 {
            Some(MessageView::BattleStart { battle: p[0] })
        } else {
            None
        }
    } else if flag == 4 {
        if p.len() == 1 {
            Some(MessageView::BattleStop { battle: p[0] })
        } else {
            None
        }
    } else if flag == 5 {
        // battle, player, actions up to the end
        if p.len() >= 2 {
            Some(
                MessageView::DataInput {
                    battle: p[0],
                    player: p[1],
                    actions: p.subrange(2, p.len() as int),
                },
            )
        } else {
            None
        }
    } else if flag == 6 {
        // battle, frame number (four bytes, little endian), actions up to the end
        if p.len() >= 5 {
            Some(
                MessageView::DataFrame {
                    battle: p[0],
                    frame: le32_value(p.subrange(1, 5)) as usize,
                    actions: p.subrange(5, p.len() as int),
                },
            )
        } else {
            None
        }
    } else {
        None
    }
}

/// What the front of a byte stream holds.
pub enum Decoded {
    /// Not yet a whole frame: fewer than four bytes, or fewer than the header declares.
    Incomplete,
    /// A whole frame that breaks the format.
    Invalid,
    /// A whole frame carrying `msg`, `used` bytes long.
    Complete { msg: MessageView, used: nat },
}

/// How the front of `buf` decodes.
pub open spec fn decode_spec(buf: Seq<u8>) -> Decoded {
    if buf.len() < 4 || buf.len() < 4 + frame_len(buf) {
        Decoded::Incomplete
    } else {
        match payload_message(buf[0], buf.subrange(4, 4 + frame_len(buf) as int)) {
            Some(m) => Decoded::Complete { msg: m, used: 4 + frame_len(buf) },
            None => Decoded::Invalid,
        }
    }
}

/// The result of decoding the front of a byte slice.
pub enum FrameDecode {
    Incomplete,
    Invalid,
    Complete(Message, usize),
}

impl View for FrameDecode {
    type V = Decoded;

    open spec fn view(&self) -> Decoded {
        match self {
            FrameDecode::Incomplete => Decoded::Incomplete,
            FrameDecode::Invalid => Decoded::Invalid,
            FrameDecode::Complete(m, n) => Decoded::Complete { msg: m@, used: *n as nat },
        }
    }
}

/// Decodes the frame at the front of `buf`.
pub fn decode_frame(buf: &[u8]) -> (r: FrameDecode)
    ensures
        r@ == decode_spec(buf@),
{
    let n = buf.len();
    if n < 4 {
        return FrameDecode::Incomplete;
    }
    let len: usize = buf[1] as usize + 256 * (buf[2] as usize) + 65536 * (buf[3] as usize);
    if len + 4 > n {
        return FrameDecode::Incomplete;
    }
    let end: usize = len + 4;
    let ghost p = buf@.subrange(4, end as int);
    assert(len == frame_len(buf@));
    assert(forall|i: int| 0 <= i < len ==> p[i] == buf@[4 + i]);
    let flag = buf[0];
    if flag == 0 {
        if len >= 1 && len == 1 + buf[4] as usize {
            let raw = copy_range(buf, 5, end);
            assert(raw@ =~= p.subrange(1, p.len() as int));
            FrameDecode::Complete(Message::BattleTest { raw }, end)
        } else {
            FrameDecode::Invalid
        }
    } else if flag == 1 {
        if len == 2 {
            FrameDecode::Complete(Message::BattleInit { battle: buf[4], player: buf[5] }, end)
        } else {
            FrameDecode::Invalid
        }
    } else if flag == 2 {
        if len >= 3 && len == 3 + buf[6] as usize {
            let raw = copy_range(buf, 7, end);
            assert(raw@ =~= p.subrange(3, p.len() as int));
            FrameDecode::Complete(
                Message::BattleMeta { battle: buf[4], player: buf[5], raw },
                end,
            )
        } else {
            FrameDecode::Invalid
        }
    } else if flag == 3 {
        if len == 1 {
            FrameDecode::Complete(Message::BattleStart { battle: buf[4] }, end)
        } else {
            FrameDecode::Invalid
        }
    } else if flag == 4 {
        if len == 1 {
            FrameDecode::Complete(Message::BattleStop { battle: buf[4] }, end)
        } else {
            FrameDecode::Invalid
        }
    } else if flag == 5 {
        if len >= 2 {
            let actions = copy_range(buf, 6, end);
            assert(actions@ =~= p.subrange(2, p.len() as int));
            FrameDecode::Complete(
                Message::DataInput { battle: buf[4], player: buf[5], actions },
                end,
            )
        } else {
            FrameDecode::Invalid
        }
    } else if flag == 6 {
        if len >= 5 {
            let f: u32 = buf[5] as u32 + 256 * (buf[6] as u32) + 65536 * (buf[7] as u32)
                + 16777216 * (buf[8] as u32);
            let actions = copy_range(buf, 9, end);
            assert(actions@ =~= p.subrange(5, p.len() as int));
            assert(p.subrange(1, 5) =~= seq![buf@[5], buf@[6], buf@[7], buf@[8]]);
            FrameDecode::Complete(
                Message::DataFrame { battle: buf[4], actions, frame: f as usize },
                end,
            )
        } else {
            FrameDecode::Invalid
        }
    } else {
        FrameDecode::Invalid
    }
}


/// The three bytes of `v` taken modulo 2^24, little endian.
pub open spec fn le24(v: nat) -> Seq<u8> {
    seq![(v % 256) as u8, (v / 256 % 256) as u8, (v / 65536 % 256) as u8]
}

/// The four bytes of `v` taken modulo 2^32, little endian.
pub open spec fn le32(v: nat) -> Seq<u8> {
    seq![
        (v % 256) as u8,
        (v / 256 % 256) as u8,
        (v / 65536 % 256) as u8,
        (v / 16777216 % 256) as u8,
    ]
}

/// A frame header: the flag, then the payload's length in three bytes, little endian.
pub open spec fn header(flag: u8, len: nat) -> Seq<u8> {
    seq![flag] + le24(len)
}

/// The length of the payload the encoder writes for a message.
pub open spec fn encoded_len_field(m: MessageView) -> nat {
    match m {
        MessageView::BattleTest { raw } => 1 + raw.len(),
        MessageView::BattleInit { .. } => 2,
        MessageView::BattleMeta { raw, .. } => 3 + raw.len(),
        MessageView::BattleStart { .. } => 1,
        MessageView::BattleStop { .. } => 1,
        MessageView::DataInput { actions, .. } => 2 + actions.len(),
        MessageView::DataFrame { actions, .. } => 5 + actions.len(),
    }
}

/// The messages a frame can carry: the payload's length fits in the header's three
/// bytes, a raw byte count fits in its one byte, and a frame number in its four.
pub open spec fn encodable(m: MessageView) -> bool {
    &&& encoded_len_field(m) < 16777216
    &&& match m {
        MessageView::BattleTest { raw } => raw.len() < 256,
        MessageView::BattleMeta { raw, .. } => raw.len() < 256,
        MessageView::DataFrame { frame, .. } => frame <= u32::MAX,
        _ => true,
    }
}

/// The bytes of the frame the encoder writes for a message (for the messages a frame
/// can carry, see `encodable`).
pub open spec fn encode_spec(m: MessageView) -> Seq<u8> {
    match m {
        MessageView::BattleTest { raw } => header(0, encoded_len_field(m)) + seq![
            (raw.len() % 256) as u8,
        ] + raw,
        MessageView::BattleInit { battle, player } => header(1, encoded_len_field(m)) + seq![
            battle,
            player,
        ],
        MessageView::BattleMeta { battle, player, raw } => header(2, encoded_len_field(m))
            + seq![battle, player, (raw.len() % 256) as u8] + raw,
        MessageView::BattleStart { battle } => header(3, encoded_len_field(m)) + seq![battle],
        MessageView::BattleStop { battle } => header(4, encoded_len_field(m)) + seq![battle],
        MessageView::DataInput { battle, player, actions } => header(5, encoded_len_field(m))
            + seq![battle, player] + actions,
        MessageView::DataFrame { battle, frame, actions } => header(6, encoded_len_field(m))
            + seq![battle] + le32(frame as nat) + actions,
    }
}

/// Whether a frame can carry `msg`.
pub fn encodable_message(msg: &Message) -> (r: bool)
    ensures
        r == encodable(msg@),
{
    match msg {
        Message::BattleTest { raw } => raw.len() < 256,
        Message::BattleMeta { raw, .. } => raw.len() < 256,
        Message::DataInput { actions, .. } => actions.len() < 16777214,
        Message::DataFrame { frame, actions, .. } => actions.len() < 16777211 && (*frame as u64)
            <= 4294967295,
        _ => true,
    }
}

fn push_header(out: &mut Vec<u8>, flag: u8, len: u32)
    requires
        len < 16777216,
    ensures
        final(out)@ == old(out)@ + header(flag, len as nat),
{
    out.push(flag);
    out.push((len % 256) as u8);
    out.push((len / 256 % 256) as u8);
    out.push((len / 65536 % 256) as u8);
    assert(final(out)@ =~= old(out)@ + header(flag, len as nat));
}

fn push_all(out: &mut Vec<u8>, data: &Vec<u8>)
    ensures
        final(out)@ == old(out)@ + data@,
{
    let mut i: usize = 0;
    while i < data.len()
        invariant
            i <= data@.len(),
            out@ == old(out)@ + data@.subrange(0, i as int),
        decreases data@.len() - i,
    {
        out.push(data[i]);
        i = i + 1;
        assert(out@ =~= old(out)@ + data@.subrange(0, i as int));
    }
    assert(data@.subrange(0, data@.len() as int) =~= data@);
}

fn push_le32(out: &mut Vec<u8>, v: usize)
    ensures
        final(out)@ == old(out)@ + le32(v as nat),
{
    let w: u64 = v as u64;
    let f: u64 = w % 4294967296;
    assert(f % 256 == w % 256 && f / 256 % 256 == w / 256 % 256 && f / 65536 % 256 == w / 65536
        % 256 && f / 16777216 % 256 == w / 16777216 % 256) by (bit_vector)
        requires
            f == w % 4294967296,
    ;
    out.push((f % 256) as u8);
    out.push((f / 256 % 256) as u8);
    out.push((f / 65536 % 256) as u8);
    out.push((f / 16777216 % 256) as u8);
    assert(final(out)@ =~= old(out)@ + le32(v as nat));
}

fn frame_with_bytes(flag: u8, len: u32, fields: &[u8], data: &Vec<u8>) -> (out: Vec<u8>)
    requires
        len < 16777216,
    ensures
        out@ == header(flag, len as nat) + fields@ + data@,
{
    let mut out: Vec<u8> = Vec::new();
    push_header(&mut out, flag, len);
    let mut i: usize = 0;
    while i < fields.len()
        invariant
            i <= fields@.len(),
            out@ == header(flag, len as nat) + fields@.subrange(0, i as int),
        decreases fields@.len() - i,
    {
        out.push(fields[i]);
        i = i + 1;
        assert(out@ =~= header(flag, len as nat) + fields@.subrange(0, i as int));
    }
    assert(fields@.subrange(0, fields@.len() as int) =~= fields@);
    push_all(&mut out, data);
    out
}

/// The bytes of the frame for `msg`.
pub fn frame_bytes(msg: &Message) -> (out: Vec<u8>)
    requires
        encodable(msg@),
    ensures
        out@ == encode_spec(msg@),
{
    let empty: Vec<u8> = Vec::new();
    match msg {
        Message::BattleTest { raw } => {
            let fields = [raw.len() as u8];
            let out = frame_with_bytes(0, 1 + raw.len() as u32, &fields, raw);
            assert(fields@ =~= seq![(raw@.len() % 256) as u8]);
            out
        },
        Message::BattleInit { battle, player } => {
            let fields = [*battle, *player];
            let out = frame_with_bytes(1, 2, &fields, &empty);
            assert(out@ =~= encode_spec(msg@));
            out
        },
        Message::BattleMeta { battle, player, raw } => {
            let fields = [*battle, *player, raw.len() as u8];
            let out = frame_with_bytes(2, 3 + raw.len() as u32, &fields, raw);
            assert(fields@ =~= seq![*battle, *player, (raw@.len() % 256) as u8]);
            out
        },
        Message::BattleStart { battle } => {
            let fields = [*battle];
            let out = frame_with_bytes(3, 1, &fields, &empty);
            assert(out@ =~= encode_spec(msg@));
            out
        },
        Message::BattleStop { battle } => {
            let fields = [*battle];
            let out = frame_with_bytes(4, 1, &fields, &empty);
            assert(out@ =~= encode_spec(msg@));
            out
        },
        Message::DataInput { battle, player, actions } => {
            let fields = [*battle, *player];
            let out = frame_with_bytes(5, 2 + actions.len() as u32, &fields, actions);
            assert(fields@ =~= seq![*battle, *player]);
            out
        },
        Message::DataFrame { battle, frame, actions } => {
            let mut out: Vec<u8> = Vec::new();
            push_header(&mut out, 6, 5 + actions.len() as u32);
            out.push(*battle);
            push_le32(&mut out, *frame);
            push_all(&mut out, actions);
            assert(out@ =~= encode_spec(msg@));
            out
        },
    }
}

/// Reads messages from, and writes them to, a byte stream of frames.
pub struct MessageFramer {
    cursor: usize,
}

/// How a call of `MessageFramer::decode` answers, given what the stream holds.
pub open spec fn decode_answer(d: Decoded, r: Result<Option<Message>, CodecError>) -> bool {
    match d {
        Decoded::Incomplete => r matches Ok(None),
        Decoded::Invalid => r is Err,
        Decoded::Complete { msg, .. } => r matches Ok(Some(m)) && m@ == msg,
    }
}

/// What the stream holds after a decode that found `d` at its front.
pub open spec fn decode_rest(d: Decoded, s: Seq<u8>) -> Seq<u8> {
    match d {
        Decoded::Complete { used, .. } => s.skip(used as int),
        _ => s,
    }
}

impl MessageFramer {
    /// A framer never has bytes of the stream left to skip: the count of bytes to skip
    /// starts at 0 and nothing raises it.
    #[verifier::type_invariant]
    spec fn nothing_to_skip(self) -> bool {
        self.cursor == 0
    }

    /// A framer.
    pub fn new() -> (r: MessageFramer) {
        MessageFramer { cursor: 0 }
    }

    /// Decodes the next message of the stream in `bytes`.
    ///
    /// An incomplete frame gives no message and consumes nothing, an invalid frame gives
    /// an error and consumes nothing, and a complete frame gives its message and is
    /// consumed. The answer depends on the buffer alone, whatever calls the framer saw
    /// before: a framer never has bytes left to skip.
    pub fn decode(&mut self, bytes: &mut bytes::BytesMut) -> (r: Result<
        Option<Message>,
        CodecError,
    >)
        ensures
            decode_answer(decode_spec(buffer_contents(*old(bytes))), r),
            buffer_contents(*final(bytes)) == decode_rest(
                decode_spec(buffer_contents(*old(bytes))),
                buffer_contents(*old(bytes)),
            ),
    {
        proof {
            use_type_invariant(&*self);
        }
        if self.cursor != 0 {
            let n = buffer_bytes(bytes).len();
            let cur = if self.cursor < n {
                self.cursor
            } else {
                n
            };
            buffer_advance(bytes, cur);
            self.cursor = self.cursor - cur;
            if self.cursor != 0 {
                return Ok(None);
            }
        }
        let d = decode_frame(buffer_bytes(bytes));
        match d {
            FrameDecode::Incomplete => Ok(None),
            FrameDecode::Invalid => Err(CodecError),
            FrameDecode::Complete(m, used) => {
                buffer_advance(bytes, used);
                Ok(Some(m))
            },
        }
    }

    /// Appends the frame for `msg` to `res`; a message no frame can carry (see
    /// `encodable`) is refused with an error and nothing is written.
    pub fn encode(&mut self, msg: Message, res: &mut bytes::BytesMut) -> (r: Result<(), CodecError>)
        requires
            encodable(msg@) ==> buffer_contents(*old(res)).len() + encode_spec(msg@).len()
                <= isize::MAX,
        ensures
            r is Ok <==> encodable(msg@),
            r is Ok ==> buffer_contents(*final(res)) == buffer_contents(*old(res)) + encode_spec(
                msg@,
            ),
            r is Err ==> buffer_contents(*final(res)) == buffer_contents(*old(res)),
    {
        if !encodable_message(&msg) {
            return Err(CodecError);
        }
        let frame = frame_bytes(&msg);
        buffer_extend(res, frame.as_slice());
        Ok(())
    }
}

proof fn lemma_le24_value(l: nat)
    requires
        l < 16777216,
    ensures
        (l % 256) + 256 * (l / 256 % 256) + 65536 * (l / 65536 % 256) == l,
{
    let x: u32 = l as u32;
    assert(x < 16777216 ==> (x % 256) + 256 * (x / 256 % 256) + 65536 * (x / 65536 % 256) == x)
        by (bit_vector);
}

proof fn lemma_le24_bytes(b1: u8, b2: u8, b3: u8)
    ensures
        ({
            let v = b1 as nat + 256 * (b2 as nat) + 65536 * (b3 as nat);
            &&& v < 16777216
            &&& le24(v) == seq![b1, b2, b3]
        }),
{
    let x1 = b1 as u32;
    let x2 = b2 as u32;
    let x3 = b3 as u32;
    let v: u32 = (x1 + 256 * x2 + 65536 * x3) as u32;
    assert(x1 < 256 && x2 < 256 && x3 < 256 ==> v % 256 == x1 && v / 256 % 256 == x2 && v / 65536
        % 256 == x3 && v < 16777216) by (bit_vector)
        requires
            v == x1 + 256 * x2 + 65536 * x3,
    ;
    let w = b1 as nat + 256 * (b2 as nat) + 65536 * (b3 as nat);
    assert(le24(w) =~= seq![b1, b2, b3]);
}

proof fn lemma_le32_value(v: nat)
    requires
        v < 4294967296,
    ensures
        le32_value(le32(v)) == v,
{
    let x: u64 = v as u64;
    assert(x < 4294967296 ==> (x % 256) + 256 * (x / 256 % 256) + 65536 * (x / 65536 % 256)
        + 16777216 * (x / 16777216 % 256) == x) by (bit_vector);
}

proof fn lemma_le32_bytes(b: Seq<u8>)
    requires
        b.len() == 4,
    ensures
        le32_value(b) < 4294967296,
        le32(le32_value(b)) == b,
{
    let b0 = b[0] as u64;
    let b1 = b[1] as u64;
    let b2 = b[2] as u64;
    let b3 = b[3] as u64;
    let v: u64 = (b0 + 256 * b1 + 65536 * b2 + 16777216 * b3) as u64;
    assert(b0 < 256 && b1 < 256 && b2 < 256 && b3 < 256 ==> v % 256 == b0 && v / 256 % 256 == b1
        && v / 65536 % 256 == b2 && v / 16777216 % 256 == b3 && v < 4294967296) by (bit_vector)
        requires
            v == b0 + 256 * b1 + 65536 * b2 + 16777216 * b3,
    ;
    assert(le32(le32_value(b)) =~= b);
}

proof fn lemma_decode_whole_frame(e: Seq<u8>, rest: Seq<u8>)
    requires
        e.len() >= 4,
        frame_len(e) + 4 == e.len(),
    ensures
        decode_spec(e + rest) == match payload_message(e[0], e.subrange(4, e.len() as int)) {
            Some(x) => Decoded::Complete { msg: x, used: e.len() },
            None => Decoded::Invalid,
        },
{
    let buf = e + rest;
    assert(buf.subrange(0, e.len() as int) =~= e);
    assert(frame_len(buf) == frame_len(e));
    assert(buf.subrange(4, 4 + frame_len(buf) as int) =~= e.subrange(4, e.len() as int));
}

/// The facts the round trip needs of one message: its frame is as long as its length
/// field says, and its payload carries it.
spec fn payload_carries(m: MessageView) -> bool {
    let e = encode_spec(m);
    &&& e.len() >= 4
    &&& frame_len(e) + 4 == e.len()
    &&& payload_message(e[0], e.subrange(4, e.len() as int)) == Some(m)
}

proof fn lemma_carries_test(raw: Seq<u8>)
    requires
        raw.len() < 256,
    ensures
        payload_carries(MessageView::BattleTest { raw }),
{
    let m = MessageView::BattleTest { raw };
    let e = encode_spec(m);
    lemma_le24_value(encoded_len_field(m));
    let p = e.subrange(4, e.len() as int);
    assert(p.subrange(1, p.len() as int) =~= raw);
}

proof fn lemma_carries_meta(battle: u8, player: u8, raw: Seq<u8>)
    requires
        raw.len() < 256,
    ensures
        payload_carries(MessageView::BattleMeta { battle, player, raw }),
{
    let m = MessageView::BattleMeta { battle, player, raw };
    let e = encode_spec(m);
    lemma_le24_value(encoded_len_field(m));
    let p = e.subrange(4, e.len() as int);
    assert(p.subrange(3, p.len() as int) =~= raw);
}

proof fn lemma_carries_input(battle: u8, player: u8, actions: Seq<u8>)
    requires
        actions.len() + 2 < 16777216,
    ensures
        payload_carries(MessageView::DataInput { battle, player, actions }),
{
    let m = MessageView::DataInput { battle, player, actions };
    let e = encode_spec(m);
    lemma_le24_value(encoded_len_field(m));
    assert(frame_len(e) == encoded_len_field(m));
    let p = e.subrange(4, e.len() as int);
    assert(p.subrange(2, p.len() as int) =~= actions);
}

proof fn lemma_carries_frame(battle: u8, frame: usize, actions: Seq<u8>)
    requires
        actions.len() + 5 < 16777216,
        frame <= u32::MAX,
    ensures
        payload_carries(MessageView::DataFrame { battle, frame, actions }),
{
    let m = MessageView::DataFrame { battle, frame, actions };
    let e = encode_spec(m);
    lemma_le24_value(encoded_len_field(m));
    assert(frame_len(e) == encoded_len_field(m));
    let p = e.subrange(4, e.len() as int);
    assert(p.subrange(5, p.len() as int) =~= actions);
    assert(p.subrange(1, 5) =~= le32(frame as nat));
    lemma_le32_value(frame as nat);
}

proof fn lemma_carries_short(m: MessageView)
    requires
        m is BattleInit || m is BattleStart || m is BattleStop,
    ensures
        payload_carries(m),
{
    let e = encode_spec(m);
    assert(e.subrange(4, e.len() as int) =~= e.skip(4));
}

/// Decoding a stream that starts with the frame of a message gives that message back and
/// consumes exactly its frame, whatever follows it; the frame's header gives the length of
/// its payload.
pub proof fn lemma_encode_decode_roundtrip(m: MessageView, rest: Seq<u8>)
    requires
        encodable(m),
    ensures
        frame_len(encode_spec(m)) + 4 == encode_spec(m).len(),
        decode_spec(encode_spec(m) + rest) == (Decoded::Complete {
            msg: m,
            used: encode_spec(m).len(),
        }),
{
    match m {
        MessageView::BattleTest { raw } => lemma_carries_test(raw),
        MessageView::BattleMeta { battle, player, raw } => lemma_carries_meta(battle, player, raw),
        MessageView::DataInput { battle, player, actions } => lemma_carries_input(
            battle,
            player,
            actions,
        ),
        MessageView::DataFrame { battle, frame, actions } => lemma_carries_frame(
            battle,
            frame,
            actions,
        ),
        _ => lemma_carries_short(m),
    }
    lemma_decode_whole_frame(encode_spec(m), rest);
}

/// Decoding reads nothing past the frame: once the front of a stream is a whole frame,
/// valid or not, bytes that arrive after it do not change how it decodes.
pub proof fn lemma_decode_no_lookahead(buf: Seq<u8>, extra: Seq<u8>)
    requires
        !(decode_spec(buf) is Incomplete),
    ensures
        decode_spec(buf + extra) == decode_spec(buf),
{
    let b2 = buf + extra;
    assert(b2.subrange(0, buf.len() as int) =~= buf);
    assert(frame_len(b2) == frame_len(buf));
    assert(b2.subrange(4, 4 + frame_len(b2) as int) =~= buf.subrange(4, 4 + frame_len(buf) as int));
}

/// A frame that decodes to a message is exactly the frame the encoder writes for that
/// message: every decoded message can be encoded, and has one encoding.
pub proof fn lemma_decode_encode_roundtrip(buf: Seq<u8>)
    requires
        decode_spec(buf) is Complete,
    ensures
        decode_spec(buf) matches Decoded::Complete { msg, used } && encodable(msg)
            && encode_spec(msg) == buf.subrange(0, used as int),
{
    let len = frame_len(buf);
    let p = buf.subrange(4, 4 + len as int);
    if let Decoded::Complete { msg, used } = decode_spec(buf) {
        lemma_le24_bytes(buf[1], buf[2], buf[3]);
        assert(encoded_len_field(msg) == len);
        if msg is DataFrame {
            lemma_le32_bytes(p.subrange(1, 5));
            assert(le32(msg->DataFrame_frame as nat) =~= p.subrange(1, 5));
        }
        assert(encode_spec(msg) =~= buf.subrange(0, used as int));
    }
}

} // verus!
