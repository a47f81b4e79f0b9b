//! WebSocket framing: frames to and from bytes, fragmented messages, and the
//! opening handshake.
use vstd::prelude::*;
use vstd::utf8::{decode_utf8, encode_utf8, valid_utf8};
use crate::header::first_value;
use crate::http::{content_length_key, unexpected_eof, Request, Response, ResponseView};
use crate::text::{append_bytes, slice_of, string_from_utf8, utf8_bytes};

verus! {

/// The frame opcodes.
#[derive(Debug, PartialEq, Eq, Structural, Copy, Clone)]
pub enum OpCode {
    CONTINUATION,
    TEXT,
    BINARY,
    CLOSE,
    PING,
    PONG,
}

pub open spec fn opcode_value(op: OpCode) -> u8 {
    match op {
        OpCode::CONTINUATION => 0x0,
        OpCode::TEXT => 0x1,
        OpCode::BINARY => 0x2,
        OpCode::CLOSE => 0x8,
        OpCode::PING => 0x9,
        OpCode::PONG => 0xA,
    }
}

pub open spec fn opcode_of(b: u8) -> Option<OpCode> {
    if b == 0x0 {
        Some(OpCode::CONTINUATION)
    } else if b == 0x1 {
        Some(OpCode::TEXT)
    } else if b == 0x2 {
        Some(OpCode::BINARY)
    } else if b == 0x8 {
        Some(OpCode::CLOSE)
    } else if b == 0x9 {
        Some(OpCode::PING)
    } else if b == 0xA {
        Some(OpCode::PONG)
    } else {
        None
    }
}

impl OpCode {
    pub fn to_byte(&self) -> (r: u8)
        ensures
            r == opcode_value(*self),
    {
        match self {
            OpCode::CONTINUATION => 0x0,
            OpCode::TEXT => 0x1,
            OpCode::BINARY => 0x2,
            OpCode::CLOSE => 0x8,
            OpCode::PING => 0x9,
            OpCode::PONG => 0xA,
        }
    }

    /// The opcode of the low four bits of a frame's first byte.
    pub fn from_bits(byte: u8) -> (r: Result<OpCode, Error>)
        ensures
            r is Ok <==> opcode_of(byte) is Some,
            r is Ok ==> r->Ok_0 == opcode_of(byte).unwrap(),
            r is Err ==> r->Err_0 is InvalidOpCode,
    {
        match byte {
            0x0 => Ok(OpCode::CONTINUATION),
            0x1 => Ok(OpCode::TEXT),
            0x2 => Ok(OpCode::BINARY),
            0x8 => Ok(OpCode::CLOSE),
            0x9 => Ok(OpCode::PING),
            0xA => Ok(OpCode::PONG),
            _ => Err(Error::InvalidOpCode),
        }
    }
}

/// What can go wrong on a WebSocket connection.
#[derive(Debug)]
pub enum Error {
    ConnectionClosed,
    IOError(std::io::Error),
    HTTPError(crate::http::Error),
    InvalidOpCode,
}

/// A frame as a value.
pub struct FrameView {
    pub fin: bool,
    pub opcode: OpCode,
    pub payload: Seq<u8>,
}

/// One WebSocket frame.
#[derive(Debug)]
pub struct DataFrame {
    fin: bool,
    opcode: OpCode,
    payload: Vec<u8>,
}

impl View for DataFrame {
    type V = FrameView;

    closed spec fn view(&self) -> FrameView {
        FrameView { fin: self.fin, opcode: self.opcode, payload: self.payload@ }
    }
}

/// Value of big-endian bytes.
pub open spec fn be_value(b: Seq<u8>) -> nat
    decreases b.len(),
{
    if b.len() == 0 {
        0
    } else {
        be_value(b.drop_last()) * 256 + b.last() as nat
    }
}

/// The `n` big-endian bytes of `v`.
pub open spec fn be_bytes(v: nat, n: nat) -> Seq<u8>
    decreases n,
{
    if n == 0 {
        seq![]
    } else {
        be_bytes(v / 256, (n - 1) as nat).push((v % 256) as u8)
    }
}

pub open spec fn pow256(n: nat) -> nat
    decreases n,
{
    if n == 0 {
        1
    } else {
        pow256((n - 1) as nat) * 256
    }
}

/// The payload length field: the marker of the second byte, followed by two
/// bytes where the length needs 16 bits and by eight where it needs more.
pub open spec fn length_field(n: nat) -> Seq<u8> {
    if n <= 125 {
        seq![n as u8]
    } else if n <= 65535 {
        seq![126u8] + be_bytes(n, 2)
    } else {
        seq![127u8] + be_bytes(n, 8)
    }
}

/// The wire form of a frame sent by a server: FIN and opcode, the length in
/// its shortest form, no mask, the payload.
pub open spec fn encode_frame(f: FrameView) -> Seq<u8> {
    seq![((if f.fin {
        128u8
    } else {
        0u8
    }) + opcode_value(f.opcode)) as u8] + length_field(f.payload.len()) + f.payload
}

/// `raw` with each byte XORed with the key byte at its index modulo 4.
pub open spec fn unmask(raw: Seq<u8>, key: Seq<u8>) -> Seq<u8> {
    Seq::new(raw.len(), |i: int| raw[i] ^ key[i % 4])
}

/// Kinds of frame decoding failure.
pub enum FrameFailure {
    IOError,
    InvalidOpCode,
}

/// The frame at the start of `b`, and the number of bytes it takes.
pub open spec fn decode_frame(b: Seq<u8>) -> Result<(FrameView, int), FrameFailure> {
    if b.len() < 2 {
        Err(FrameFailure::IOError)
    } else {
        match opcode_of(b[0] % 16) {
            None => Err(FrameFailure::InvalidOpCode),
            Some(op) => {
                let marker = b[1] % 128;
                let ext: int = if marker == 126 {
                    2
                } else if marker == 127 {
                    8
                } else {
                    0
                };
                let mlen: int = if b[1] >= 128 {
                    4
                } else {
                    0
                };
                if b.len() < 2 + ext + mlen {
                    Err(FrameFailure::IOError)
                } else {
                    let len: int = if ext == 0 {
                        marker as int
                    } else {
                        be_value(b.subrange(2, 2 + ext)) as int
                    };
                    let start = 2 + ext + mlen;
                    if b.len() < start + len {
                        Err(FrameFailure::IOError)
                    } else {
                        let raw = b.subrange(start, start + len);
                        let payload = if mlen == 4 {
                            unmask(raw, b.subrange(2 + ext, start))
                        } else {
                            raw
                        };
                        Ok((FrameView { fin: b[0] >= 128, opcode: op, payload }, start + len))
                    }
                }
            },
        }
    }
}

fn be_bytes_of(v: u64, n: usize) -> (r: Vec<u8>)
    ensures
        r@ == be_bytes(v as nat, n as nat),
    decreases n,
{
    if n == 0 {
        Vec::new()
    } else {
        let mut r = be_bytes_of(v / 256, n - 1);
        r.push((v % 256) as u8);
        r
    }
}

fn be_value_of(b: &Vec<u8>, lo: usize, hi: usize) -> (r: u64)
    requires
        lo <= hi <= b@.len(),
        hi - lo <= 8,
    ensures
        r as nat == be_value(b@.subrange(lo as int, hi as int)),
{
    let mut v: u64 = 0;
    let mut i: usize = lo;
    while i < hi
        invariant
            lo <= i <= hi <= b@.len(),
            hi - lo <= 8,
            v as nat == be_value(b@.subrange(lo as int, i as int)),
        decreases hi - i,
    {
        proof {
            let s = b@.subrange(lo as int, i + 1);
            assert(s.drop_last() =~= b@.subrange(lo as int, i as int));
            lemma_be_bound(b@.subrange(lo as int, i as int));
            lemma_pow_mono((i - lo) as nat, 7);
            assert(pow256(7) == 0x100000000000000) by {
                reveal_with_fuel(pow256, 8);
            }
            let p = pow256((i - lo) as nat);
            assert((v as nat) * 256 + 255 < 0x10000000000000000) by (nonlinear_arith)
                requires
                    (v as nat) < p,
                    p <= 0x100000000000000,
            ;
        }
        v = v * 256 + b[i] as u64;
        i = i + 1;
    }
    v
}

proof fn lemma_be_bound(s: Seq<u8>)
    ensures
        be_value(s) < pow256(s.len()),
    decreases s.len(),
{
    if s.len() > 0 {
        lemma_be_bound(s.drop_last());
        let a = be_value(s.drop_last());
        let p = pow256((s.len() - 1) as nat);
        assert(a * 256 + (s.last() as nat) < p * 256) by (nonlinear_arith)
            requires
                a < p,
                (s.last() as nat) < 256,
        ;
    }
}

proof fn lemma_pow_mono(a: nat, b: nat)
    requires
        a <= b,
    ensures
        pow256(a) <= pow256(b),
    decreases b,
{
    if a < b {
        lemma_pow_mono(a, (b - 1) as nat);
    }
}

impl DataFrame {
    /// A final text frame carrying the UTF-8 bytes of `text`.
    pub fn text(text: &str) -> (r: Self)
        ensures
            r@ == (FrameView { fin: true, opcode: OpCode::TEXT, payload: encode_utf8(text@) }),
    {
        DataFrame { fin: true, opcode: OpCode::TEXT, payload: utf8_bytes(text) }
    }

    /// A final binary frame carrying `binary`.
    pub fn binary(binary: Vec<u8>) -> (r: Self)
        ensures
            r@ == (FrameView { fin: true, opcode: OpCode::BINARY, payload: binary@ }),
    {
        DataFrame { fin: true, opcode: OpCode::BINARY, payload: binary }
    }

    /// A frame with the given parts.
    pub fn new(fin: bool, opcode: OpCode, payload: Vec<u8>) -> (r: Self)
        ensures
            r@ == (FrameView { fin, opcode, payload: payload@ }),
    {
        DataFrame { fin, opcode, payload }
    }

    pub fn fin(&self) -> (r: bool)
        ensures
            r == self@.fin,
    {
        self.fin
    }

    pub fn opcode(&self) -> (r: OpCode)
        ensures
            r == self@.opcode,
    {
        self.opcode
    }

    pub fn payload(&self) -> (r: &Vec<u8>)
        ensures
            r@ == self@.payload,
    {
        &self.payload
    }

    /// The frame at the start of `bytes` and the number of bytes it takes;
    /// too few bytes is an `IOError` of the kind `UnexpectedEof`.
    pub fn read_single(bytes: &Vec<u8>) -> (r: Result<(DataFrame, usize), Error>)
        ensures
            r is Ok <==> decode_frame(bytes@) is Ok,
            r is Ok ==> r->Ok_0.0@ == decode_frame(bytes@)->Ok_0.0 && r->Ok_0.1 as int
                == decode_frame(bytes@)->Ok_0.1,
            r is Err ==> (r->Err_0 is InvalidOpCode <==> decode_frame(bytes@)->Err_0 is InvalidOpCode),
            r is Err ==> (r->Err_0 is InvalidOpCode || r->Err_0 is IOError),
    {
        let n = bytes.len();
        if n < 2 {
            return Err(Error::IOError(unexpected_eof()));
        }
        let b0 = bytes[0];
        let b1 = bytes[1];
        let opcode = OpCode::from_bits(b0 % 16)?;
        let marker = b1 % 128;
        let ext: usize = if marker == 126 {
            2
        } else if marker == 127 {
            8
        } else {
            0
        };
        let mlen: usize = if b1 >= 128 {
            4
        } else {
            0
        };
        if n < 2 + ext + mlen {
            return Err(Error::IOError(unexpected_eof()));
        }
        let len: u64 = if ext == 0 {
            marker as u64
        } else {
            be_value_of(bytes, 2, 2 + ext)
        };
        let start = 2 + ext + mlen;
        if len > (n - start) as u64 {
            return Err(Error::IOError(unexpected_eof()));
        }
        let len = len as usize;
        let raw = slice_of(bytes, start, start + len);
        let payload = if mlen == 4 {
            let mut out: Vec<u8> = Vec::new();
            let mut i: usize = 0;
            while i < len
                invariant
                    0 <= i <= len,
                    raw@.len() == len,
                    start == 2 + ext + 4,
                    start <= n,
                    n == bytes@.len(),
                    out@ == unmask(raw@.subrange(0, i as int), bytes@.subrange(2 + ext, start as int)),
                decreases len - i,
            {
                let k = bytes[2 + ext + i % 4];
                out.push(raw[i] ^ k);
                proof {
                    assert(out@ =~= unmask(
                        raw@.subrange(0, i + 1),
                        bytes@.subrange(2 + ext, start as int),
                    ));
                }
                i = i + 1;
            }
            proof {
                assert(raw@.subrange(0, len as int) =~= raw@);
            }
            out
        } else {
            raw
        };
        Ok((DataFrame { fin: b0 >= 128, opcode, payload }, start + len))
    }

    /// The wire form of the frame.
    pub fn into_bytes(self) -> (r: Vec<u8>)
        requires
            self@.payload.len() <= u64::MAX,
        ensures
            r@ == encode_frame(self@),
    {
        let mut bytes: Vec<u8> = Vec::new();
        let first: u8 = if self.fin {
            128
        } else {
            0
        };
        bytes.push(first + self.opcode.to_byte());
        let n = self.payload.len();
        if n <= 125 {
            bytes.push(n as u8);
        } else if n <= 65535 {
            bytes.push(126);
            let l = be_bytes_of(n as u64, 2);
            append_bytes(&mut bytes, l.as_slice());
        } else {
            bytes.push(127);
            let l = be_bytes_of(n as u64, 8);
            append_bytes(&mut bytes, l.as_slice());
        }
        append_bytes(&mut bytes, self.payload.as_slice());
        proof {
            assert(bytes@ =~= encode_frame(self@));
        }
        bytes
    }
}

/// Payloads of the frames from `pos` up to and including the first final
/// one, joined, and where that frame ends.
pub open spec fn read_rest(b: Seq<u8>, pos: int) -> Result<(Seq<u8>, int), FrameFailure>
    decreases b.len() - pos,
{
    if pos < 0 || pos > b.len() {
        Err(FrameFailure::IOError)
    } else {
        match decode_frame(b.subrange(pos, b.len() as int)) {
            Err(e) => Err(e),
            Ok(fk) => if fk.0.fin {
                Ok((fk.0.payload, pos + fk.1))
            } else if fk.1 > 0 {
                match read_rest(b, pos + fk.1) {
                    Ok(rest) => Ok((fk.0.payload + rest.0, rest.1)),
                    Err(e) => Err(e),
                }
            } else {
                Err(FrameFailure::IOError)
            },
        }
    }
}

/// The message at the start of `b`: the opcode of its first frame, the
/// payloads of its frames up to the final one, and where it ends.
pub open spec fn read_message(b: Seq<u8>) -> Result<(FrameView, int), FrameFailure> {
    match decode_frame(b) {
        Err(e) => Err(e),
        Ok(first) => match read_rest(b, 0) {
            Ok(rest) => Ok((FrameView { fin: true, opcode: first.0.opcode, payload: rest.0 }, rest.1)),
            Err(e) => Err(e),
        },
    }
}

/// A message of the WebSocket protocol.
#[derive(Debug)]
pub enum Message {
    String(String),
    Binary(Vec<u8>),
    Close,
    Ping,
    Pong,
}

/// A message as a value.
pub enum MessageView {
    String(Seq<char>),
    Binary(Seq<u8>),
    Close,
    Ping,
    Pong,
}

impl View for Message {
    type V = MessageView;

    open spec fn view(&self) -> MessageView {
        match self {
            Message::String(s) => MessageView::String(s@),
            Message::Binary(b) => MessageView::Binary(b@),
            Message::Close => MessageView::Close,
            Message::Ping => MessageView::Ping,
            Message::Pong => MessageView::Pong,
        }
    }
}

/// The message a whole frame carries: none for a continuation frame or for
/// text that is not UTF-8.
pub open spec fn message_of(f: FrameView) -> Option<MessageView> {
    match f.opcode {
        OpCode::CONTINUATION => None,
        OpCode::TEXT => if valid_utf8(f.payload) {
            Some(MessageView::String(decode_utf8(f.payload)))
        } else {
            None
        },
        OpCode::BINARY => Some(MessageView::Binary(f.payload)),
        OpCode::CLOSE => Some(MessageView::Close),
        OpCode::PING => Some(MessageView::Ping),
        OpCode::PONG => Some(MessageView::Pong),
    }
}

/// The single final frame that carries a message.
pub open spec fn frame_of(m: MessageView) -> FrameView {
    match m {
        MessageView::String(s) => FrameView { fin: true, opcode: OpCode::TEXT, payload: encode_utf8(s) },
        MessageView::Binary(b) => FrameView { fin: true, opcode: OpCode::BINARY, payload: b },
        MessageView::Close => FrameView { fin: true, opcode: OpCode::CLOSE, payload: seq![] },
        MessageView::Ping => FrameView { fin: true, opcode: OpCode::PING, payload: seq![] },
        MessageView::Pong => FrameView { fin: true, opcode: OpCode::PONG, payload: seq![] },
    }
}

impl Message {
    /// The message carried by the whole frame `frame`.
    pub fn from_frame(frame: DataFrame) -> (r: Option<Message>)
        ensures
            r.is_some() == (message_of(frame@) is Some),
            r.is_some() ==> r.unwrap()@ == message_of(frame@).unwrap(),
    {
        match frame.opcode {
            OpCode::CONTINUATION => None,
            OpCode::TEXT => match string_from_utf8(frame.payload) {
                Some(s) => Some(Message::String(s)),
                None => None,
            },
            OpCode::BINARY => Some(Message::Binary(frame.payload)),
            OpCode::CLOSE => Some(Message::Close),
            OpCode::PING => Some(Message::Ping),
            OpCode::PONG => Some(Message::Pong),
        }
    }
}

impl DataFrame {
    /// The single final frame that carries `message`.
    pub fn from_message(message: Message) -> (r: DataFrame)
        ensures
            r@ == frame_of(message@),
    {
        match message {
            Message::String(s) => DataFrame::text(s.as_str()),
            Message::Binary(b) => DataFrame::binary(b),
            Message::Close => DataFrame::new(true, OpCode::CLOSE, Vec::new()),
            Message::Ping => DataFrame::new(true, OpCode::PING, Vec::new()),
            Message::Pong => DataFrame::new(true, OpCode::PONG, Vec::new()),
        }
    }

    /// The message at the start of `bytes`, its fragments joined, and the
    /// number of bytes it takes.
    pub fn read(bytes: &Vec<u8>) -> (r: Result<(DataFrame, usize), Error>)
        ensures
            r is Ok <==> read_message(bytes@) is Ok,
            r is Ok ==> r->Ok_0.0@ == read_message(bytes@)->Ok_0.0 && r->Ok_0.1 as int
                == read_message(bytes@)->Ok_0.1,
            r is Err ==> (r->Err_0 is InvalidOpCode <==> read_message(bytes@)->Err_0 is InvalidOpCode),
            r is Err ==> (r->Err_0 is InvalidOpCode || r->Err_0 is IOError),
    {
        let n = bytes.len();
        let (first, _) = DataFrame::read_single(bytes)?;
        let opcode = first.opcode;
        let mut payload: Vec<u8> = Vec::new();
        let mut pos: usize = 0;
        proof {
            assert(bytes@.subrange(0, n as int) =~= bytes@);
        }
        loop
            invariant
                pos <= n,
                n == bytes@.len(),
                decode_frame(bytes@) is Ok,
                opcode == decode_frame(bytes@)->Ok_0.0.opcode,
                read_rest(bytes@, 0) == (match read_rest(bytes@, pos as int) {
                    Ok(rest) => Ok((payload@ + rest.0, rest.1)),
                    Err(e) => Err(e),
                }),
            decreases n - pos,
        {
            let rest = slice_of(bytes, pos, n);
            let (f, k) = match DataFrame::read_single(&rest) {
                Ok(p) => p,
                Err(e) => {
                    return Err(e);
                },
            };
            let ghost before = payload@;
            append_bytes(&mut payload, f.payload.as_slice());
            if f.fin {
                proof {
                    assert(before + f@.payload =~= payload@);
                }
                return Ok((DataFrame { fin: true, opcode, payload }, pos + k));
            }
            if k == 0 {
                return Err(Error::IOError(unexpected_eof()));
            }
            proof {
                match read_rest(bytes@, pos + k) {
                    Ok(r2) => {
                        assert(before + (f@.payload + r2.0) =~= payload@ + r2.0);
                    },
                    Err(e) => {},
                }
            }
            pos = pos + k;
        }
    }
}

/// The GUID of the WebSocket handshake.
pub open spec fn websocket_guid() -> Seq<char> {
    seq![
        '2', '5', '8', 'E', 'A', 'F', 'A', '5', '-', 'E', '9', '1', '4', '-', '4', '7', 'D', 'A',
        '-', '9', '5', 'C', 'A', '-', 'C', '5', 'A', 'B', '0', 'D', 'C', '8', '5', 'B', '1', '1',
    ]
}

/// The SHA-1 digest of some bytes.
pub uninterp spec fn sha1_of(data: Seq<u8>) -> Seq<u8>;

/// The base64 text of some bytes.
pub uninterp spec fn base64_of(data: Seq<u8>) -> Seq<char>;

/// Relies on `openssl::sha::sha1`: the 20-byte SHA-1 digest of the data.
#[verifier::external_body]
fn sha1(data: &Vec<u8>) -> (r: Vec<u8>)
    ensures
        r@ == sha1_of(data@),
        r@.len() == 20,
{
    openssl::sha::sha1(data.as_slice()).to_vec()
}

/// Relies on `openssl::base64::encode_block`: the base64 text of the data. It
/// panics where the encoded length, with its terminating NUL, overflows a C
/// `int`; lengths up to 1,610,612,733 bytes are safe.
#[verifier::external_body]
fn base64_block(data: &Vec<u8>) -> (r: String)
    requires
        data@.len() <= 1_610_612_733,
    ensures
        r@ == base64_of(data@),
{
    openssl::base64::encode_block(data.as_slice())
}

/// The `Sec-WebSocket-Accept` value for the client key `key`: base64 of the
/// SHA-1 digest of the key followed by the handshake GUID.
pub open spec fn accept_of(key: Seq<char>) -> Seq<char> {
    base64_of(sha1_of(encode_utf8(key + websocket_guid())))
}

/// The accept value for the client key `key`.
pub fn accept_key(key: &str) -> (r: String)
    ensures
        r@ == accept_of(key@),
{
    let mut s = String::from_str(key);
    s.append("258EAFA5-E914-47DA-95CA-C5AB0DC85B11");
    proof {
        reveal_strlit("258EAFA5-E914-47DA-95CA-C5AB0DC85B11");
        assert("258EAFA5-E914-47DA-95CA-C5AB0DC85B11"@ =~= websocket_guid());
    }
    let digest = sha1(&utf8_bytes(s.as_str()));
    base64_block(&digest)
}

/// `Upgrade`, `websocket`, `Connection`, `Sec-WebSocket-Key`,
/// `Sec-WebSocket-Accept`.
pub open spec fn upgrade_key() -> Seq<char> {
    seq!['U', 'p', 'g', 'r', 'a', 'd', 'e']
}

pub open spec fn websocket_value() -> Seq<char> {
    seq!['w', 'e', 'b', 's', 'o', 'c', 'k', 'e', 't']
}

pub open spec fn connection_key() -> Seq<char> {
    seq!['C', 'o', 'n', 'n', 'e', 'c', 't', 'i', 'o', 'n']
}

pub open spec fn key_key() -> Seq<char> {
    seq!['S', 'e', 'c', '-', 'W', 'e', 'b', 'S', 'o', 'c', 'k', 'e', 't', '-', 'K', 'e', 'y']
}

pub open spec fn accept_header() -> Seq<char> {
    seq![
        'S', 'e', 'c', '-', 'W', 'e', 'b', 'S', 'o', 'c', 'k', 'e', 't', '-', 'A', 'c', 'c', 'e',
        'p', 't',
    ]
}

/// The `101` response that accepts a handshake whose accept value is `accept`.
pub fn switching_response(accept: &str) -> (r: Response)
    ensures
        r@ == (ResponseView {
            code: 101,
            header: seq![
                (content_length_key(), seq!['0']),
                (upgrade_key(), websocket_value()),
                (connection_key(), upgrade_key()),
                (accept_header(), accept@),
            ],
            body: seq![],
        }),
{
    proof {
        reveal_strlit("Upgrade");
        reveal_strlit("websocket");
        reveal_strlit("Connection");
        reveal_strlit("Sec-WebSocket-Accept");
        assert("Upgrade"@ =~= upgrade_key());
        assert("websocket"@ =~= websocket_value());
        assert("Connection"@ =~= connection_key());
        assert("Sec-WebSocket-Accept"@ =~= accept_header());
    }
    let r = Response::new(101).with_header("Upgrade", "websocket").with_header(
        "Connection",
        "Upgrade",
    ).with_header("Sec-WebSocket-Accept", accept);
    proof {
        assert(r@.header =~= seq![
            (content_length_key(), seq!['0']),
            (upgrade_key(), websocket_value()),
            (connection_key(), upgrade_key()),
            (accept_header(), accept@),
        ]);
    }
    r
}

/// Whether `h` asks for a WebSocket upgrade with a key.
pub open spec fn is_upgrade(h: Seq<(Seq<char>, Seq<char>)>) -> bool {
    &&& first_value(h, upgrade_key()) == Some(websocket_value())
    &&& first_value(h, connection_key()) == Some(upgrade_key())
    &&& first_value(h, key_key()) is Some
}

fn str_eq(a: &str, b: &str) -> (r: bool)
    ensures
        r == (a@ == b@),
{
    let x = String::from_str(a);
    let y = String::from_str(b);
    x == y
}

/// The response that accepts `request` as a WebSocket handshake, or none
/// where it does not ask for an upgrade.
pub fn handshake_response(request: &Request) -> (r: Option<Response>)
    ensures
        r.is_some() == is_upgrade(request@.header),
        r.is_some() ==> r.unwrap()@ == (ResponseView {
            code: 101,
            header: seq![
                (content_length_key(), seq!['0']),
                (upgrade_key(), websocket_value()),
                (connection_key(), upgrade_key()),
                (accept_header(), accept_of(first_value(request@.header, key_key()).unwrap())),
            ],
            body: seq![],
        }),
{
    proof {
        reveal_strlit("Upgrade");
        reveal_strlit("websocket");
        reveal_strlit("Connection");
        reveal_strlit("Sec-WebSocket-Key");
        assert("Upgrade"@ =~= upgrade_key());
        assert("websocket"@ =~= websocket_value());
        assert("Connection"@ =~= connection_key());
        assert("Sec-WebSocket-Key"@ =~= key_key());
    }
    match request.header("Upgrade") {
        Some(v) => {
            if !str_eq(v, "websocket") {
                return None;
            }
        },
        None => {
            return None;
        },
    }
    match request.header("Connection") {
        Some(v) => {
            if !str_eq(v, "Upgrade") {
                return None;
            }
        },
        None => {
            return None;
        },
    }
    match request.header("Sec-WebSocket-Key") {
        Some(key) => {
            let accept = accept_key(key);
            Some(switching_response(accept.as_str()))
        },
        None => None,
    }
}

proof fn lemma_be_round_trip(v: nat, k: nat)
    requires
        v < pow256(k),
    ensures
        be_bytes(v, k).len() == k,
        be_value(be_bytes(v, k)) == v,
    decreases k,
{
    if k > 0 {
        let p = pow256((k - 1) as nat);
        assert(v / 256 < p) by (nonlinear_arith)
            requires
                v < p * 256,
        ;
        lemma_be_round_trip(v / 256, (k - 1) as nat);
        let b = be_bytes(v, k);
        assert(b.drop_last() =~= be_bytes(v / 256, (k - 1) as nat));
        assert((v / 256) * 256 + v % 256 == v) by (nonlinear_arith);
    } else {
        assert(pow256(0) == 1);
    }
}

/// Decoding the wire form of a frame, whatever bytes follow it, gives the
/// frame back (FIN, opcode and payload) and takes exactly the wire form, for
/// every payload whose length fits in 64 bits.
pub proof fn lemma_frame_round_trip(f: FrameView, rest: Seq<u8>)
    requires
        f.payload.len() < pow256(8),
    ensures
        decode_frame(encode_frame(f) + rest) == Ok::<(FrameView, int), FrameFailure>(
            (f, encode_frame(f).len() as int),
        ),
{
    let e = encode_frame(f);
    let b = e + rest;
    let n = f.payload.len();
    let op = opcode_value(f.opcode);
    let b0: u8 = ((if f.fin {
        128u8
    } else {
        0u8
    }) + op) as u8;
    let lf = length_field(n);
    assert(e =~= seq![b0] + lf + f.payload);
    assert(b[0] == b0);
    assert(b0 % 16 == op);
    assert(opcode_of(op) == Some(f.opcode));
    assert((b0 >= 128) == f.fin);
    assert(pow256(2) == 65536) by {
        reveal_with_fuel(pow256, 3);
    }
    if n <= 125 {
        assert(b[1] == n as u8);
        assert(b.subrange(2, 2 + n as int) =~= f.payload);
    } else if n <= 65535 {
        lemma_be_round_trip(n, 2);
        assert(b[1] == 126u8);
        assert(b.subrange(2, 4) =~= be_bytes(n, 2));
        assert(b.subrange(4, 4 + n as int) =~= f.payload);
    } else {
        lemma_be_round_trip(n, 8);
        assert(b[1] == 127u8);
        assert(b.subrange(2, 10) =~= be_bytes(n, 8));
        assert(b.subrange(10, 10 + n as int) =~= f.payload);
    }
}

} // verus!
