//! The wire protocol of the networked gomoku session.
//!
//! Every message starts with a four-byte big-endian type tag, followed
//! by a type-specific body; names, chat text and error diagnostics are
//! length-prefixed byte strings, and timestamps travel as eight-byte
//! big-endian millisecond counts. A parse attempt over a byte buffer
//! yields the message and how many bytes it used, or nothing when the
//! buffer holds fewer bytes than the message needs; an unrecognised
//! tag or role byte becomes an `Error` message instead of failing the
//! stream.

use vstd::prelude::*;

verus! {

broadcast use vstd::seq_lib::lemma_seq_contains_after_push;

/// The part a peer plays in a room.
#[derive(Clone, Copy, PartialEq, Eq, Structural, Debug)]
pub enum Role {
    Owner,
    Invalid,
    Player,
    Visitor,
}

impl Role {
    /// The byte a role travels as.
    pub open spec fn spec_u8(self) -> int {
        match self {
            Role::Player => 0,
            Role::Visitor => 1,
            _ => 0,
        }
    }

    /// Only the two over-the-wire roles can be sent.
    pub fn to_u8(&self) -> (r: u8)
        requires
            *self == Role::Player || *self == Role::Visitor,
        ensures
            r == self.spec_u8(),
    {
        match *self {
            Role::Player => 0,
            _ => 1,
        }
    }

    /// The role a byte names; an unknown byte is `Invalid`.
    pub open spec fn spec_from_u8(val: int) -> Role {
        if val == 0 {
            Role::Player
        } else if val == 1 {
            Role::Visitor
        } else {
            Role::Invalid
        }
    }

    pub fn from_u8(val: u8) -> (r: Role)
        ensures
            r == Role::spec_from_u8(val as int),
    {
        match val {
            0 => Role::Player,
            1 => Role::Visitor,
            _ => Role::Invalid,
        }
    }
}

/// One message of the protocol. Text fields carry the raw bytes that
/// travel on the wire; timestamps are milliseconds since the epoch.
#[derive(Clone, PartialEq, Eq, Debug)]
pub enum NetworkEvent {
    Error(Vec<u8>),
    EnterRoom { name: Vec<u8>, role: Role },
    EnterPermitted { role: Role, name: Vec<u8> },
    RoomIsFull,
    Ping { send_time: u64 },
    Pong { send_time: u64 },
    RoomDisbanded,
    LeaveRoom,
    SetPrepared(bool),
    StartGame,
    PutChess { x: u8, y: u8 },
    ChatMessage(Vec<u8>),
    UndoRequest,
    PutChessSucceed,
    UndoReply(bool),
    Escape,
}

/// The four big-endian bytes of a 32-bit value.
pub open spec fn be32(v: int) -> Seq<u8> {
    seq![
        ((v / 0x1000000) % 256) as u8,
        ((v / 0x10000) % 256) as u8,
        ((v / 0x100) % 256) as u8,
        (v % 256) as u8,
    ]
}

/// The value four big-endian bytes carry.
pub open spec fn be32_val(b: Seq<u8>) -> int {
    b[0] * 0x1000000 + b[1] * 0x10000 + b[2] * 0x100 + b[3]
}

/// The two big-endian bytes of a 16-bit value.
pub open spec fn be16(v: int) -> Seq<u8> {
    seq![((v / 0x100) % 256) as u8, (v % 256) as u8]
}

/// The eight big-endian bytes of a 64-bit value.
pub open spec fn be64(v: int) -> Seq<u8> {
    seq![
        ((v / 0x100000000000000) % 256) as u8,
        ((v / 0x1000000000000) % 256) as u8,
        ((v / 0x10000000000) % 256) as u8,
        ((v / 0x100000000) % 256) as u8,
        ((v / 0x1000000) % 256) as u8,
        ((v / 0x10000) % 256) as u8,
        ((v / 0x100) % 256) as u8,
        (v % 256) as u8,
    ]
}

/// The value eight big-endian bytes carry.
pub open spec fn be64_val(b: Seq<u8>) -> int {
    b[0] * 0x100000000000000 + b[1] * 0x1000000000000 + b[2] * 0x10000000000 + b[3] * 0x100000000
        + b[4] * 0x1000000 + b[5] * 0x10000 + b[6] * 0x100 + b[7]
}

/// Reading back the eight bytes of a 64-bit value yields the value:
/// the radix-256 digits reassemble by telescoping.
pub proof fn lemma_be64_roundtrip(v: int)
    requires
        0 <= v < 0x10000000000000000,
    ensures
        be64_val(be64(v)) == v,
{
    vstd::arithmetic::div_mod::lemma_breakdown(v, 0x100, 0x100);
    vstd::arithmetic::div_mod::lemma_breakdown(v, 0x10000, 0x100);
    vstd::arithmetic::div_mod::lemma_breakdown(v, 0x1000000, 0x100);
    vstd::arithmetic::div_mod::lemma_breakdown(v, 0x100000000, 0x100);
    vstd::arithmetic::div_mod::lemma_breakdown(v, 0x10000000000, 0x100);
    vstd::arithmetic::div_mod::lemma_breakdown(v, 0x1000000000000, 0x100);
    vstd::arithmetic::div_mod::lemma_breakdown(v, 0x100000000000000, 0x100);
    vstd::arithmetic::div_mod::lemma_small_mod(v as nat, 0x10000000000000000);
    assert(v % 0x10000000000000000 == v);
}

/// The decimal digits of a nonnegative value, as ASCII codes, most
/// significant first.
pub open spec fn dec_digits(v: int) -> Seq<u8>
    decreases v,
{
    if v < 10 {
        seq![(48 + v) as u8]
    } else {
        dec_digits(v / 10).push((48 + v % 10) as u8)
    }
}

/// The ASCII codes of "Unrecognizable message type ".
pub open spec fn unknown_tag_text() -> Seq<u8> {
    seq![85u8, 110u8, 114u8, 101u8, 99u8, 111u8, 103u8, 110u8, 105u8, 122u8, 97u8, 98u8, 108u8, 101u8, 32u8, 109u8, 101u8, 115u8, 115u8, 97u8, 103u8, 101u8, 32u8, 116u8, 121u8, 112u8, 101u8, 32u8]
}

/// The ASCII codes of "Invalid role ID ".
pub open spec fn invalid_role_text() -> Seq<u8> {
    seq![73u8, 110u8, 118u8, 97u8, 108u8, 105u8, 100u8, 32u8, 114u8, 111u8, 108u8, 101u8, 32u8, 73u8, 68u8, 32u8]
}

/// The diagnostic an unrecognised type tag decodes to: the text
/// "Unrecognizable message type " followed by the tag in decimal.
pub open spec fn diag_unknown_tag(tag: int) -> Seq<u8> {
    unknown_tag_text() + dec_digits(tag)
}

/// The diagnostic an unknown role byte decodes to: the text
/// "Invalid role ID " followed by the byte in decimal.
pub open spec fn diag_invalid_role(rb: int) -> Seq<u8> {
    invalid_role_text() + dec_digits(rb)
}

/// Appends the decimal digits of `v`.
fn push_decimal(v: u32, out: &mut Vec<u8>)
    ensures
        final(out)@ == old(out)@ + dec_digits(v as int),
    decreases v,
{
    if v < 10 {
        out.push(48 + v as u8);
        proof {
            assert(out@ =~= old(out)@ + dec_digits(v as int));
        }
    } else {
        push_decimal(v / 10, out);
        out.push(48 + (v % 10) as u8);
        proof {
            assert(out@ =~= old(out)@ + dec_digits(v as int));
        }
    }
}

/// Appends the text of the unknown-tag diagnostic.
fn push_unknown_tag_text(out: &mut Vec<u8>)
    ensures
        final(out)@ == old(out)@ + unknown_tag_text(),
{
    out.push(85);
    out.push(110);
    out.push(114);
    out.push(101);
    out.push(99);
    out.push(111);
    out.push(103);
    out.push(110);
    out.push(105);
    out.push(122);
    out.push(97);
    out.push(98);
    out.push(108);
    out.push(101);
    out.push(32);
    out.push(109);
    out.push(101);
    out.push(115);
    out.push(115);
    out.push(97);
    out.push(103);
    out.push(101);
    out.push(32);
    out.push(116);
    out.push(121);
    out.push(112);
    out.push(101);
    out.push(32);
    proof {
        assert(out@ =~= old(out)@ + unknown_tag_text());
    }
}

/// Appends the text of the invalid-role diagnostic.
fn push_invalid_role_text(out: &mut Vec<u8>)
    ensures
        final(out)@ == old(out)@ + invalid_role_text(),
{
    out.push(73);
    out.push(110);
    out.push(118);
    out.push(97);
    out.push(108);
    out.push(105);
    out.push(100);
    out.push(32);
    out.push(114);
    out.push(111);
    out.push(108);
    out.push(101);
    out.push(32);
    out.push(73);
    out.push(68);
    out.push(32);
    proof {
        assert(out@ =~= old(out)@ + invalid_role_text());
    }
}

/// The type tag of a message.
pub open spec fn tag_of(m: NetworkEvent) -> int {
    match m {
        NetworkEvent::Error(_) => 114514,
        NetworkEvent::EnterRoom { .. } => 0,
        NetworkEvent::EnterPermitted { .. } => 1,
        NetworkEvent::RoomIsFull => 2,
        NetworkEvent::Ping { .. } => 3,
        NetworkEvent::Pong { .. } => 4,
        NetworkEvent::RoomDisbanded => 5,
        NetworkEvent::LeaveRoom => 6,
        NetworkEvent::SetPrepared(_) => 7,
        NetworkEvent::StartGame => 8,
        NetworkEvent::PutChess { .. } => 9,
        NetworkEvent::ChatMessage(_) => 10,
        NetworkEvent::UndoRequest => 11,
        NetworkEvent::PutChessSucceed => 12,
        NetworkEvent::UndoReply(_) => 13,
        NetworkEvent::Escape => 14,
    }
}

/// The body that follows a message's tag. Over-long text is truncated
/// to what its length prefix can carry, exactly as the sender's cast
/// of the length would.
pub open spec fn body_of(m: NetworkEvent) -> Seq<u8> {
    match m {
        NetworkEvent::Error(msg) => seq![(msg@.len() % 256) as u8] + msg@,
        NetworkEvent::EnterRoom { name, role } => seq![
            (role.spec_u8()) as u8,
            (name@.len() % 256) as u8,
        ] + name@,
        NetworkEvent::EnterPermitted { role, name } => seq![
            (role.spec_u8()) as u8,
            (name@.len() % 256) as u8,
        ] + name@,
        NetworkEvent::RoomIsFull => Seq::empty(),
        NetworkEvent::Ping { send_time } => be64(send_time as int),
        NetworkEvent::Pong { send_time } => be64(send_time as int),
        NetworkEvent::RoomDisbanded => Seq::empty(),
        NetworkEvent::LeaveRoom => Seq::empty(),
        NetworkEvent::SetPrepared(v) => seq![
            (if v {
                1u8
            } else {
                0u8
            }),
        ],
        NetworkEvent::StartGame => Seq::empty(),
        NetworkEvent::PutChess { x, y } => seq![x, y],
        NetworkEvent::ChatMessage(msg) => be16(msg@.len() as int % 65536) + msg@,
        NetworkEvent::UndoRequest => Seq::empty(),
        NetworkEvent::PutChessSucceed => Seq::empty(),
        NetworkEvent::UndoReply(v) => seq![
            (if v {
                1u8
            } else {
                0u8
            }),
        ],
        NetworkEvent::Escape => Seq::empty(),
    }
}

/// The full encoding of a message: its tag, then its body.
pub open spec fn encoded(m: NetworkEvent) -> Seq<u8> {
    be32(tag_of(m)) + body_of(m)
}

/// The roles a message carries can travel: only a player or a visitor
/// can enter or be admitted.
pub open spec fn roles_ok(m: NetworkEvent) -> bool {
    match m {
        NetworkEvent::EnterRoom { role, .. } => role == Role::Player || role == Role::Visitor,
        NetworkEvent::EnterPermitted { role, .. } => role == Role::Player || role
            == Role::Visitor,
        _ => true,
    }
}

/// The text fields fit their length prefixes, so nothing is truncated
/// on the wire.
pub open spec fn wire_ok(m: NetworkEvent) -> bool {
    match m {
        NetworkEvent::Error(msg) => msg@.len() < 256,
        NetworkEvent::EnterRoom { name, .. } => name@.len() < 256,
        NetworkEvent::EnterPermitted { name, .. } => name@.len() < 256,
        NetworkEvent::ChatMessage(msg) => msg@.len() < 65536,
        _ => true,
    }
}

/// The two messages `m1` and `m2` carry the same content: the same
/// variant with the same field values, comparing byte strings by their
/// contents.
pub open spec fn same_event(m1: NetworkEvent, m2: NetworkEvent) -> bool {
    match (m1, m2) {
        (NetworkEvent::Error(a), NetworkEvent::Error(b)) => a@ == b@,
        (
            NetworkEvent::EnterRoom { name: n1, role: r1 },
            NetworkEvent::EnterRoom { name: n2, role: r2 },
        ) => n1@ == n2@ && r1 == r2,
        (
            NetworkEvent::EnterPermitted { role: r1, name: n1 },
            NetworkEvent::EnterPermitted { role: r2, name: n2 },
        ) => r1 == r2 && n1@ == n2@,
        (NetworkEvent::RoomIsFull, NetworkEvent::RoomIsFull) => true,
        (NetworkEvent::Ping { send_time: t1 }, NetworkEvent::Ping { send_time: t2 }) => t1 == t2,
        (NetworkEvent::Pong { send_time: t1 }, NetworkEvent::Pong { send_time: t2 }) => t1 == t2,
        (NetworkEvent::RoomDisbanded, NetworkEvent::RoomDisbanded) => true,
        (NetworkEvent::LeaveRoom, NetworkEvent::LeaveRoom) => true,
        (NetworkEvent::SetPrepared(a), NetworkEvent::SetPrepared(b)) => a == b,
        (NetworkEvent::StartGame, NetworkEvent::StartGame) => true,
        (
            NetworkEvent::PutChess { x: x1, y: y1 },
            NetworkEvent::PutChess { x: x2, y: y2 },
        ) => x1 == x2 && y1 == y2,
        (NetworkEvent::ChatMessage(a), NetworkEvent::ChatMessage(b)) => a@ == b@,
        (NetworkEvent::UndoRequest, NetworkEvent::UndoRequest) => true,
        (NetworkEvent::PutChessSucceed, NetworkEvent::PutChessSucceed) => true,
        (NetworkEvent::UndoReply(a), NetworkEvent::UndoReply(b)) => a == b,
        (NetworkEvent::Escape, NetworkEvent::Escape) => true,
        _ => false,
    }
}

/// How many bytes the message at the head of `buf` needs before it can
/// be parsed; parsing returns nothing exactly while the buffer is
/// shorter than this.
pub open spec fn needed(buf: Seq<u8>) -> int {
    if buf.len() < 4 {
        4
    } else {
        let tag = be32_val(buf.subrange(0, 4));
        if tag == 0 || tag == 1 {
            if buf.len() < 5 {
                5
            } else if buf[4] != 0 && buf[4] != 1 {
                0
            } else if buf.len() < 6 {
                6
            } else {
                6 + buf[5] as int
            }
        } else if tag == 3 || tag == 4 {
            12
        } else if tag == 7 || tag == 13 {
            5
        } else if tag == 9 {
            6
        } else if tag == 10 {
            if buf.len() < 6 {
                6
            } else {
                6 + buf[4] * 256 + buf[5]
            }
        } else if tag == 114514 {
            if buf.len() < 5 {
                5
            } else {
                5 + buf[4] as int
            }
        } else {
            4
        }
    }
}

/// The parse relation: `m` is what the head of `buf` holds, and `used`
/// is how many bytes it spans.
pub open spec fn decodes_to(buf: Seq<u8>, m: NetworkEvent, used: int) -> bool {
    &&& buf.len() >= needed(buf)
    &&& buf.len() >= 4
    &&& {
        let tag = be32_val(buf.subrange(0, 4));
        if tag == 0 {
            if buf[4] != 0 && buf[4] != 1 {
                &&& used == 0
                &&& m matches NetworkEvent::Error(d) && d@ == diag_invalid_role(buf[4] as int)
            } else {
                &&& used == 6 + buf[5]
                &&& m matches NetworkEvent::EnterRoom { name, role } && role == Role::spec_from_u8(
                    buf[4] as int,
                ) && name@ == buf.subrange(6, 6 + buf[5])
            }
        } else if tag == 1 {
            if buf[4] != 0 && buf[4] != 1 {
                &&& used == 0
                &&& m matches NetworkEvent::Error(d) && d@ == diag_invalid_role(buf[4] as int)
            } else {
                &&& used == 6 + buf[5]
                &&& m matches NetworkEvent::EnterPermitted { role, name } && role
                    == Role::spec_from_u8(buf[4] as int) && name@ == buf.subrange(6, 6 + buf[5])
            }
        } else if tag == 2 {
            used == 4 && m matches NetworkEvent::RoomIsFull
        } else if tag == 3 {
            used == 12 && (m matches NetworkEvent::Ping { send_time } && send_time == be64_val(
                buf.subrange(4, 12),
            ))
        } else if tag == 4 {
            used == 12 && (m matches NetworkEvent::Pong { send_time } && send_time == be64_val(
                buf.subrange(4, 12),
            ))
        } else if tag == 5 {
            used == 4 && m matches NetworkEvent::RoomDisbanded
        } else if tag == 6 {
            used == 4 && m matches NetworkEvent::LeaveRoom
        } else if tag == 7 {
            used == 5 && m == NetworkEvent::SetPrepared(buf[4] != 0)
        } else if tag == 8 {
            used == 4 && m matches NetworkEvent::StartGame
        } else if tag == 9 {
            used == 6 && (m matches NetworkEvent::PutChess { x, y } && x == buf[4] && y == buf[5])
        } else if tag == 10 {
            &&& used == 6 + buf[4] * 256 + buf[5]
            &&& m matches NetworkEvent::ChatMessage(msg) && msg@ == buf.subrange(
                6,
                6 + buf[4] * 256 + buf[5],
            )
        } else if tag == 11 {
            used == 4 && m matches NetworkEvent::UndoRequest
        } else if tag == 12 {
            used == 4 && m matches NetworkEvent::PutChessSucceed
        } else if tag == 13 {
            used == 5 && m == NetworkEvent::UndoReply(buf[4] != 0)
        } else if tag == 14 {
            used == 4 && m matches NetworkEvent::Escape
        } else if tag == 114514 {
            &&& used == 5 + buf[4]
            &&& m matches NetworkEvent::Error(d) && d@ == buf.subrange(5, 5 + buf[4])
        } else {
            &&& used == 4
            &&& m matches NetworkEvent::Error(d) && d@ == diag_unknown_tag(tag)
        }
    }
}

/// Appends the eight big-endian bytes of `v`.
fn push_be64(v: u64, out: &mut Vec<u8>)
    ensures
        final(out)@ == old(out)@ + be64(v as int),
{
    let ghost o0 = out@;
    out.push(((v / 0x100000000000000) % 256) as u8);
    out.push(((v / 0x1000000000000) % 256) as u8);
    out.push(((v / 0x10000000000) % 256) as u8);
    out.push(((v / 0x100000000) % 256) as u8);
    out.push(((v / 0x1000000) % 256) as u8);
    out.push(((v / 0x10000) % 256) as u8);
    out.push(((v / 0x100) % 256) as u8);
    out.push((v % 256) as u8);
    proof {
        assert(out@ =~= o0 + be64(v as int));
    }
}

/// Appends a byte string.
fn push_bytes(bytes: &Vec<u8>, out: &mut Vec<u8>)
    ensures
        final(out)@ == old(out)@ + bytes@,
{
    let ghost o0 = out@;
    let n = bytes.len();
    let mut k: usize = 0;
    while k < n
        invariant
            n == bytes@.len(),
            k <= n,
            out@ == o0 + bytes@.subrange(0, k as int),
        decreases n - k,
    {
        out.push(bytes[k]);
        proof {
            assert(out@ =~= o0 + bytes@.subrange(0, k + 1));
        }
        k += 1;
    }
    proof {
        assert(bytes@.subrange(0, n as int) =~= bytes@);
    }
}

impl NetworkEvent {
    /// The message as the bytes it travels as. The roles an
    /// `EnterRoom` or `EnterPermitted` carries must be sendable.
    pub fn to_u8_vec(&self) -> (r: Vec<u8>)
        requires
            roles_ok(*self),
        ensures
            r@ == encoded(*self),
    {
        let mut buf: Vec<u8> = Vec::new();
        match self {
            NetworkEvent::Error(msg) => {
                buf.push(0);
                buf.push(1);
                buf.push(0xbf);
                buf.push(0x52);
                buf.push((msg.len() % 256) as u8);
                push_bytes(msg, &mut buf);
                proof {
                    assert(be32(114514) =~= seq![0u8, 1u8, 0xbfu8, 0x52u8]);
                    assert(buf@ =~= encoded(*self));
                }
            },
            NetworkEvent::EnterRoom { name, role } => {
                buf.push(0);
                buf.push(0);
                buf.push(0);
                buf.push(0);
                buf.push(role.to_u8());
                buf.push((name.len() % 256) as u8);
                push_bytes(name, &mut buf);
                proof {
                    assert(be32(0) =~= seq![0u8, 0u8, 0u8, 0u8]);
                    assert(buf@ =~= encoded(*self));
                }
            },
            NetworkEvent::EnterPermitted { role, name } => {
                buf.push(0);
                buf.push(0);
                buf.push(0);
                buf.push(1);
                buf.push(role.to_u8());
                buf.push((name.len() % 256) as u8);
                push_bytes(name, &mut buf);
                proof {
                    assert(be32(1) =~= seq![0u8, 0u8, 0u8, 1u8]);
                    assert(buf@ =~= encoded(*self));
                }
            },
            NetworkEvent::RoomIsFull => {
                buf.push(0);
                buf.push(0);
                buf.push(0);
                buf.push(2);
                proof {
                    assert(be32(2) =~= seq![0u8, 0u8, 0u8, 2u8]);
                    assert(buf@ =~= encoded(*self));
                }
            },
            NetworkEvent::Ping { send_time } => {
                buf.push(0);
                buf.push(0);
                buf.push(0);
                buf.push(3);
                push_be64(*send_time, &mut buf);
                proof {
                    assert(be32(3) =~= seq![0u8, 0u8, 0u8, 3u8]);
                    assert(buf@ =~= encoded(*self));
                }
            },
            NetworkEvent::Pong { send_time } => {
                buf.push(0);
                buf.push(0);
                buf.push(0);
                buf.push(4);
                push_be64(*send_time, &mut buf);
                proof {
                    assert(be32(4) =~= seq![0u8, 0u8, 0u8, 4u8]);
                    assert(buf@ =~= encoded(*self));
                }
            },
            NetworkEvent::RoomDisbanded => {
                buf.push(0);
                buf.push(0);
                buf.push(0);
                buf.push(5);
                proof {
                    assert(be32(5) =~= seq![0u8, 0u8, 0u8, 5u8]);
                    assert(buf@ =~= encoded(*self));
                }
            },
            NetworkEvent::LeaveRoom => {
                buf.push(0);
                buf.push(0);
                buf.push(0);
                buf.push(6);
                proof {
                    assert(be32(6) =~= seq![0u8, 0u8, 0u8, 6u8]);
                    assert(buf@ =~= encoded(*self));
                }
            },
            NetworkEvent::SetPrepared(v) => {
                buf.push(0);
                buf.push(0);
                buf.push(0);
                buf.push(7);
                buf.push(if *v {
                    1
                } else {
                    0
                });
                proof {
                    assert(be32(7) =~= seq![0u8, 0u8, 0u8, 7u8]);
                    assert(buf@ =~= encoded(*self));
                }
            },
            NetworkEvent::StartGame => {
                buf.push(0);
                buf.push(0);
                buf.push(0);
                buf.push(8);
                proof {
                    assert(be32(8) =~= seq![0u8, 0u8, 0u8, 8u8]);
                    assert(buf@ =~= encoded(*self));
                }
            },
            NetworkEvent::PutChess { x, y } => {
                buf.push(0);
                buf.push(0);
                buf.push(0);
                buf.push(9);
                buf.push(*x);
                buf.push(*y);
                proof {
                    assert(be32(9) =~= seq![0u8, 0u8, 0u8, 9u8]);
                    assert(buf@ =~= encoded(*self));
                }
            },
            NetworkEvent::ChatMessage(msg) => {
                buf.push(0);
                buf.push(0);
                buf.push(0);
                buf.push(10);
                let n16 = msg.len() % 65536;
                buf.push(((n16 / 0x100) % 256) as u8);
                buf.push((n16 % 256) as u8);
                push_bytes(msg, &mut buf);
                proof {
                    assert(be32(10) =~= seq![0u8, 0u8, 0u8, 10u8]);
                    assert(be16(msg@.len() as int % 65536) =~= seq![
                        ((n16 / 0x100) % 256) as u8,
                        (n16 % 256) as u8,
                    ]);
                    assert(buf@ =~= encoded(*self));
                }
            },
            NetworkEvent::UndoRequest => {
                buf.push(0);
                buf.push(0);
                buf.push(0);
                buf.push(11);
                proof {
                    assert(be32(11) =~= seq![0u8, 0u8, 0u8, 11u8]);
                    assert(buf@ =~= encoded(*self));
                }
            },
            NetworkEvent::PutChessSucceed => {
                buf.push(0);
                buf.push(0);
                buf.push(0);
                buf.push(12);
                proof {
                    assert(be32(12) =~= seq![0u8, 0u8, 0u8, 12u8]);
                    assert(buf@ =~= encoded(*self));
                }
            },
            NetworkEvent::UndoReply(v) => {
                buf.push(0);
                buf.push(0);
                buf.push(0);
                buf.push(13);
                buf.push(if *v {
                    1
                } else {
                    0
                });
                proof {
                    assert(be32(13) =~= seq![0u8, 0u8, 0u8, 13u8]);
                    assert(buf@ =~= encoded(*self));
                }
            },
            NetworkEvent::Escape => {
                buf.push(0);
                buf.push(0);
                buf.push(0);
                buf.push(14);
                proof {
                    assert(be32(14) =~= seq![0u8, 0u8, 0u8, 14u8]);
                    assert(buf@ =~= encoded(*self));
                }
            },
        }
        buf
    }

    /// Parses the message at the head of the buffer, yielding it and
    /// the bytes it used, or nothing while the buffer holds fewer
    /// bytes than the message needs.
    pub fn from_buffer(buf: &[u8]) -> (r: Option<(NetworkEvent, usize)>)
        ensures
            match r {
                Option::None => buf@.len() < needed(buf@),
                Option::Some((m, used)) => decodes_to(buf@, m, used as int),
            },
    {
        if buf.len() < 4 {
            return None;
        }
        let tag: u32 = (buf[0] as u32) * 0x1000000 + (buf[1] as u32) * 0x10000 + (buf[2] as u32)
            * 0x100 + (buf[3] as u32);
        proof {
            assert(buf@.subrange(0, 4) =~= seq![buf@[0], buf@[1], buf@[2], buf@[3]]);
            assert(tag == be32_val(buf@.subrange(0, 4)));
        }
        if tag == 0 || tag == 1 {
            if buf.len() < 5 {
                return None;
            }
            let rb = buf[4];
            if rb != 0 && rb != 1 {
                let mut d: Vec<u8> = Vec::new();
                push_invalid_role_text(&mut d);
                push_decimal(rb as u32, &mut d);
                proof {
                    assert(d@ =~= diag_invalid_role(buf@[4] as int));
                }
                return Some((NetworkEvent::Error(d), 0));
            }
            if buf.len() < 6 {
                return None;
            }
            let n = buf[5] as usize;
            if buf.len() < 6 + n {
                return None;
            }
            let mut name: Vec<u8> = Vec::new();
            let mut k: usize = 0;
            while k < n
                invariant
                    buf@.len() >= 6 + n,
                    n <= 255,
                    k <= n,
                    name@ == buf@.subrange(6, 6 + k as int),
                decreases n - k,
            {
                name.push(buf[6 + k]);
                proof {
                    assert(name@ =~= buf@.subrange(6, 6 + k + 1));
                }
                k += 1;
            }
            let role = Role::from_u8(rb);
            if tag == 0 {
                Some((NetworkEvent::EnterRoom { name, role }, 6 + n))
            } else {
                Some((NetworkEvent::EnterPermitted { role, name }, 6 + n))
            }
        } else if tag == 2 {
            Some((NetworkEvent::RoomIsFull, 4))
        } else if tag == 3 || tag == 4 {
            if buf.len() < 12 {
                return None;
            }
            let t: u64 = (buf[4] as u64) * 0x100000000000000 + (buf[5] as u64) * 0x1000000000000 + (
            buf[6] as u64) * 0x10000000000 + (buf[7] as u64) * 0x100000000 + (buf[8] as u64)
                * 0x1000000 + (buf[9] as u64) * 0x10000 + (buf[10] as u64) * 0x100 + (
            buf[11] as u64);
            proof {
                assert(buf@.subrange(4, 12) =~= seq![
                    buf@[4],
                    buf@[5],
                    buf@[6],
                    buf@[7],
                    buf@[8],
                    buf@[9],
                    buf@[10],
                    buf@[11],
                ]);
                assert(t == be64_val(buf@.subrange(4, 12)));
            }
            if tag == 3 {
                Some((NetworkEvent::Ping { send_time: t }, 12))
            } else {
                Some((NetworkEvent::Pong { send_time: t }, 12))
            }
        } else if tag == 5 {
            Some((NetworkEvent::RoomDisbanded, 4))
        } else if tag == 6 {
            Some((NetworkEvent::LeaveRoom, 4))
        } else if tag == 7 {
            if buf.len() < 5 {
                return None;
            }
            Some((NetworkEvent::SetPrepared(buf[4] != 0), 5))
        } else if tag == 8 {
            Some((NetworkEvent::StartGame, 4))
        } else if tag == 9 {
            if buf.len() < 6 {
                return None;
            }
            Some((NetworkEvent::PutChess { x: buf[4], y: buf[5] }, 6))
        } else if tag == 10 {
            if buf.len() < 6 {
                return None;
            }
            let n = (buf[4] as usize) * 256 + (buf[5] as usize);
            if buf.len() < 6 + n {
                return None;
            }
            let mut msg: Vec<u8> = Vec::new();
            let mut k: usize = 0;
            while k < n
                invariant
                    buf@.len() >= 6 + n,
                    n <= 65535,
                    k <= n,
                    msg@ == buf@.subrange(6, 6 + k as int),
                decreases n - k,
            {
                msg.push(buf[6 + k]);
                proof {
                    assert(msg@ =~= buf@.subrange(6, 6 + k + 1));
                }
                k += 1;
            }
            Some((NetworkEvent::ChatMessage(msg), 6 + n))
        } else if tag == 11 {
            Some((NetworkEvent::UndoRequest, 4))
        } else if tag == 12 {
            Some((NetworkEvent::PutChessSucceed, 4))
        } else if tag == 13 {
            if buf.len() < 5 {
                return None;
            }
            Some((NetworkEvent::UndoReply(buf[4] != 0), 5))
        } else if tag == 14 {
            Some((NetworkEvent::Escape, 4))
        } else if tag == 114514 {
            if buf.len() < 5 {
                return None;
            }
            let n = buf[4] as usize;
            if buf.len() < 5 + n {
                return None;
            }
            let mut msg: Vec<u8> = Vec::new();
            let mut k: usize = 0;
            while k < n
                invariant
                    buf@.len() >= 5 + n,
                    n <= 255,
                    k <= n,
                    msg@ == buf@.subrange(5, 5 + k as int),
                decreases n - k,
            {
                msg.push(buf[5 + k]);
                proof {
                    assert(msg@ =~= buf@.subrange(5, 5 + k + 1));
                }
                k += 1;
            }
            Some((NetworkEvent::Error(msg), 5 + n))
        } else {
            let mut d: Vec<u8> = Vec::new();
            push_unknown_tag_text(&mut d);
            push_decimal(tag, &mut d);
            proof {
                assert(d@ =~= diag_unknown_tag(tag as int));
            }
            Some((NetworkEvent::Error(d), 4))
        }
    }
}

/// The round trip of the wire protocol.
///
/// Law: every sendable message whose text fields fit their length
/// prefixes parses back from its own encoding as the same message,
/// using exactly the encoding's bytes, and nothing else parses from
/// that buffer.
#[verifier::rlimit(100)]
#[verifier::spinoff_prover]
pub proof fn lemma_round_trip(m: NetworkEvent)
    requires
        roles_ok(m),
        wire_ok(m),
    ensures
        decodes_to(encoded(m), m, encoded(m).len() as int),
        forall|m2: NetworkEvent, c2: int|
            decodes_to(encoded(m), m2, c2) ==> same_event(m2, m) && c2 == encoded(m).len(),
{
    let buf = encoded(m);
    assert(buf.subrange(0, 4) =~= be32(tag_of(m)));
    match m {
        NetworkEvent::Error(msg) => {
            assert(be32_val(buf.subrange(0, 4)) == 114514);
            assert(buf[4] == (msg@.len() % 256) as u8);
            assert(buf.subrange(5, 5 + msg@.len() as int) =~= msg@);
        },
        NetworkEvent::EnterRoom { name, role } => {
            assert(be32_val(buf.subrange(0, 4)) == 0);
            assert(buf[4] == role.spec_u8() as u8);
            assert(buf[5] == (name@.len() % 256) as u8);
            assert(buf.subrange(6, 6 + name@.len() as int) =~= name@);
        },
        NetworkEvent::EnterPermitted { role, name } => {
            assert(be32_val(buf.subrange(0, 4)) == 1);
            assert(buf[4] == role.spec_u8() as u8);
            assert(buf[5] == (name@.len() % 256) as u8);
            assert(buf.subrange(6, 6 + name@.len() as int) =~= name@);
        },
        NetworkEvent::RoomIsFull => {
            assert(be32_val(buf.subrange(0, 4)) == 2);
        },
        NetworkEvent::Ping { send_time } => {
            assert(be32_val(buf.subrange(0, 4)) == 3);
            assert(buf.subrange(4, 12) =~= be64(send_time as int));
            lemma_be64_roundtrip(send_time as int);
        },
        NetworkEvent::Pong { send_time } => {
            assert(be32_val(buf.subrange(0, 4)) == 4);
            assert(buf.subrange(4, 12) =~= be64(send_time as int));
            lemma_be64_roundtrip(send_time as int);
        },
        NetworkEvent::RoomDisbanded => {
            assert(be32_val(buf.subrange(0, 4)) == 5);
        },
        NetworkEvent::LeaveRoom => {
            assert(be32_val(buf.subrange(0, 4)) == 6);
        },
        NetworkEvent::SetPrepared(v) => {
            assert(be32_val(buf.subrange(0, 4)) == 7);
        },
        NetworkEvent::StartGame => {
            assert(be32_val(buf.subrange(0, 4)) == 8);
        },
        NetworkEvent::PutChess { x, y } => {
            assert(be32_val(buf.subrange(0, 4)) == 9);
        },
        NetworkEvent::ChatMessage(msg) => {
            assert(be32_val(buf.subrange(0, 4)) == 10);
            let n = msg@.len() as int;
            vstd::arithmetic::div_mod::lemma_fundamental_div_mod(n, 256);
            vstd::arithmetic::div_mod::lemma_small_mod((n / 256) as nat, 256);
            vstd::arithmetic::div_mod::lemma_small_mod(n as nat, 65536);
            assert(buf[4] * 256 + buf[5] == n);
            assert(buf.subrange(6, 6 + n) =~= msg@);
        },
        NetworkEvent::UndoRequest => {
            assert(be32_val(buf.subrange(0, 4)) == 11);
        },
        NetworkEvent::PutChessSucceed => {
            assert(be32_val(buf.subrange(0, 4)) == 12);
        },
        NetworkEvent::UndoReply(v) => {
            assert(be32_val(buf.subrange(0, 4)) == 13);
        },
        NetworkEvent::Escape => {
            assert(be32_val(buf.subrange(0, 4)) == 14);
        },
    }
}

} // verus!
