//! Linux proc-connector lifecycle events: framing the subscription
//! message, decoding event messages, accounting for sequence gaps and
//! bounding recordings.
use vstd::prelude::*;
use std::collections::HashMap;
use crate::field::IoFailure;
use crate::text::{decimal, push_decimal, push_str};

verus! {

broadcast use vstd::std_specs::hash::group_hash_axioms;

// ---------------------------------------------------------------------------
// Byte order
// ---------------------------------------------------------------------------

/// The order in which the bytes of an integer are laid out in memory.
#[derive(Debug, Clone, Copy, PartialEq, Eq, Structural)]
pub enum ByteOrder {
    Little,
    Big,
}

/// The byte order of the hardware the observer runs on, as vstd names it.
pub open spec fn machine_order() -> ByteOrder {
    match vstd::endian::endianness() {
        vstd::endian::Endian::Little => ByteOrder::Little,
        vstd::endian::Endian::Big => ByteOrder::Big,
    }
}

/// Calls `u16::from_ne_bytes`: the bytes are read in the hardware's own
/// (native) order.
#[verifier::external_body]
fn u16_from_native_bytes(b: [u8; 2]) -> (r: u16)
    ensures
        machine_order() == ByteOrder::Little ==> r as int == b[0] as int + 256 * b[1] as int,
        machine_order() == ByteOrder::Big ==> r as int == b[1] as int + 256 * b[0] as int,
{
    u16::from_ne_bytes(b)
}

/// The byte order of the machine the observer runs on, which the kernel
/// uses in its netlink messages.
pub fn native_byte_order() -> (r: ByteOrder)
    ensures
        r == machine_order(),
{
    if u16_from_native_bytes([1u8, 0u8]) == 1 {
        ByteOrder::Little
    } else {
        ByteOrder::Big
    }
}

/// The two bytes of a 16-bit integer in the given order.
pub open spec fn bytes16(v: u16, o: ByteOrder) -> Seq<u8> {
    let lo = (v & 0xff) as u8;
    let hi = ((v >> 8) & 0xff) as u8;
    match o {
        ByteOrder::Little => seq![lo, hi],
        ByteOrder::Big => seq![hi, lo],
    }
}

/// The four bytes of a 32-bit integer in the given order.
pub open spec fn bytes32(v: u32, o: ByteOrder) -> Seq<u8> {
    let b0 = (v & 0xff) as u8;
    let b1 = ((v >> 8) & 0xff) as u8;
    let b2 = ((v >> 16) & 0xff) as u8;
    let b3 = ((v >> 24) & 0xff) as u8;
    match o {
        ByteOrder::Little => seq![b0, b1, b2, b3],
        ByteOrder::Big => seq![b3, b2, b1, b0],
    }
}

/// The 32-bit integer that four bytes hold in the given order.
pub open spec fn value32(b: Seq<u8>, o: ByteOrder) -> u32 {
    match o {
        ByteOrder::Little => (b[0] as u32) | ((b[1] as u32) << 8u32) | ((b[2] as u32) << 16u32) | ((
        b[3] as u32) << 24u32),
        ByteOrder::Big => (b[3] as u32) | ((b[2] as u32) << 8u32) | ((b[1] as u32) << 16u32) | ((
        b[0] as u32) << 24u32),
    }
}

/// The 64-bit integer that eight bytes hold in the given order.
pub open spec fn value64(b: Seq<u8>, o: ByteOrder) -> u64 {
    match o {
        ByteOrder::Little => (b[0] as u64) | ((b[1] as u64) << 8u64) | ((b[2] as u64) << 16u64) | ((
        b[3] as u64) << 24u64) | ((b[4] as u64) << 32u64) | ((b[5] as u64) << 40u64) | ((
        b[6] as u64) << 48u64) | ((b[7] as u64) << 56u64),
        ByteOrder::Big => (b[7] as u64) | ((b[6] as u64) << 8u64) | ((b[5] as u64) << 16u64) | ((
        b[4] as u64) << 24u64) | ((b[3] as u64) << 32u64) | ((b[2] as u64) << 40u64) | ((
        b[1] as u64) << 48u64) | ((b[0] as u64) << 56u64),
    }
}

/// `s` with the bytes from `o` on replaced by `x`.
pub open spec fn splice(s: Seq<u8>, o: int, x: Seq<u8>) -> Seq<u8> {
    s.subrange(0, o) + x + s.subrange(o + x.len(), s.len() as int)
}

/// Reading back four bytes written in one order, in the same order, gives
/// the value written.
pub proof fn lemma_value32_bytes32(v: u32, o: ByteOrder)
    ensures
        value32(bytes32(v, o), o) == v,
{
    let b0 = (v & 0xff) as u8;
    let b1 = ((v >> 8) & 0xff) as u8;
    let b2 = ((v >> 16) & 0xff) as u8;
    let b3 = ((v >> 24) & 0xff) as u8;
    assert((b0 as u32) | ((b1 as u32) << 8u32) | ((b2 as u32) << 16u32) | ((b3 as u32) << 24u32) == v)
        by (bit_vector)
        requires
            b0 == (v & 0xff) as u8,
            b1 == ((v >> 8) & 0xff) as u8,
            b2 == ((v >> 16) & 0xff) as u8,
            b3 == ((v >> 24) & 0xff) as u8,
    ;
}

/// Writes a 16-bit integer at offset `o`.
pub fn put16(b: &mut [u8], o: usize, v: u16, order: ByteOrder)
    requires
        o + 2 <= old(b)@.len(),
    ensures
        final(b)@ == splice(old(b)@, o as int, bytes16(v, order)),
{
    let lo = (v & 0xff) as u8;
    let hi = ((v >> 8) & 0xff) as u8;
    match order {
        ByteOrder::Little => {
            b[o] = lo;
            b[o + 1] = hi;
        },
        ByteOrder::Big => {
            b[o] = hi;
            b[o + 1] = lo;
        },
    }
    proof {
        assert(final(b)@ =~= splice(old(b)@, o as int, bytes16(v, order)));
    }
}

/// Writes a 32-bit integer at offset `o`.
pub fn put32(b: &mut [u8], o: usize, v: u32, order: ByteOrder)
    requires
        o + 4 <= old(b)@.len(),
    ensures
        final(b)@ == splice(old(b)@, o as int, bytes32(v, order)),
{
    let b0 = (v & 0xff) as u8;
    let b1 = ((v >> 8) & 0xff) as u8;
    let b2 = ((v >> 16) & 0xff) as u8;
    let b3 = ((v >> 24) & 0xff) as u8;
    match order {
        ByteOrder::Little => {
            b[o] = b0;
            b[o + 1] = b1;
            b[o + 2] = b2;
            b[o + 3] = b3;
        },
        ByteOrder::Big => {
            b[o] = b3;
            b[o + 1] = b2;
            b[o + 2] = b1;
            b[o + 3] = b0;
        },
    }
    proof {
        assert(final(b)@ =~= splice(old(b)@, o as int, bytes32(v, order)));
    }
}

/// Reads the 32-bit integer at offset `o`, if the bytes are there.
pub fn get32(b: &[u8], o: usize, order: ByteOrder) -> (r: Option<u32>)
    requires
        o + 4 <= usize::MAX,
    ensures
        r == (if o + 4 <= b@.len() {
            Some(value32(b@.subrange(o as int, o + 4), order))
        } else {
            None
        }),
{
    if o > b.len() || b.len() - o < 4 {
        return None;
    }
    let x0 = b[o] as u32;
    let x1 = b[o + 1] as u32;
    let x2 = b[o + 2] as u32;
    let x3 = b[o + 3] as u32;
    let ghost s = b@.subrange(o as int, o + 4);
    proof {
        assert(s[0] == b@[o as int] && s[1] == b@[o + 1] && s[2] == b@[o + 2] && s[3] == b@[o + 3]);
    }
    match order {
        ByteOrder::Little => Some(x0 | (x1 << 8u32) | (x2 << 16u32) | (x3 << 24u32)),
        ByteOrder::Big => Some(x3 | (x2 << 8u32) | (x1 << 16u32) | (x0 << 24u32)),
    }
}

/// Reads the 64-bit integer at offset `o`, if the bytes are there.
pub fn get64(b: &[u8], o: usize, order: ByteOrder) -> (r: Option<u64>)
    requires
        o + 8 <= usize::MAX,
    ensures
        r == (if o + 8 <= b@.len() {
            Some(value64(b@.subrange(o as int, o + 8), order))
        } else {
            None
        }),
{
    if o > b.len() || b.len() - o < 8 {
        return None;
    }
    let ghost s = b@.subrange(o as int, o + 8);
    let x0 = b[o] as u64;
    let x1 = b[o + 1] as u64;
    let x2 = b[o + 2] as u64;
    let x3 = b[o + 3] as u64;
    let x4 = b[o + 4] as u64;
    let x5 = b[o + 5] as u64;
    let x6 = b[o + 6] as u64;
    let x7 = b[o + 7] as u64;
    proof {
        assert(s[0] == b@[o as int] && s[1] == b@[o + 1] && s[2] == b@[o + 2] && s[3] == b@[o + 3]);
        assert(s[4] == b@[o + 4] && s[5] == b@[o + 5] && s[6] == b@[o + 6] && s[7] == b@[o + 7]);
    }
    match order {
        ByteOrder::Little => Some(
            x0 | (x1 << 8u64) | (x2 << 16u64) | (x3 << 24u64) | (x4 << 32u64) | (x5 << 40u64) | (x6
                << 48u64) | (x7 << 56u64),
        ),
        ByteOrder::Big => Some(
            x7 | (x6 << 8u64) | (x5 << 16u64) | (x4 << 24u64) | (x3 << 32u64) | (x2 << 40u64) | (x1
                << 48u64) | (x0 << 56u64),
        ),
    }
}

/// What a `get32` at `o` reads back of a `put32` at `o`: the value written.
pub proof fn lemma_get_after_put32(s: Seq<u8>, o: int, v: u32, order: ByteOrder)
    requires
        0 <= o,
        o + 4 <= s.len(),
    ensures
        splice(s, o, bytes32(v, order)).len() == s.len(),
        value32(splice(s, o, bytes32(v, order)).subrange(o, o + 4), order) == v,
{
    let t = splice(s, o, bytes32(v, order));
    assert(t.subrange(o, o + 4) =~= bytes32(v, order));
    lemma_value32_bytes32(v, order);
}

// ---------------------------------------------------------------------------
// Events
// ---------------------------------------------------------------------------

/// What happened to a process.
#[derive(Debug, Clone, PartialEq, Eq, Structural)]
pub enum Kind {
    Fork { parent: u32, child: u32 },
    Exec { pid: u32 },
    Exit { pid: u32, code: u32, signal: u32 },
    Other(u32),
}

/// One lifecycle event as the kernel reported it.
#[derive(Debug, Clone)]
pub struct Event {
    pub sequence: u32,
    pub timestamp_ns: u64,
    pub received_unix_ms: u128,
    pub cpu: u32,
    pub kind: Kind,
}

/// The `kind` member of an event's JSON.
pub open spec fn kind_json(k: Kind) -> Seq<char> {
    match k {
        Kind::Fork { parent, child } => "\"fork\",\"parent\":"@ + decimal(parent as nat)
            + ",\"child\":"@ + decimal(child as nat),
        Kind::Exec { pid } => "\"exec\",\"pid\":"@ + decimal(pid as nat),
        Kind::Exit { pid, code, signal } => "\"exit\",\"pid\":"@ + decimal(pid as nat)
            + ",\"code\":"@ + decimal(code as nat) + ",\"signal\":"@ + decimal(signal as nat),
        Kind::Other(value) => "\"other\",\"value\":"@ + decimal(value as nat),
    }
}

/// The JSON object of an event (schema version 1).
pub open spec fn event_json(e: Event) -> Seq<char> {
    "{\"schema_version\":1,\"sequence\":"@ + decimal(e.sequence as nat) + ",\"received_unix_ms\":"@
        + decimal(e.received_unix_ms as nat) + ",\"kernel_timestamp_ns\":"@ + decimal(
        e.timestamp_ns as nat,
    ) + ",\"cpu\":"@ + decimal(e.cpu as nat) + ",\"kind\":"@ + kind_json(e.kind) + "}"@
}

/// The JSON of an event ends with what its kind reports, each figure under
/// its own name: a fork's parent PID under `parent` and its child PID
/// under `child`; an exec's PID under `pid`; an exit's PID, code and
/// signal under `pid`, `code` and `signal`.
pub proof fn lemma_event_json_members(e: Event)
    ensures
        e.kind matches Kind::Fork { parent, child } ==> crate::text::has_suffix(
            event_json(e),
            ",\"kind\":\"fork\",\"parent\":"@ + decimal(parent as nat) + ",\"child\":"@ + decimal(
                child as nat,
            ) + "}"@,
        ),
        e.kind matches Kind::Exec { pid } ==> crate::text::has_suffix(
            event_json(e),
            ",\"kind\":\"exec\",\"pid\":"@ + decimal(pid as nat) + "}"@,
        ),
        e.kind matches Kind::Exit { pid, code, signal } ==> crate::text::has_suffix(
            event_json(e),
            ",\"kind\":\"exit\",\"pid\":"@ + decimal(pid as nat) + ",\"code\":"@ + decimal(
                code as nat,
            ) + ",\"signal\":"@ + decimal(signal as nat) + "}"@,
        ),
        e.kind matches Kind::Other(value) ==> crate::text::has_suffix(
            event_json(e),
            ",\"kind\":\"other\",\"value\":"@ + decimal(value as nat) + "}"@,
        ),
        crate::text::has_prefix(
            event_json(e),
            "{\"schema_version\":1,\"sequence\":"@ + decimal(e.sequence as nat)
                + ",\"received_unix_ms\":"@ + decimal(e.received_unix_ms as nat)
                + ",\"kernel_timestamp_ns\":"@ + decimal(e.timestamp_ns as nat) + ",\"cpu\":"@
                + decimal(e.cpu as nat) + ",\"kind\":"@,
        ),
{
    let head = "{\"schema_version\":1,\"sequence\":"@ + decimal(e.sequence as nat)
        + ",\"received_unix_ms\":"@ + decimal(e.received_unix_ms as nat)
        + ",\"kernel_timestamp_ns\":"@ + decimal(e.timestamp_ns as nat) + ",\"cpu\":"@ + decimal(
        e.cpu as nat,
    );
    let j = event_json(e);
    assert(j =~= head + ",\"kind\":"@ + kind_json(e.kind) + "}"@);
    assert(j.subrange(0, (head + ",\"kind\":"@).len() as int) =~= head + ",\"kind\":"@);
    reveal_strlit(",\"kind\":");
    reveal_strlit("\"fork\",\"parent\":");
    reveal_strlit(",\"kind\":\"fork\",\"parent\":");
    reveal_strlit("\"exec\",\"pid\":");
    reveal_strlit(",\"kind\":\"exec\",\"pid\":");
    reveal_strlit("\"exit\",\"pid\":");
    reveal_strlit(",\"kind\":\"exit\",\"pid\":");
    reveal_strlit("\"other\",\"value\":");
    reveal_strlit(",\"kind\":\"other\",\"value\":");
    assert(",\"kind\":"@ + "\"fork\",\"parent\":"@ =~= ",\"kind\":\"fork\",\"parent\":"@);
    assert(",\"kind\":"@ + "\"exec\",\"pid\":"@ =~= ",\"kind\":\"exec\",\"pid\":"@);
    assert(",\"kind\":"@ + "\"exit\",\"pid\":"@ =~= ",\"kind\":\"exit\",\"pid\":"@);
    assert(",\"kind\":"@ + "\"other\",\"value\":"@ =~= ",\"kind\":\"other\",\"value\":"@);
    match e.kind {
        Kind::Fork { parent, child } => {
            let tail = ",\"kind\":\"fork\",\"parent\":"@ + decimal(parent as nat) + ",\"child\":"@
                + decimal(child as nat) + "}"@;
            assert(j =~= head + tail);
            assert(j.subrange(j.len() - tail.len(), j.len() as int) =~= tail);
        },
        Kind::Exec { pid } => {
            let tail = ",\"kind\":\"exec\",\"pid\":"@ + decimal(pid as nat) + "}"@;
            assert(j =~= head + tail);
            assert(j.subrange(j.len() - tail.len(), j.len() as int) =~= tail);
        },
        Kind::Exit { pid, code, signal } => {
            let tail = ",\"kind\":\"exit\",\"pid\":"@ + decimal(pid as nat) + ",\"code\":"@
                + decimal(code as nat) + ",\"signal\":"@ + decimal(signal as nat) + "}"@;
            assert(j =~= head + tail);
            assert(j.subrange(j.len() - tail.len(), j.len() as int) =~= tail);
        },
        Kind::Other(value) => {
            let tail = ",\"kind\":\"other\",\"value\":"@ + decimal(value as nat) + "}"@;
            assert(j =~= head + tail);
            assert(j.subrange(j.len() - tail.len(), j.len() as int) =~= tail);
        },
    }
}

/// The debug text of a kind.
pub open spec fn kind_text(k: Kind) -> Seq<char> {
    match k {
        Kind::Fork { parent, child } => "Fork { parent: "@ + decimal(parent as nat) + ", child: "@
            + decimal(child as nat) + " }"@,
        Kind::Exec { pid } => "Exec { pid: "@ + decimal(pid as nat) + " }"@,
        Kind::Exit { pid, code, signal } => "Exit { pid: "@ + decimal(pid as nat) + ", code: "@
            + decimal(code as nat) + ", signal: "@ + decimal(signal as nat) + " }"@,
        Kind::Other(value) => "Other("@ + decimal(value as nat) + ")"@,
    }
}

/// The one-line text of an event.
pub open spec fn event_text(e: Event) -> Seq<char> {
    "sequence="@ + decimal(e.sequence as nat) + " received_ms="@ + decimal(
        e.received_unix_ms as nat,
    ) + " kernel_ns="@ + decimal(e.timestamp_ns as nat) + " cpu="@ + decimal(e.cpu as nat)
        + " kind="@ + kind_text(e.kind)
}

impl Event {
    /// The event as one JSON object.
    pub fn json(&self) -> (r: String)
        ensures
            r@ == event_json(*self),
    {
        let mut out = String::new();
        push_str(&mut out, "{\"schema_version\":1,\"sequence\":");
        push_decimal(&mut out, self.sequence as u128);
        push_str(&mut out, ",\"received_unix_ms\":");
        push_decimal(&mut out, self.received_unix_ms);
        push_str(&mut out, ",\"kernel_timestamp_ns\":");
        push_decimal(&mut out, self.timestamp_ns as u128);
        push_str(&mut out, ",\"cpu\":");
        push_decimal(&mut out, self.cpu as u128);
        push_str(&mut out, ",\"kind\":");
        match self.kind {
            Kind::Fork { parent, child } => {
                push_str(&mut out, "\"fork\",\"parent\":");
                push_decimal(&mut out, parent as u128);
                push_str(&mut out, ",\"child\":");
                push_decimal(&mut out, child as u128);
            },
            Kind::Exec { pid } => {
                push_str(&mut out, "\"exec\",\"pid\":");
                push_decimal(&mut out, pid as u128);
            },
            Kind::Exit { pid, code, signal } => {
                push_str(&mut out, "\"exit\",\"pid\":");
                push_decimal(&mut out, pid as u128);
                push_str(&mut out, ",\"code\":");
                push_decimal(&mut out, code as u128);
                push_str(&mut out, ",\"signal\":");
                push_decimal(&mut out, signal as u128);
            },
            Kind::Other(value) => {
                push_str(&mut out, "\"other\",\"value\":");
                push_decimal(&mut out, value as u128);
            },
        }
        push_str(&mut out, "}");
        proof {
            assert(out@ =~= event_json(*self));
        }
        out
    }

    /// The event as one line of text.
    pub fn display_text(&self) -> (r: String)
        ensures
            r@ == event_text(*self),
    {
        let mut out = String::new();
        push_str(&mut out, "sequence=");
        push_decimal(&mut out, self.sequence as u128);
        push_str(&mut out, " received_ms=");
        push_decimal(&mut out, self.received_unix_ms);
        push_str(&mut out, " kernel_ns=");
        push_decimal(&mut out, self.timestamp_ns as u128);
        push_str(&mut out, " cpu=");
        push_decimal(&mut out, self.cpu as u128);
        push_str(&mut out, " kind=");
        match self.kind {
            Kind::Fork { parent, child } => {
                push_str(&mut out, "Fork { parent: ");
                push_decimal(&mut out, parent as u128);
                push_str(&mut out, ", child: ");
                push_decimal(&mut out, child as u128);
                push_str(&mut out, " }");
            },
            Kind::Exec { pid } => {
                push_str(&mut out, "Exec { pid: ");
                push_decimal(&mut out, pid as u128);
                push_str(&mut out, " }");
            },
            Kind::Exit { pid, code, signal } => {
                push_str(&mut out, "Exit { pid: ");
                push_decimal(&mut out, pid as u128);
                push_str(&mut out, ", code: ");
                push_decimal(&mut out, code as u128);
                push_str(&mut out, ", signal: ");
                push_decimal(&mut out, signal as u128);
                push_str(&mut out, " }");
            },
            Kind::Other(value) => {
                push_str(&mut out, "Other(");
                push_decimal(&mut out, value as u128);
                push_str(&mut out, ")");
            },
        }
        proof {
            assert(out@ =~= event_text(*self));
        }
        out
    }
}

// ---------------------------------------------------------------------------
// Netlink messages
// ---------------------------------------------------------------------------

/// The 40-byte proc-connector control message that starts (`listen`) or
/// stops multicast delivery of process events: netlink header of length 40
/// and type 3 (done) from `pid`, connector id 1/1, payload length 4, and
/// the operation.
pub open spec fn subscription_spec(pid: u32, listen: bool, order: ByteOrder) -> Seq<u8> {
    let z = Seq::new(40, |i: int| 0u8);
    let a = splice(z, 0, bytes32(40, order));
    let b = splice(a, 4, bytes16(3, order));
    let c = splice(b, 12, bytes32(pid, order));
    let d = splice(c, 16, bytes32(1, order));
    let e = splice(d, 20, bytes32(1, order));
    let f = splice(e, 32, bytes16(4, order));
    splice(
        f,
        36,
        bytes32(
            if listen {
                1
            } else {
                0
            },
            order,
        ),
    )
}

/// Builds the message that subscribes to (or unsubscribes from) process
/// events.
pub fn subscription_message(pid: u32, listen: bool, order: ByteOrder) -> (r: [u8; 40])
    ensures
        r@ == subscription_spec(pid, listen, order),
{
    let mut b = [0u8; 40];
    proof {
        assert(b@ =~= Seq::new(40, |i: int| 0u8));
    }
    put32(&mut b, 0, 40, order);
    put16(&mut b, 4, 3, order);
    put32(&mut b, 12, pid, order);
    put32(&mut b, 16, 1, order);
    put32(&mut b, 20, 1, order);
    put16(&mut b, 32, 4, order);
    put32(
        &mut b,
        36,
        if listen {
            1
        } else {
            0
        },
        order,
    );
    b
}

/// A write leaves the bytes outside its range unchanged.
pub proof fn lemma_splice_outside(s: Seq<u8>, o: int, x: Seq<u8>, a: int, b: int)
    requires
        0 <= o,
        o + x.len() <= s.len(),
        0 <= a <= b <= s.len(),
        b <= o || o + x.len() <= a,
    ensures
        splice(s, o, x).len() == s.len(),
        splice(s, o, x).subrange(a, b) == s.subrange(a, b),
{
    assert(splice(s, o, x).subrange(a, b) =~= s.subrange(a, b));
}

/// The subscription message carries its length (40) at offset 0, the
/// sender's PID at offset 12 and the operation (1 to listen, 0 to stop) at
/// offset 36, each readable back in the order it was written in.
pub proof fn lemma_subscription_fields(pid: u32, listen: bool, order: ByteOrder)
    ensures
        subscription_spec(pid, listen, order).len() == 40,
        value32(subscription_spec(pid, listen, order).subrange(0, 4), order) == 40,
        value32(subscription_spec(pid, listen, order).subrange(12, 16), order) == pid,
        value32(subscription_spec(pid, listen, order).subrange(36, 40), order) == (if listen {
            1u32
        } else {
            0u32
        }),
{
    let op: u32 = if listen {
        1
    } else {
        0
    };
    let z = Seq::new(40, |i: int| 0u8);
    let a = splice(z, 0, bytes32(40, order));
    let b = splice(a, 4, bytes16(3, order));
    let c = splice(b, 12, bytes32(pid, order));
    let d = splice(c, 16, bytes32(1, order));
    let e = splice(d, 20, bytes32(1, order));
    let f = splice(e, 32, bytes16(4, order));
    let g = splice(f, 36, bytes32(op, order));
    lemma_get_after_put32(z, 0, 40, order);
    lemma_splice_outside(a, 4, bytes16(3, order), 0, 4);
    lemma_splice_outside(b, 12, bytes32(pid, order), 0, 4);
    lemma_get_after_put32(b, 12, pid, order);
    lemma_splice_outside(c, 16, bytes32(1, order), 0, 4);
    lemma_splice_outside(c, 16, bytes32(1, order), 12, 16);
    lemma_splice_outside(d, 20, bytes32(1, order), 0, 4);
    lemma_splice_outside(d, 20, bytes32(1, order), 12, 16);
    lemma_splice_outside(e, 32, bytes16(4, order), 0, 4);
    lemma_splice_outside(e, 32, bytes16(4, order), 12, 16);
    lemma_splice_outside(f, 36, bytes32(op, order), 0, 4);
    lemma_splice_outside(f, 36, bytes32(op, order), 12, 16);
    lemma_get_after_put32(f, 36, op, order);
}

// ---------------------------------------------------------------------------
// Decoding event messages
// ---------------------------------------------------------------------------

/// The 32-bit integer at offset `o`, if the message is long enough.
pub open spec fn field32(b: Seq<u8>, o: int, order: ByteOrder) -> Option<u32> {
    if o + 4 <= b.len() {
        Some(value32(b.subrange(o, o + 4), order))
    } else {
        None
    }
}

/// The event kind of a message with the given `what` code, if its payload
/// holds the fields that kind needs.
pub open spec fn kind_spec(b: Seq<u8>, what: u32, order: ByteOrder) -> Option<Kind> {
    if what == 1 {
        match (field32(b, 52, order), field32(b, 60, order)) {
            (Some(parent), Some(child)) => Some(Kind::Fork { parent, child }),
            _ => None,
        }
    } else if what == 2 {
        match field32(b, 52, order) {
            Some(pid) => Some(Kind::Exec { pid }),
            None => None,
        }
    } else if what == 0x8000_0000 {
        match (field32(b, 52, order), field32(b, 60, order), field32(b, 64, order)) {
            (Some(pid), Some(code), Some(signal)) => Some(Kind::Exit { pid, code, signal }),
            _ => None,
        }
    } else {
        Some(Kind::Other(what))
    }
}

/// The event a proc-connector message reports, received at `now`: none for
/// a message shorter than 52 bytes, for the acknowledgement (`what` 0), or
/// when the payload is too short for its kind.
pub open spec fn event_spec(b: Seq<u8>, order: ByteOrder, now: u128) -> Option<Event> {
    if b.len() < 52 {
        None
    } else {
        let sequence = value32(b.subrange(24, 28), order);
        let what = value32(b.subrange(36, 40), order);
        let cpu = value32(b.subrange(40, 44), order);
        let timestamp_ns = value64(b.subrange(44, 52), order);
        if what == 0 {
            None
        } else {
            match kind_spec(b, what, order) {
                Some(kind) => Some(Event { sequence, timestamp_ns, received_unix_ms: now, cpu, kind }),
                None => None,
            }
        }
    }
}

/// Decodes a proc-connector message received at `received_unix_ms`.
pub fn parse_at(b: &[u8], order: ByteOrder, received_unix_ms: u128) -> (r: Option<Event>)
    ensures
        r == event_spec(b@, order, received_unix_ms),
{
    if b.len() < 52 {
        return None;
    }
    let sequence = get32(b, 24, order)?;
    let what = get32(b, 36, order)?;
    if what == 0 {
        return None;
    }
    let cpu = get32(b, 40, order)?;
    let timestamp_ns = get64(b, 44, order)?;
    let u: usize = 52;
    let kind = if what == 1 {
        Kind::Fork { parent: get32(b, u, order)?, child: get32(b, u + 8, order)? }
    } else if what == 2 {
        Kind::Exec { pid: get32(b, u, order)? }
    } else if what == 0x8000_0000 {
        Kind::Exit {
            pid: get32(b, u, order)?,
            code: get32(b, u + 8, order)?,
            signal: get32(b, u + 12, order)?,
        }
    } else {
        Kind::Other(what)
    };
    Some(Event { sequence, timestamp_ns, received_unix_ms, cpu, kind })
}

#[verifier::external_type_specification]
#[verifier::external_body]
pub struct ExSystemTime(std::time::SystemTime);

/// Calls `SystemTime::now`: the current wall-clock time. Nothing is
/// promised of it.
#[verifier::external_body]
fn wall_clock() -> std::time::SystemTime {
    std::time::SystemTime::now()
}

/// Calls `SystemTime::duration_since` with the Unix epoch: the time from
/// the epoch to `t`, or none for a time before the epoch. Nothing is
/// promised of the value.
#[verifier::external_body]
fn since_epoch(t: &std::time::SystemTime) -> Option<std::time::Duration> {
    t.duration_since(std::time::UNIX_EPOCH).ok()
}

/// Calls `Duration::as_millis`: the whole milliseconds of a duration.
/// Nothing is promised of the value.
#[verifier::external_body]
fn whole_millis(d: &std::time::Duration) -> u128 {
    d.as_millis()
}

/// Decodes a proc-connector message, stamping it with the time of receipt.
pub fn parse(b: &[u8], order: ByteOrder) -> (r: Option<Event>)
    ensures
        match r {
            Some(e) => event_spec(b@, order, e.received_unix_ms) == Some(e),
            None => event_spec(b@, order, 0) is None,
        },
{
    let now = wall_clock();
    let millis = match since_epoch(&now) {
        Some(d) => whole_millis(&d),
        None => 0,
    };
    parse_at(b, order, millis)
}


// ---------------------------------------------------------------------------
// Capturing: sequence accounting
// ---------------------------------------------------------------------------

/// The events of a finished capture and how many kernel sequence numbers
/// were skipped between them.
pub struct Capture {
    pub events: Vec<Event>,
    pub sequence_gaps: u64,
}

/// The number that follows `n`, staying at `u32::MAX`.
pub open spec fn next_sequence(n: u32) -> int {
    if n == u32::MAX {
        n as int
    } else {
        n + 1
    }
}

/// How many sequence numbers the kernel skipped on the event's CPU before
/// this event, given the last sequence number seen on each CPU: none for
/// the first event of a CPU or for one that does not run ahead.
pub open spec fn gap_before(last: Map<u32, u32>, e: Event) -> nat {
    if last.contains_key(e.cpu) && e.sequence > next_sequence(last[e.cpu]) {
        (e.sequence - next_sequence(last[e.cpu])) as nat
    } else {
        0
    }
}

/// The last sequence number on each CPU after the events `s`, in order.
pub open spec fn last_over(s: Seq<Event>) -> Map<u32, u32>
    decreases s.len(),
{
    if s.len() == 0 {
        Map::empty()
    } else {
        last_over(s.drop_last()).insert(s.last().cpu, s.last().sequence)
    }
}

/// The sequence numbers skipped over the events `s`, in order: for each
/// event, the gap since the latest earlier event on its CPU.
pub open spec fn gaps_over(s: Seq<Event>) -> nat
    decreases s.len(),
{
    if s.len() == 0 {
        0
    } else {
        gaps_over(s.drop_last()) + gap_before(last_over(s.drop_last()), s.last())
    }
}

/// A capture in progress: the events kept so far, the last sequence number
/// seen on each CPU and the gaps counted.
pub struct CaptureState {
    events: Vec<Event>,
    last_sequence: HashMap<u32, u32>,
    sequence_gaps: u64,
    limit: usize,
}

/// What one receive on the event socket gave: a datagram, decoded to the
/// event it reports (if any); no datagram before the timeout; or another
/// error.
pub enum Receipt {
    Message(Option<Event>),
    WouldBlock,
    TimedOut,
    Error(OsError),
}

/// What a capture does next.
#[derive(Debug, Clone, Copy, PartialEq, Eq, Structural)]
pub enum CaptureStep {
    /// Receive another datagram.
    Receive,
    /// Stop: the limit is reached or the kernel went quiet.
    Done,
    /// Stop with this error.
    Fail(OsError),
}

/// Whether a capture holding `kept` events under `limit` receives again.
pub open spec fn step_after(kept: nat, limit: usize) -> CaptureStep {
    if kept < limit {
        CaptureStep::Receive
    } else {
        CaptureStep::Done
    }
}

impl CaptureState {
    /// The events kept so far, in the order they arrived.
    pub closed spec fn kept(&self) -> Seq<Event> {
        self.events@
    }

    /// The last sequence number seen on each CPU.
    pub closed spec fn last_seen(&self) -> Map<u32, u32> {
        self.last_sequence@
    }

    /// The number of skipped sequence numbers counted so far.
    pub closed spec fn gaps(&self) -> nat {
        self.sequence_gaps as nat
    }

    /// The most events the capture keeps.
    pub closed spec fn limit(&self) -> usize {
        self.limit
    }

    /// The capture keeps no more events than its limit, and its gap count
    /// and last sequence numbers are those of the events it kept.
    pub open spec fn wf(&self) -> bool {
        &&& self.kept().len() <= self.limit()
        &&& self.gaps() == gaps_over(self.kept())
        &&& self.last_seen() == last_over(self.kept())
    }

    /// A capture that has seen nothing and keeps at most `limit` events.
    pub fn new(limit: usize) -> (r: CaptureState)
        ensures
            r.kept() == Seq::<Event>::empty(),
            r.last_seen() == Map::<u32, u32>::empty(),
            r.gaps() == 0,
            r.limit() == limit,
            r.wf(),
    {
        CaptureState { events: Vec::new(), last_sequence: HashMap::new(), sequence_gaps: 0, limit }
    }

    /// Whether to receive again: only while fewer events than the limit are
    /// kept.
    pub fn step(&self) -> (r: CaptureStep)
        ensures
            r == step_after(self.kept().len(), self.limit()),
    {
        if self.events.len() < self.limit {
            CaptureStep::Receive
        } else {
            CaptureStep::Done
        }
    }

    /// Takes in what a receive gave: a datagram's event is kept (one that
    /// reports none is skipped) and the capture goes on until the limit is
    /// reached; a timeout ends it; any other error fails it.
    pub fn take(&mut self, receipt: Receipt) -> (r: CaptureStep)
        requires
            old(self).wf(),
            old(self).kept().len() < old(self).limit(),
            receipt matches Receipt::Message(Some(e)) ==> old(self).gaps() + gap_before(
                old(self).last_seen(),
                e,
            ) <= u64::MAX,
        ensures
            final(self).wf(),
            final(self).limit() == old(self).limit(),
            match receipt {
                Receipt::Message(Some(e)) => {
                    &&& final(self).kept() == old(self).kept().push(e)
                    &&& final(self).last_seen() == old(self).last_seen().insert(e.cpu, e.sequence)
                    &&& final(self).gaps() == old(self).gaps() + gap_before(old(self).last_seen(), e)
                    &&& r == step_after(final(self).kept().len(), final(self).limit())
                },
                Receipt::Message(None) => {
                    &&& final(self).kept() == old(self).kept()
                    &&& final(self).last_seen() == old(self).last_seen()
                    &&& final(self).gaps() == old(self).gaps()
                    &&& r == CaptureStep::Receive
                },
                Receipt::WouldBlock | Receipt::TimedOut => {
                    &&& final(self).kept() == old(self).kept()
                    &&& final(self).last_seen() == old(self).last_seen()
                    &&& final(self).gaps() == old(self).gaps()
                    &&& r == CaptureStep::Done
                },
                Receipt::Error(e) => {
                    &&& final(self).kept() == old(self).kept()
                    &&& final(self).last_seen() == old(self).last_seen()
                    &&& final(self).gaps() == old(self).gaps()
                    &&& r == CaptureStep::Fail(e)
                },
            },
    {
        match receipt {
            Receipt::Message(Some(e)) => {
                self.record(e);
                self.step()
            },
            Receipt::Message(None) => CaptureStep::Receive,
            Receipt::WouldBlock | Receipt::TimedOut => CaptureStep::Done,
            Receipt::Error(e) => CaptureStep::Fail(e),
        }
    }

    /// The number of events kept so far.
    pub fn len(&self) -> (r: usize)
        ensures
            r == self.kept().len(),
    {
        self.events.len()
    }

    /// The number of skipped sequence numbers counted so far.
    pub fn sequence_gaps(&self) -> (r: u64)
        ensures
            r == self.gaps(),
    {
        self.sequence_gaps
    }

    /// How many sequence numbers recording `e` would count as skipped.
    pub fn gap_of(&self, e: &Event) -> (r: u32)
        ensures
            r == gap_before(self.last_seen(), *e),
    {
        match self.last_sequence.get(&e.cpu) {
            Some(last) => {
                let expected = last.saturating_add(1);
                if e.sequence > expected {
                    e.sequence - expected
                } else {
                    0
                }
            },
            None => 0,
        }
    }

    /// Keeps an event: counts the sequence numbers skipped on its CPU since
    /// the last event there and remembers its sequence number.
    pub fn record(&mut self, e: Event)
        requires
            old(self).wf(),
            old(self).kept().len() < old(self).limit(),
            old(self).gaps() + gap_before(old(self).last_seen(), e) <= u64::MAX,
        ensures
            final(self).wf(),
            final(self).limit() == old(self).limit(),
            final(self).kept() == old(self).kept().push(e),
            final(self).last_seen() == old(self).last_seen().insert(e.cpu, e.sequence),
            final(self).gaps() == old(self).gaps() + gap_before(old(self).last_seen(), e),
    {
        let gap = self.gap_of(&e);
        self.sequence_gaps = self.sequence_gaps + gap as u64;
        self.last_sequence.insert(e.cpu, e.sequence);
        self.events.push(e);
        proof {
            assert(self.kept().drop_last() =~= old(self).kept());
        }
    }

    /// Ends the capture: the events kept, in order, at most the limit's
    /// number of them, and the gaps counted over them.
    pub fn finish(self) -> (r: Capture)
        requires
            self.wf(),
        ensures
            r.events@ == self.kept(),
            r.sequence_gaps == self.gaps(),
            r.sequence_gaps == gaps_over(r.events@),
            r.events@.len() <= self.limit(),
    {
        Capture { events: self.events, sequence_gaps: self.sequence_gaps }
    }
}

/// An event whose sequence number follows the last one seen on its CPU,
/// or repeats an earlier one, counts no gap.
pub proof fn lemma_consecutive_events_add_no_gap(last: Map<u32, u32>, e: Event)
    requires
        last.contains_key(e.cpu),
        last[e.cpu] < u32::MAX,
        e.sequence <= last[e.cpu] + 1,
    ensures
        gap_before(last, e) == 0,
{
}

// ---------------------------------------------------------------------------
// Failures of the capture
// ---------------------------------------------------------------------------

/// An operating-system error met while setting up or running a capture.
#[derive(Debug, Clone, Copy, PartialEq, Eq, Structural)]
pub struct OsError {
    pub kind: IoFailure,
    pub raw_os_error: Option<i32>,
}

/// What a failed capture reports.
#[derive(Debug, Clone, Copy, PartialEq, Eq, Structural)]
pub enum CaptureError {
    /// The kernel refused the subscription: process events need a
    /// suitable capability or elevation.
    Denied,
    /// Any other error, passed on as it came.
    Os(OsError),
}

/// Tells a refusal by the kernel (permission denied, or `EPERM`) apart
/// from other errors, so that a denial is reported as one.
pub fn capability_error(error: OsError) -> (r: CaptureError)
    ensures
        r == (if error.kind == IoFailure::PermissionDenied || error.raw_os_error == Some(1i32) {
            CaptureError::Denied
        } else {
            CaptureError::Os(error)
        }),
{
    let eperm = match error.raw_os_error {
        Some(code) => code == 1,
        None => false,
    };
    if error.kind == IoFailure::PermissionDenied || eperm {
        CaptureError::Denied
    } else {
        CaptureError::Os(error)
    }
}

} // verus!
