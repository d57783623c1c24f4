use vstd::prelude::*;
use vstd::utf8::*;

verus! {

/// Largest datagram that the transport layer hands over.
pub const MAX_DATAGRAM_SIZE: usize = 64 * 1024;

/// The kind of a framed packet, sent as one byte.
#[derive(Debug, Clone, Copy, PartialEq, Eq, Structural)]
pub enum PacketKind {
    SpawnEntity,
}

/// The byte that stands for a packet kind on the wire.
pub open spec fn kind_byte(kind: PacketKind) -> u8 {
    match kind {
        PacketKind::SpawnEntity => 0,
    }
}

/// The packet kind that a byte stands for, if any.
pub open spec fn kind_of_byte(b: u8) -> Option<PacketKind> {
    if b == 0 {
        Some(PacketKind::SpawnEntity)
    } else {
        None
    }
}

impl vstd::std_specs::convert::FromSpecImpl<PacketKind> for u8 {
    open spec fn obeys_from_spec() -> bool {
        true
    }

    open spec fn from_spec(v: PacketKind) -> u8 {
        kind_byte(v)
    }
}

impl From<PacketKind> for u8 {
    fn from(value: PacketKind) -> (r: u8) {
        match value {
            PacketKind::SpawnEntity => 0,
        }
    }
}

impl vstd::std_specs::convert::TryFromSpecImpl<u8> for PacketKind {
    open spec fn obeys_try_from_spec() -> bool {
        true
    }

    open spec fn try_from_spec(v: u8) -> Result<PacketKind, ()> {
        match kind_of_byte(v) {
            Some(k) => Ok(k),
            None => Err(()),
        }
    }
}

impl TryFrom<u8> for PacketKind {
    type Error = ();

    fn try_from(value: u8) -> (r: Result<PacketKind, ()>) {
        match value {
            0 => Ok(PacketKind::SpawnEntity),
            _ => Err(()),
        }
    }
}


/// The two little-endian bytes of a `u16`.
pub open spec fn le_bytes_u16(x: u16) -> Seq<u8> {
    seq![(x % 256) as u8, (x / 256) as u8]
}

/// The `u16` whose little-endian bytes are `lo` and `hi`.
pub open spec fn u16_of_le_bytes(lo: u8, hi: u8) -> u16 {
    (lo + 256 * hi) as u16
}

/// The byte length of a text, as `str::len` reports it.
pub open spec fn byte_len(text: Seq<char>) -> usize {
    encode_utf8(text).len() as usize
}

/// The length field that a packet with the given payload carries: three
/// header bytes and the payload's UTF-8 bytes, the latter counted modulo
/// 2^16 as a cast to `u16` does.
pub open spec fn header_len(payload: Seq<char>) -> int {
    3 + (byte_len(payload) % 65536) as int
}

/// The bytes of a packet on the wire: the length field (little endian),
/// the kind byte, then the payload as UTF-8.
pub open spec fn frame_bytes(len: u16, kind: PacketKind, payload: Seq<char>) -> Seq<u8> {
    le_bytes_u16(len) + seq![kind_byte(kind)] + encode_utf8(payload)
}

/// What `String::from_utf8_lossy` makes of the given bytes.
pub uninterp spec fn utf8_lossy(bytes: Seq<u8>) -> Seq<char>;

/// The text that a received payload decodes to: the decoded characters
/// where the bytes are valid UTF-8, else the lossy decoding.
pub open spec fn payload_text(bytes: Seq<u8>) -> Seq<char> {
    if valid_utf8(bytes) {
        decode_utf8(bytes)
    } else {
        utf8_lossy(bytes)
    }
}

/// Calls `String::from_utf8_lossy`. Its result is named `utf8_lossy`; the
/// contract adds what std documents: valid UTF-8 comes back as the text it
/// encodes. How invalid sequences are replaced is left to the name.
#[verifier::external_body]
fn string_from_utf8_lossy(bytes: &[u8]) -> (r: String)
    ensures
        r@ == utf8_lossy(bytes@),
        valid_utf8(bytes@) ==> r@ == decode_utf8(bytes@),
{
    String::from_utf8_lossy(bytes).into_owned()
}

/// A framed packet: a length field, a kind and a text payload.
pub struct Packet {
    len: u16,
    kind: PacketKind,
    payload: String,
}

impl Packet {
    /// The length field.
    pub closed spec fn len_field(&self) -> u16 {
        self.len
    }

    /// The kind.
    pub closed spec fn kind_field(&self) -> PacketKind {
        self.kind
    }

    /// The payload's characters.
    pub closed spec fn payload_chars(&self) -> Seq<char> {
        self.payload@
    }

    /// Builds a packet whose length field counts the header and the payload
    /// bytes. Where the truncated payload length plus the header does not fit
    /// in a `u16` the addition overflows, so such payloads are left out.
    pub fn new(kind: PacketKind, payload: String) -> (r: Self)
        requires
            header_len(payload@) <= u16::MAX,
        ensures
            r.len_field() == header_len(payload@),
            r.kind_field() == kind,
            r.payload_chars() == payload@,
    {
        let n = payload.as_str().len();
        let low = (n % 65536) as u16;
        Self { len: 3 + low, kind, payload }
    }

    /// The packet's kind.
    pub fn kind(&self) -> (r: PacketKind)
        ensures
            r == self.kind_field(),
    {
        self.kind
    }

    /// The packet's payload.
    pub fn payload(&self) -> (r: &String)
        ensures
            r@ == self.payload_chars(),
    {
        &self.payload
    }

    /// The packet's bytes on the wire.
    pub fn to_bytes(&self) -> (r: Vec<u8>)
        ensures
            r@ == frame_bytes(self.len_field(), self.kind_field(), self.payload_chars()),
    {
        let payload = self.payload.as_str().as_bytes();
        let mut bytes: Vec<u8> = Vec::new();
        bytes.push((self.len % 256) as u8);
        bytes.push((self.len / 256) as u8);
        bytes.push(self.kind.into());
        bytes.extend_from_slice(payload);
        assert(bytes@ =~= frame_bytes(self.len_field(), self.kind_field(), self.payload_chars()));
        bytes
    }

    /// Reads a packet from received bytes. The first three bytes are the
    /// header; a kind byte that names no kind is refused. The length field is
    /// taken as it stands, and the rest is decoded as text.
    pub fn try_from_bytes(value: &[u8]) -> (r: Result<Packet, ()>)
        requires
            value@.len() >= 3,
        ensures
            kind_of_byte(value@[2]) is None <==> r is Err,
            r matches Ok(p) ==> {
                &&& p.len_field() == u16_of_le_bytes(value@[0], value@[1])
                &&& Some(p.kind_field()) == kind_of_byte(value@[2])
                &&& p.payload_chars() == payload_text(value@.skip(3))
            },
    {
        let kind = PacketKind::try_from(value[2]);
        if let Ok(kind) = kind {
            let len = (value[0] as u16) + 256 * (value[1] as u16);
            let rest = &value[3..value.len()];
            assert(rest@ =~= value@.skip(3));
            let payload = string_from_utf8_lossy(rest);
            Ok(Packet { len, kind, payload })
        } else {
            Err(())
        }
    }
}


impl<'a> vstd::std_specs::convert::FromSpecImpl<&'a Packet> for Vec<u8> {
    /// The generic `From` law is not used for this conversion: its result is
    /// stated over its bytes, in the `ensures` of `from` below.
    open spec fn obeys_from_spec() -> bool {
        false
    }

    open spec fn from_spec(v: &'a Packet) -> Vec<u8> {
        choose|b: Vec<u8>| b@ == frame_bytes(v.len_field(), v.kind_field(), v.payload_chars())
    }
}

impl<'a> From<&'a Packet> for Vec<u8> {
    /// The packet's bytes on the wire, as `Packet::to_bytes` gives them.
    fn from(value: &'a Packet) -> (r: Vec<u8>)
        ensures
            r@ == frame_bytes(value.len_field(), value.kind_field(), value.payload_chars()),
    {
        value.to_bytes()
    }
}


/// A kind survives its trip through the wire byte, and a byte that names a
/// kind is that kind's byte.
pub proof fn lemma_kind_byte_roundtrip(kind: PacketKind, b: u8)
    ensures
        kind_of_byte(kind_byte(kind)) == Some(kind),
        kind_of_byte(b) matches Some(k) ==> kind_byte(k) == b,
{
}

/// Reading back the bytes of a packet gives its length field, its kind and
/// its payload unchanged.
pub proof fn lemma_frame_roundtrip(len: u16, kind: PacketKind, payload: Seq<char>)
    ensures
        frame_bytes(len, kind, payload).len() >= 3,
        u16_of_le_bytes(frame_bytes(len, kind, payload)[0], frame_bytes(len, kind, payload)[1])
            == len,
        kind_of_byte(frame_bytes(len, kind, payload)[2]) == Some(kind),
        payload_text(frame_bytes(len, kind, payload).skip(3)) == payload,
{
    let b = frame_bytes(len, kind, payload);
    assert(b.skip(3) =~= encode_utf8(payload));
    encode_utf8_valid_utf8(payload);
    encode_utf8_decode_utf8(payload);
}

/// The length field that `Packet::new` writes is the number of bytes that
/// `to_bytes` produces, whenever that number fits in a `u16`.
pub proof fn lemma_len_field_counts_frame(len: u16, kind: PacketKind, payload: Seq<char>)
    requires
        len == header_len(payload),
        frame_bytes(len, kind, payload).len() <= u16::MAX,
    ensures
        frame_bytes(len, kind, payload).len() == len,
{
}

} // verus!
