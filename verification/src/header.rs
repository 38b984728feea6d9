//! The 12-byte self-describing value header.
//!
//! Every stored value names its own codec, vocabulary and token count. Nothing here refers to a
//! tokenizer: a value is a compressed sequence of token ids, whichever vocabulary produced them.
//!
//! ```text
//! off  size  field
//!   0     1  magic 0xA7
//!   1     1  format version (1)
//!   2     1  codec id  0=raw16 1=raw24 2=freq 4=raw8
//!   3     1  reserved, must be zero
//!   4     2  vocabulary id (u16 LE; 0 = none)
//!   6     2  reserved, must be zero
//!   8     4  token count (u32 LE)
//!  12     -  payload
//! ```
//!
//! The token count is not redundant: streamvbyte needs it up front to decode. Codec id 3 is
//! retired and stays unassigned.

use vstd::prelude::*;

use crate::bytes::{push_le16, push_le32, read_le16, read_le32, to_low_usize};
use crate::text::{debug_quoted, push_decimal, push_hex_byte, same_text};

verus! {

pub const MAGIC: u8 = 0xA7;

pub const VERSION: u8 = 1;

pub const HEADER_LEN: usize = 12;

/// How the token-id sequence is encoded in the payload.
#[derive(Debug, Clone, Copy, PartialEq, Eq, Hash, Structural)]
pub enum Codec {
    /// 2 bytes per id, little-endian. Ids must fit in 16 bits.
    Raw16,
    /// 3 bytes per id, big-endian. Ids must fit in 24 bits, which covers every vocabulary in
    /// practical use.
    Raw24,
    /// Frequency-rank remap, then streamvbyte.
    Freq,
    /// 1 byte per id. Ids must fit in 8 bits.
    Raw8,
}

impl Codec {
    /// The byte that stands for this codec in a header.
    pub open spec fn spec_code(self) -> u8 {
        match self {
            Codec::Raw16 => 0,
            Codec::Raw24 => 1,
            Codec::Freq => 2,
            Codec::Raw8 => 4,
        }
    }

    /// Bytes per id, for the fixed-width codecs.
    pub open spec fn width(self) -> nat {
        match self {
            Codec::Raw8 => 1,
            Codec::Raw16 => 2,
            Codec::Raw24 => 3,
            Codec::Freq => 0,
        }
    }

    /// The codec's name.
    pub open spec fn name(self) -> Seq<char> {
        match self {
            Codec::Raw8 => "raw8"@,
            Codec::Raw16 => "raw16"@,
            Codec::Raw24 => "raw24"@,
            Codec::Freq => "freq"@,
        }
    }

    /// The largest id the codec can represent, if it has a bound of its own.
    pub open spec fn spec_max_id(self) -> Option<u32> {
        match self {
            Codec::Raw8 => Some(0xFF),
            Codec::Raw16 => Some(0xFFFF),
            Codec::Raw24 => Some(0xFF_FFFF),
            Codec::Freq => None,
        }
    }

    /// The byte that stands for this codec in a header.
    pub fn code(self) -> (v: u8)
        ensures
            v == self.spec_code(),
    {
        match self {
            Codec::Raw16 => 0,
            Codec::Raw24 => 1,
            Codec::Freq => 2,
            Codec::Raw8 => 4,
        }
    }

    /// The codec a header byte stands for.
    pub fn from_u8(v: u8) -> (r: Result<Self, HeaderError>)
        ensures
            match r {
                Ok(c) => c.spec_code() == v,
                Err(e) => e == HeaderError::UnknownCodec(v) && forall|c: Codec|
                    c.spec_code() != v,
            },
    {
        match v {
            0 => Ok(Codec::Raw16),
            1 => Ok(Codec::Raw24),
            2 => Ok(Codec::Freq),
            4 => Ok(Codec::Raw8),
            _ => Err(HeaderError::UnknownCodec(v)),
        }
    }

    /// Whether this codec needs a trained ranking, and therefore a nonzero vocabulary id.
    pub fn needs_table(self) -> (r: bool)
        ensures
            r == (self == Codec::Freq),
    {
        match self {
            Codec::Freq => true,
            _ => false,
        }
    }

    /// Largest token id this codec can represent, for the table-free codecs. `freq` is bounded by
    /// its ranking instead.
    pub fn max_id(self) -> (r: Option<u32>)
        ensures
            r == self.spec_max_id(),
    {
        match self {
            Codec::Raw8 => Some(0xFF),
            Codec::Raw16 => Some(0xFFFF),
            Codec::Raw24 => Some(0x00FF_FFFF),
            Codec::Freq => None,
        }
    }

    pub fn as_str(self) -> (s: &'static str)
        ensures
            s@ == self.name(),
    {
        match self {
            Codec::Raw8 => "raw8",
            Codec::Raw16 => "raw16",
            Codec::Raw24 => "raw24",
            Codec::Freq => "freq",
        }
    }

    /// Parse a codec name. `raw` is resolved by the caller, which knows the id range.
    pub fn parse(s: &str) -> (r: Result<Self, HeaderError>)
        ensures
            match r {
                Ok(c) => s@ == c.name(),
                Err(e) => (e matches HeaderError::UnknownCodecName(n) && n@ == s@) && forall|
                    c: Codec,
                | #[trigger] c.name() != s@,
            },
    {
        if same_text(s, "raw8") {
            Ok(Codec::Raw8)
        } else if same_text(s, "raw16") {
            Ok(Codec::Raw16)
        } else if same_text(s, "raw24") {
            Ok(Codec::Raw24)
        } else if same_text(s, "freq") {
            Ok(Codec::Freq)
        } else {
            Err(HeaderError::UnknownCodecName(s.to_owned()))
        }
    }
}

/// What a value says about itself.
#[derive(Debug, Clone, Copy, PartialEq, Eq, Structural)]
pub struct Header {
    pub codec: Codec,
    pub vocabulary_id: u16,
    pub n_tokens: u32,
}

/// The first thing wrong with `buf` as a header and payload, if anything is.
pub open spec fn header_fault(buf: Seq<u8>) -> Option<HeaderError> {
    if buf.len() < HEADER_LEN {
        Some(HeaderError::TooShort(buf.len() as usize))
    } else if buf[0] != MAGIC {
        Some(HeaderError::BadMagic(buf[0]))
    } else if buf[1] != VERSION {
        Some(HeaderError::UnsupportedVersion(buf[1]))
    } else if !exists|c: Codec| c.spec_code() == buf[2] {
        Some(HeaderError::UnknownCodec(buf[2]))
    } else if buf[3] != 0 || buf[6] != 0 || buf[7] != 0 {
        Some(HeaderError::ReservedNotZero)
    } else {
        let h = stated_header(buf);
        let got = (buf.len() - HEADER_LEN) as nat;
        if h.codec == Codec::Freq && h.vocabulary_id == 0 {
            Some(HeaderError::MissingTable(h.codec))
        } else if h.codec != Codec::Freq && got != h.n_tokens as nat * h.codec.width() {
            Some(
                HeaderError::PayloadLen {
                    want: crate::bytes::low_usize(h.n_tokens as nat * h.codec.width()),
                    got: got as usize,
                },
            )
        } else if h.codec == Codec::Freq && h.n_tokens > 0 && got == 0 {
            Some(HeaderError::PayloadLen { want: 1, got: 0 })
        } else {
            None
        }
    }
}

/// The header that the first bytes of `buf` spell, where its codec byte is a known one.
pub open spec fn stated_header(buf: Seq<u8>) -> Header {
    Header {
        codec: choose|c: Codec| c.spec_code() == buf[2],
        vocabulary_id: crate::bytes::le_value(buf.subrange(4, 6)) as u16,
        n_tokens: crate::bytes::le_value(buf.subrange(8, 12)) as u32,
    }
}

impl Header {
    /// The header's bytes.
    pub open spec fn spec_bytes(self) -> Seq<u8> {
        seq![MAGIC, VERSION, self.codec.spec_code(), 0] + crate::bytes::le_bytes(
            self.vocabulary_id as nat,
            2,
        ) + seq![0u8, 0u8] + crate::bytes::le_bytes(self.n_tokens as nat, 4)
    }

    /// Whether a payload of `len` bytes may follow this header.
    pub open spec fn admits(self, len: nat) -> bool {
        if self.codec == Codec::Freq {
            self.vocabulary_id != 0 && (self.n_tokens > 0 ==> len > 0)
        } else {
            len == self.n_tokens as nat * self.codec.width()
        }
    }

    pub fn new(codec: Codec, vocabulary_id: u16, n_tokens: u32) -> (h: Self)
        ensures
            h == (Header { codec, vocabulary_id, n_tokens }),
    {
        Header { codec, vocabulary_id, n_tokens }
    }

    /// Write the header into the first `HEADER_LEN` bytes of a fresh buffer.
    pub fn write_to(&self, out: &mut Vec<u8>)
        requires
            old(out)@.len() == 0,
        ensures
            final(out)@ == self.spec_bytes(),
            final(out)@.len() == HEADER_LEN,
    {
        out.push(MAGIC);
        out.push(VERSION);
        out.push(self.codec.code());
        out.push(0);
        push_le16(out, self.vocabulary_id);
        out.push(0);
        out.push(0);
        push_le32(out, self.n_tokens);
        proof {
            lemma_header_len(*self);
        }
        assert(out@ =~= self.spec_bytes());
    }

    pub fn to_bytes(&self) -> (r: [u8; HEADER_LEN])
        ensures
            r@ == self.spec_bytes(),
    {
        let mut v: Vec<u8> = Vec::new();
        self.write_to(&mut v);
        let r: [u8; HEADER_LEN] = [
            v[0],
            v[1],
            v[2],
            v[3],
            v[4],
            v[5],
            v[6],
            v[7],
            v[8],
            v[9],
            v[10],
            v[11],
        ];
        assert(r@ =~= v@);
        r
    }

    /// Parse and validate a header, returning it alongside the payload slice.
    ///
    /// Every malformed input is an error rather than a best-effort decode: a value reaching this
    /// function came off disk or off the wire, and silently reinterpreting it would hand back
    /// plausible-looking wrong ids.
    pub fn parse(buf: &[u8]) -> (r: Result<(Header, &[u8]), HeaderError>)
        ensures
            match r {
                Ok((h, payload)) => {
                    &&& header_fault(buf@) is None
                    &&& buf@ == h.spec_bytes() + payload@
                    &&& h.admits(payload@.len())
                },
                Err(e) => header_fault(buf@) == Some(e),
            },
    {
        if buf.len() < HEADER_LEN {
            return Err(HeaderError::TooShort(buf.len()));
        }
        if buf[0] != MAGIC {
            return Err(HeaderError::BadMagic(buf[0]));
        }
        if buf[1] != VERSION {
            return Err(HeaderError::UnsupportedVersion(buf[1]));
        }
        let codec = match Codec::from_u8(buf[2]) {
            Ok(c) => c,
            Err(e) => {
                return Err(e);
            },
        };
        // Reserved bytes are checked, not ignored, so a future version that assigns meaning to
        // them can rely on old writers having left them zero.
        if buf[3] != 0 || buf[6] != 0 || buf[7] != 0 {
            return Err(HeaderError::ReservedNotZero);
        }
        let vocabulary_id = read_le16(buf, 4);
        let n_tokens = read_le32(buf, 8);
        let h = Header { codec, vocabulary_id, n_tokens };
        proof {
            lemma_spec_code_injective(codec, stated_header(buf@).codec);
            assert(h == stated_header(buf@));
        }

        // `freq` cannot decode without its ranking, so a zero id is a broken value. The converse
        // is deliberately allowed: a raw value names the vocabulary it belongs to even though the
        // codec itself needs nothing from it.
        if codec.needs_table() && vocabulary_id == 0 {
            return Err(HeaderError::MissingTable(codec));
        }
        let payload = vstd::slice::slice_subrange(buf, HEADER_LEN, buf.len());

        // The raw codecs have an exact expected length, so a truncated or padded payload is
        // caught here rather than producing a short read downstream.
        let expected: Option<u64> = match codec {
            Codec::Raw8 => Some(n_tokens as u64),
            Codec::Raw16 => Some(n_tokens as u64 * 2),
            Codec::Raw24 => Some(n_tokens as u64 * 3),
            Codec::Freq => None,
        };
        match expected {
            Some(want) => {
                let ghost n = h.n_tokens as nat;
                let ghost width = h.codec.width();
                assert(n * width == want) by (nonlinear_arith)
                    requires
                        width == 1 && want == n || width == 2 && want == n * 2 || width == 3 && want
                            == n * 3,
                ;
                if payload.len() as u64 != want {
                    return Err(
                        HeaderError::PayloadLen {
                            want: to_low_usize(want),
                            got: payload.len(),
                        },
                    );
                }
            },
            None => {
                if n_tokens > 0 && payload.len() == 0 {
                    return Err(HeaderError::PayloadLen { want: 1, got: 0 });
                }
            },
        }
        proof {
            lemma_header_rebuilt(buf@, h);
            assert(buf@ =~= h.spec_bytes() + payload@);
        }
        Ok((h, payload))
    }
}

pub proof fn lemma_header_len(h: Header)
    ensures
        h.spec_bytes().len() == HEADER_LEN,
{
    crate::bytes::lemma_le_bytes_len(h.vocabulary_id as nat, 2);
    crate::bytes::lemma_le_bytes_len(h.n_tokens as nat, 4);
}

/// Two codecs never share a header byte.
pub proof fn lemma_spec_code_injective(a: Codec, b: Codec)
    requires
        a.spec_code() == b.spec_code(),
    ensures
        a == b,
{
}

proof fn lemma_header_rebuilt(buf: Seq<u8>, h: Header)
    requires
        buf.len() >= HEADER_LEN,
        buf[0] == MAGIC,
        buf[1] == VERSION,
        buf[2] == h.codec.spec_code(),
        buf[3] == 0,
        buf[6] == 0,
        buf[7] == 0,
        h.vocabulary_id == crate::bytes::le_value(buf.subrange(4, 6)),
        h.n_tokens == crate::bytes::le_value(buf.subrange(8, 12)),
    ensures
        buf.take(HEADER_LEN as int) == h.spec_bytes(),
{
    crate::bytes::lemma_le_bytes_of_value(buf.subrange(4, 6));
    crate::bytes::lemma_le_bytes_of_value(buf.subrange(8, 12));
    assert(buf.take(HEADER_LEN as int) =~= h.spec_bytes());
}

/// A buffer that parses is its header's bytes and a payload that the header admits.
pub proof fn lemma_sound_header(buf: Seq<u8>)
    requires
        header_fault(buf) is None,
    ensures
        buf == stated_header(buf).spec_bytes() + buf.skip(HEADER_LEN as int),
        stated_header(buf).admits((buf.len() - HEADER_LEN) as nat),
{
    crate::bytes::lemma_le_limits();
    crate::bytes::lemma_le_bytes_of_value(buf.subrange(4, 6));
    crate::bytes::lemma_le_bytes_of_value(buf.subrange(8, 12));
    lemma_header_rebuilt(buf, stated_header(buf));
    assert(buf =~= buf.take(HEADER_LEN as int) + buf.skip(HEADER_LEN as int));
}

/// What a header's bytes say is the header: whatever payload follows them, the fields read back
/// are the fields written.
pub proof fn lemma_header_roundtrip(h: Header, payload: Seq<u8>)
    ensures
        stated_header(h.spec_bytes() + payload) == h,
        h.admits(payload.len()) ==> header_fault(h.spec_bytes() + payload) is None,
{
    let buf = h.spec_bytes() + payload;
    lemma_header_len(h);
    crate::bytes::lemma_le_limits();
    crate::bytes::lemma_le_value_of_bytes(h.vocabulary_id as nat, 2);
    crate::bytes::lemma_le_value_of_bytes(h.n_tokens as nat, 4);
    assert(buf.subrange(4, 6) =~= crate::bytes::le_bytes(h.vocabulary_id as nat, 2));
    assert(buf.subrange(8, 12) =~= crate::bytes::le_bytes(h.n_tokens as nat, 4));
    assert(h.codec.spec_code() == buf[2]);
    lemma_spec_code_injective(h.codec, stated_header(buf).codec);
}

/// Two headers with the same bytes are the same header.
pub proof fn lemma_header_injective(a: Header, p: Seq<u8>, b: Header, q: Seq<u8>)
    requires
        a.spec_bytes() + p == b.spec_bytes() + q,
    ensures
        a == b,
        p == q,
{
    lemma_header_roundtrip(a, p);
    lemma_header_roundtrip(b, q);
    lemma_header_len(a);
    let both = a.spec_bytes() + p;
    assert(p =~= both.skip(HEADER_LEN as int));
    assert(q =~= both.skip(HEADER_LEN as int));
}

#[derive(Debug, Clone, PartialEq, Eq)]
pub enum HeaderError {
    TooShort(usize),
    BadMagic(u8),
    UnsupportedVersion(u8),
    UnknownCodec(u8),
    UnknownCodecName(String),
    ReservedNotZero,
    MissingTable(Codec),
    PayloadLen { want: usize, got: usize },
}

impl HeaderError {
    /// The text of the error.
    pub open spec fn text(self) -> Seq<char> {
        match self {
            HeaderError::TooShort(n) => "value is "@ + crate::text::decimal(n as nat)
                + " bytes, shorter than the 12-byte header"@,
            HeaderError::BadMagic(b) => "bad magic byte 0x"@ + crate::text::hex_byte(b, 'A')
                + ", expected 0xA7"@,
            HeaderError::UnsupportedVersion(v) => "unsupported format version "@
                + crate::text::decimal(v as nat) + ", this build understands 1"@,
            HeaderError::UnknownCodec(v) => "unknown codec id "@ + crate::text::decimal(v as nat),
            HeaderError::UnknownCodecName(s) => "unknown codec name "@ + crate::text::debug_text(
                s@,
            ),
            HeaderError::ReservedNotZero => "reserved header bytes are not zero"@,
            HeaderError::MissingTable(c) => "codec "@ + c.name()
                + " requires a table but vocabulary_id is 0"@,
            HeaderError::PayloadLen { want, got } => "payload is "@ + crate::text::decimal(
                got as nat,
            ) + " bytes, expected "@ + crate::text::decimal(want as nat),
        }
    }

    /// The text of the error.
    pub fn message(&self) -> (s: String)
        ensures
            s@ == self.text(),
    {
        match self {
            HeaderError::TooShort(n) => {
                let mut s = "value is ".to_owned();
                push_decimal(&mut s, *n as u128);
                s.append(" bytes, shorter than the 12-byte header");
                s
            },
            HeaderError::BadMagic(b) => {
                let mut s = "bad magic byte 0x".to_owned();
                push_hex_byte(&mut s, *b, true);
                s.append(", expected 0xA7");
                s
            },
            HeaderError::UnsupportedVersion(v) => {
                let mut s = "unsupported format version ".to_owned();
                push_decimal(&mut s, *v as u128);
                s.append(", this build understands 1");
                s
            },
            HeaderError::UnknownCodec(v) => {
                let mut s = "unknown codec id ".to_owned();
                push_decimal(&mut s, *v as u128);
                s
            },
            HeaderError::UnknownCodecName(name) => {
                let mut s = "unknown codec name ".to_owned();
                s.append(debug_quoted(name.as_str()).as_str());
                s
            },
            HeaderError::ReservedNotZero => "reserved header bytes are not zero".to_owned(),
            HeaderError::MissingTable(c) => {
                let mut s = "codec ".to_owned();
                s.append(c.as_str());
                s.append(" requires a table but vocabulary_id is 0");
                s
            },
            HeaderError::PayloadLen { want, got } => {
                let mut s = "payload is ".to_owned();
                push_decimal(&mut s, *got as u128);
                s.append(" bytes, expected ");
                push_decimal(&mut s, *want as u128);
                s
            },
        }
    }
}

/// The twelve bytes of a header: the magic byte, version 1, the codec, a zero, the vocabulary id
/// with its low byte first, two zeros, and the token count with its lowest byte first.
pub proof fn lemma_header_layout(h: Header)
    ensures
        h.spec_bytes() == seq![
            0xA7u8,
            1,
            h.codec.spec_code(),
            0,
            (h.vocabulary_id % 256) as u8,
            (h.vocabulary_id / 256) as u8,
            0,
            0,
            (h.n_tokens % 256) as u8,
            (h.n_tokens / 256 % 256) as u8,
            (h.n_tokens / 65_536 % 256) as u8,
            (h.n_tokens / 16_777_216) as u8,
        ],
{
    crate::bytes::lemma_le_bytes_spelled(h.n_tokens, h.vocabulary_id);
    assert(h.spec_bytes() =~= seq![
        0xA7u8,
        1,
        h.codec.spec_code(),
        0,
        (h.vocabulary_id % 256) as u8,
        (h.vocabulary_id / 256) as u8,
        0,
        0,
        (h.n_tokens % 256) as u8,
        (h.n_tokens / 256 % 256) as u8,
        (h.n_tokens / 65_536 % 256) as u8,
        (h.n_tokens / 16_777_216) as u8,
    ]);
}

/// Each codec has its own byte, and a raw codec holds exactly the ids that its width can spell.
pub proof fn lemma_codec_numbers(c: Codec)
    ensures
        c == Codec::Raw16 <==> c.spec_code() == 0,
        c == Codec::Raw24 <==> c.spec_code() == 1,
        c == Codec::Freq <==> c.spec_code() == 2,
        c == Codec::Raw8 <==> c.spec_code() == 4,
        c != Codec::Freq ==> c.spec_max_id() is Some && c.spec_max_id()->0 + 1
            == crate::bytes::le_limit(c.width()),
        c == Codec::Freq ==> c.spec_max_id() is None,
        c.width() == match c {
            Codec::Raw8 => 1nat,
            Codec::Raw16 => 2,
            Codec::Raw24 => 3,
            Codec::Freq => 0,
        },
{
    crate::bytes::lemma_le_limits();
}

/// A value's first bytes are refused for the first thing wrong with them, in the order in which
/// they stand, and accepted where nothing is: the right magic and version, a codec that there is,
/// zeros where they are reserved, a vocabulary where the codec needs a ranking, and for a raw codec
/// exactly as many bytes behind the header as its ids take.
pub proof fn lemma_header_checked(buf: Seq<u8>)
    requires
        buf.len() <= usize::MAX,
    ensures
        buf.len() < 12 ==> header_fault(buf) == Some(HeaderError::TooShort(buf.len() as usize)),
        buf.len() >= 12 ==> {
            let known = buf[2] == 0 || buf[2] == 1 || buf[2] == 2 || buf[2] == 4;
            let zeros = buf[3] == 0 && buf[6] == 0 && buf[7] == 0;
            let started = buf[0] == 0xA7 && buf[1] == 1 && known && zeros;
            let id = buf[4] + 256 * buf[5];
            let n = crate::bytes::number_at(buf, 8);
            let width: int = if buf[2] == 0 {
                2
            } else if buf[2] == 1 {
                3
            } else {
                1
            };
            &&& buf[0] != 0xA7 ==> header_fault(buf) == Some(HeaderError::BadMagic(buf[0]))
            &&& buf[0] == 0xA7 && buf[1] != 1 ==> header_fault(buf) == Some(
                HeaderError::UnsupportedVersion(buf[1]),
            )
            &&& buf[0] == 0xA7 && buf[1] == 1 && !known ==> header_fault(buf) == Some(
                HeaderError::UnknownCodec(buf[2]),
            )
            &&& buf[0] == 0xA7 && buf[1] == 1 && known && !zeros ==> header_fault(buf) == Some(
                HeaderError::ReservedNotZero,
            )
            &&& started ==> {
                &&& stated_header(buf).codec.spec_code() == buf[2]
                &&& stated_header(buf).vocabulary_id == id
                &&& stated_header(buf).n_tokens == n
            }
            &&& started && buf[2] == 2 && id == 0 ==> header_fault(buf) == Some(
                HeaderError::MissingTable(Codec::Freq),
            )
            &&& started && buf[2] == 2 && id != 0 && n > 0 && buf.len() == 12 ==> header_fault(buf)
                == Some(HeaderError::PayloadLen { want: 1, got: 0 })
            &&& started && buf[2] == 2 && id != 0 && (n == 0 || buf.len() > 12) ==> header_fault(
                buf,
            ) is None
            &&& started && buf[2] != 2 && buf.len() != 12 + n * width ==> header_fault(buf) is Some
            &&& started && buf[2] != 2 && buf.len() != 12 + n * width && n * width <= usize::MAX
                ==> header_fault(buf) == Some(
                HeaderError::PayloadLen {
                    want: (n * width) as usize,
                    got: (buf.len() - 12) as usize,
                },
            )
            &&& started && buf[2] != 2 && buf.len() == 12 + n * width ==> header_fault(buf) is None
        },
{
    if buf.len() >= 12 {
        crate::bytes::lemma_le_value_digits(buf, 8);
        crate::bytes::lemma_le_value_digits(buf, 4);
        let codec = if buf[2] == 0 {
            Codec::Raw16
        } else if buf[2] == 1 {
            Codec::Raw24
        } else if buf[2] == 2 {
            Codec::Freq
        } else {
            Codec::Raw8
        };
        if buf[2] == 0 || buf[2] == 1 || buf[2] == 2 || buf[2] == 4 {
            assert(codec.spec_code() == buf[2]);
            lemma_spec_code_injective(codec, stated_header(buf).codec);
            let n = crate::bytes::number_at(buf, 8);
            let h = stated_header(buf);
            assert(h.codec == codec && h.n_tokens == n);
            let w = h.codec.width();
            crate::bytes::lemma_cut_numbers(h.n_tokens as nat * w);
            assert(n * 1 == n && n * 2 == n + n && n * 3 == n + n + n);
            if codec != Codec::Freq {
                let width: int = if buf[2] == 0 {
                    2
                } else if buf[2] == 1 {
                    3
                } else {
                    1
                };
                assert(h.n_tokens as nat * w == n * width) by (nonlinear_arith)
                    requires
                        h.n_tokens == n,
                        w == width,
                ;
            }
        } else {
            assert forall|c: Codec| c.spec_code() != buf[2] by {}
        }
    }
}

/// A payload may follow a header exactly where a value made of the two is accepted.
pub proof fn lemma_admitted_is_accepted(h: Header, payload: Seq<u8>)
    ensures
        h.admits(payload.len()) <==> header_fault(h.spec_bytes() + payload) is None,
{
    lemma_header_roundtrip(h, payload);
    let buf = h.spec_bytes() + payload;
    lemma_header_len(h);
    if header_fault(buf) is None {
        lemma_sound_header(buf);
    }
}

/// Two errors of a kind read alike but for the details they give.
pub proof fn lemma_wording_of_header_error(a: HeaderError, b: HeaderError)
    ensures
        a is TooShort && b is TooShort ==> crate::text::same_wording(
            a.text(),
            crate::text::decimal(a->TooShort_0 as nat),
            b.text(),
            crate::text::decimal(b->TooShort_0 as nat),
        ),
        a is BadMagic && b is BadMagic ==> crate::text::same_wording(
            a.text(),
            crate::text::hex_byte(a->BadMagic_0, 'A'),
            b.text(),
            crate::text::hex_byte(b->BadMagic_0, 'A'),
        ),
        a is UnsupportedVersion && b is UnsupportedVersion ==> crate::text::same_wording(
            a.text(),
            crate::text::decimal(a->UnsupportedVersion_0 as nat),
            b.text(),
            crate::text::decimal(b->UnsupportedVersion_0 as nat),
        ),
        a is UnknownCodec && b is UnknownCodec ==> crate::text::same_wording(
            a.text(),
            crate::text::decimal(a->UnknownCodec_0 as nat),
            b.text(),
            crate::text::decimal(b->UnknownCodec_0 as nat),
        ),
        a is UnknownCodecName && b is UnknownCodecName ==> crate::text::same_wording(
            a.text(),
            crate::text::debug_text(a->UnknownCodecName_0@),
            b.text(),
            crate::text::debug_text(b->UnknownCodecName_0@),
        ),
        a is MissingTable && b is MissingTable ==> crate::text::same_wording(
            a.text(),
            a->MissingTable_0.name(),
            b.text(),
            b->MissingTable_0.name(),
        ),
        a is PayloadLen && b is PayloadLen ==> crate::text::same_wording_twice(
            a.text(),
            (
                crate::text::decimal(a->PayloadLen_got as nat),
                crate::text::decimal(a->PayloadLen_want as nat),
            ),
            b.text(),
            (
                crate::text::decimal(b->PayloadLen_got as nat),
                crate::text::decimal(b->PayloadLen_want as nat),
            ),
        ),
{
    if a is TooShort && b is TooShort {
        assert(crate::text::worded(
            a.text(),
            "value is "@,
            crate::text::decimal(a->TooShort_0 as nat),
            " bytes, shorter than the 12-byte header"@,
        ));
        assert(crate::text::worded(
            b.text(),
            "value is "@,
            crate::text::decimal(b->TooShort_0 as nat),
            " bytes, shorter than the 12-byte header"@,
        ));
    }
    if a is BadMagic && b is BadMagic {
        assert(crate::text::worded(
            a.text(),
            "bad magic byte 0x"@,
            crate::text::hex_byte(a->BadMagic_0, 'A'),
            ", expected 0xA7"@,
        ));
        assert(crate::text::worded(
            b.text(),
            "bad magic byte 0x"@,
            crate::text::hex_byte(b->BadMagic_0, 'A'),
            ", expected 0xA7"@,
        ));
    }
    if a is UnsupportedVersion && b is UnsupportedVersion {
        assert(crate::text::worded(
            a.text(),
            "unsupported format version "@,
            crate::text::decimal(a->UnsupportedVersion_0 as nat),
            ", this build understands 1"@,
        ));
        assert(crate::text::worded(
            b.text(),
            "unsupported format version "@,
            crate::text::decimal(b->UnsupportedVersion_0 as nat),
            ", this build understands 1"@,
        ));
    }
    if a is UnknownCodec && b is UnknownCodec {
        assert(crate::text::worded(
            a.text(),
            "unknown codec id "@,
            crate::text::decimal(a->UnknownCodec_0 as nat),
            Seq::<char>::empty(),
        ));
        assert(crate::text::worded(
            b.text(),
            "unknown codec id "@,
            crate::text::decimal(b->UnknownCodec_0 as nat),
            Seq::<char>::empty(),
        ));
    }
    if a is UnknownCodecName && b is UnknownCodecName {
        assert(crate::text::worded(
            a.text(),
            "unknown codec name "@,
            crate::text::debug_text(a->UnknownCodecName_0@),
            Seq::<char>::empty(),
        ));
        assert(crate::text::worded(
            b.text(),
            "unknown codec name "@,
            crate::text::debug_text(b->UnknownCodecName_0@),
            Seq::<char>::empty(),
        ));
    }
    if a is MissingTable && b is MissingTable {
        assert(crate::text::worded(
            a.text(),
            "codec "@,
            a->MissingTable_0.name(),
            " requires a table but vocabulary_id is 0"@,
        ));
        assert(crate::text::worded(
            b.text(),
            "codec "@,
            b->MissingTable_0.name(),
            " requires a table but vocabulary_id is 0"@,
        ));
    }
    if a is PayloadLen && b is PayloadLen {
        assert(crate::text::worded_twice(
            a.text(),
            "payload is "@,
            (
                crate::text::decimal(a->PayloadLen_got as nat),
                crate::text::decimal(a->PayloadLen_want as nat),
            ),
            " bytes, expected "@,
            Seq::<char>::empty(),
        ));
        assert(crate::text::worded_twice(
            b.text(),
            "payload is "@,
            (
                crate::text::decimal(b->PayloadLen_got as nat),
                crate::text::decimal(b->PayloadLen_want as nat),
            ),
            " bytes, expected "@,
            Seq::<char>::empty(),
        ));
    }
}

} // verus!
