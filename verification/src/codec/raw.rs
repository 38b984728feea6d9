//! Raw token-id packing: no table, no model.
//!
//! `raw24` is **big-endian**, `raw16` **little-endian**. Both orders are fixed by the format.

use vstd::prelude::*;

use crate::header::{Codec, HeaderError};
use crate::text::push_decimal;

verus! {

#[derive(Debug, Clone, PartialEq, Eq)]
pub enum RawError {
    /// A token id does not fit the packing width.
    IdTooWide { id: u32, codec: Codec },
}

impl RawError {
    /// The text of the error.
    pub open spec fn text(self) -> Seq<char> {
        match self {
            RawError::IdTooWide { id, codec } => "token id "@ + crate::text::decimal(id as nat)
                + " does not fit codec "@ + codec.name() + " (max "@ + crate::text::decimal(
                match codec.spec_max_id() {
                    Some(m) => m as nat,
                    None => u32::MAX as nat,
                },
            ) + ")"@,
        }
    }

    /// The text of the error.
    pub fn message(&self) -> (s: String)
        ensures
            s@ == self.text(),
    {
        match self {
            RawError::IdTooWide { id, codec } => {
                let mut s = "token id ".to_owned();
                push_decimal(&mut s, *id as u128);
                s.append(" does not fit codec ");
                s.append(codec.as_str());
                s.append(" (max ");
                push_decimal(&mut s, codec.max_id().unwrap_or(u32::MAX) as u128);
                s.append(")");
                s
            },
        }
    }
}

/// One id as `codec` packs it.
pub open spec fn id_bytes(codec: Codec, id: u32) -> Seq<u8> {
    match codec {
        Codec::Raw8 => seq![id as u8],
        Codec::Raw16 => seq![(id % 256) as u8, (id / 256) as u8],
        Codec::Raw24 => seq![(id / 65536) as u8, (id / 256 % 256) as u8, (id % 256) as u8],
        Codec::Freq => seq![],
    }
}

/// The id that `codec` packed into `b`.
pub open spec fn id_value(codec: Codec, b: Seq<u8>) -> u32 {
    match codec {
        Codec::Raw8 => b[0] as u32,
        Codec::Raw16 => (b[0] + 256 * b[1]) as u32,
        Codec::Raw24 => (65536 * b[0] + 256 * b[1] + b[2]) as u32,
        Codec::Freq => 0,
    }
}

/// A sequence of ids as `codec` packs it.
pub open spec fn packed(codec: Codec, ids: Seq<u32>) -> Seq<u8>
    decreases ids.len(),
{
    if ids.len() == 0 {
        seq![]
    } else {
        packed(codec, ids.drop_last()) + id_bytes(codec, ids.last())
    }
}

/// The bytes that hold id number `i`.
pub open spec fn slot(codec: Codec, payload: Seq<u8>, i: int) -> Seq<u8> {
    payload.subrange(i * codec.width(), (i + 1) * codec.width())
}

/// The `n` ids that `codec` packed into `payload`.
pub open spec fn unpacked(codec: Codec, payload: Seq<u8>, n: nat) -> Seq<u32> {
    Seq::new(n, |i: int| id_value(codec, slot(codec, payload, i)))
}

/// Whether `codec` has room for `id`.
pub open spec fn fits(codec: Codec, id: u32) -> bool {
    codec.spec_max_id() matches Some(m) ==> id <= m
}

/// What packing `ids` after `before` may leave: every id if all fit, else the ids ahead of the
/// first that does not, and that one as the error.
pub open spec fn packs(
    codec: Codec,
    ids: Seq<u32>,
    before: Seq<u8>,
    after: Seq<u8>,
    r: Result<(), RawError>,
) -> bool {
    match r {
        Ok(_) => {
            &&& forall|i: int| 0 <= i < ids.len() ==> fits(codec, #[trigger] ids[i])
            &&& after == before + packed(codec, ids)
        },
        Err(e) => exists|i: int|
            {
                &&& 0 <= i < ids.len()
                &&& !fits(codec, #[trigger] ids[i])
                &&& forall|j: int| 0 <= j < i ==> fits(codec, #[trigger] ids[j])
                &&& e == RawError::IdTooWide { id: ids[i], codec }
                &&& after == before + packed(codec, ids.take(i))
            },
    }
}

proof fn lemma_packed_step(codec: Codec, ids: Seq<u32>, i: int)
    requires
        0 <= i < ids.len(),
    ensures
        packed(codec, ids.take(i + 1)) == packed(codec, ids.take(i)) + id_bytes(codec, ids[i]),
{
    assert(ids.take(i + 1).drop_last() =~= ids.take(i));
}

pub proof fn lemma_packed_len(codec: Codec, ids: Seq<u32>)
    ensures
        packed(codec, ids).len() == ids.len() * codec.width(),
    decreases ids.len(),
{
    if ids.len() > 0 {
        lemma_packed_len(codec, ids.drop_last());
        assert((ids.len() - 1) * codec.width() + codec.width() == ids.len() * codec.width())
            by (nonlinear_arith)
            requires
                ids.len() > 0,
        ;
    }
}

proof fn lemma_slot_bounds(codec: Codec, n: int, i: int)
    requires
        0 <= i < n,
    ensures
        0 <= i * codec.width() <= (i + 1) * codec.width() <= n * codec.width(),
        (i + 1) * codec.width() == i * codec.width() + codec.width(),
{
    let w = codec.width();
    assert(0 <= i * w && (i + 1) * w == i * w + w && (i + 1) * w <= n * w) by (nonlinear_arith)
        requires
            0 <= i < n,
            w >= 0,
    ;
}

/// Each id's slot in a packed sequence holds that id's bytes.
pub proof fn lemma_packed_slot(codec: Codec, ids: Seq<u32>, i: int)
    requires
        0 <= i < ids.len(),
    ensures
        slot(codec, packed(codec, ids), i) == id_bytes(codec, ids[i]),
    decreases ids.len(),
{
    let front = ids.drop_last();
    lemma_packed_len(codec, front);
    lemma_packed_len(codec, ids);
    lemma_slot_bounds(codec, ids.len() as int, i);
    if i < front.len() {
        lemma_packed_slot(codec, front, i);
        lemma_slot_bounds(codec, front.len() as int, i);
        assert(slot(codec, packed(codec, ids), i) =~= slot(codec, packed(codec, front), i));
    } else {
        assert(slot(codec, packed(codec, ids), i) =~= id_bytes(codec, ids[i]));
    }
}

/// Unpacking gives back what was packed: the raw codecs lose nothing of the ids they have room
/// for.
pub proof fn lemma_raw_roundtrip(codec: Codec, ids: Seq<u32>)
    requires
        codec != Codec::Freq,
        forall|i: int| 0 <= i < ids.len() ==> fits(codec, #[trigger] ids[i]),
    ensures
        packed(codec, ids).len() == ids.len() * codec.width(),
        unpacked(codec, packed(codec, ids), ids.len()) == ids,
{
    lemma_packed_len(codec, ids);
    assert forall|i: int| 0 <= i < ids.len() implies #[trigger] unpacked(
        codec,
        packed(codec, ids),
        ids.len(),
    )[i] == ids[i] by {
        lemma_packed_slot(codec, ids, i);
        assert(fits(codec, ids[i]));
        let b = id_bytes(codec, ids[i]);
        let id = ids[i];
        assert(65536 * (id / 65536) + 256 * (id / 256 % 256) + id % 256 == id);
        assert(id_value(codec, b) == id);
    }
    assert(unpacked(codec, packed(codec, ids), ids.len()) =~= ids);
}

/// The bytes of an id that was read are the bytes it was read from.
proof fn lemma_id_rebuilt(codec: Codec, b: Seq<u8>)
    requires
        codec != Codec::Freq,
        b.len() == codec.width(),
    ensures
        id_bytes(codec, id_value(codec, b)) == b,
{
    match codec {
        Codec::Raw8 => {},
        Codec::Raw16 => {
            let id = id_value(codec, b);
            assert(id % 256 == b[0] && id / 256 == b[1]);
        },
        _ => {
            let id = id_value(codec, b);
            assert(id / 65536 == b[0] && id / 256 % 256 == b[1] && id % 256 == b[2]);
        },
    }
    assert(id_bytes(codec, id_value(codec, b)) =~= b);
}

/// Packing gives back what was unpacked: no two payloads of a raw codec hold the same ids.
pub proof fn lemma_raw_canonical(codec: Codec, payload: Seq<u8>, n: nat)
    requires
        codec != Codec::Freq,
        payload.len() == n * codec.width(),
    ensures
        packed(codec, unpacked(codec, payload, n)) == payload,
    decreases n,
{
    let ids = unpacked(codec, payload, n);
    let w = codec.width() as int;
    if n == 0 {
        assert(payload =~= seq![]);
    } else {
        let m = (n - 1) as nat;
        lemma_slot_bounds(codec, n as int, m as int);
        let front = payload.take(m * w);
        lemma_raw_canonical(codec, front, m);
        assert(ids.drop_last() =~= unpacked(codec, front, m)) by {
            assert forall|i: int| 0 <= i < m implies ids[i] == #[trigger] unpacked(
                codec,
                front,
                m,
            )[i] by {
                lemma_slot_bounds(codec, m as int, i);
                assert(slot(codec, payload, i) =~= slot(codec, front, i));
            }
        }
        let b = slot(codec, payload, m as int);
        assert(b.len() == w);
        lemma_id_rebuilt(codec, b);
        assert(payload =~= front + b);
        assert(ids.last() == id_value(codec, b));
    }
}

/// The narrowest raw codec that can hold every id in `ids`, among the two chosen from data.
///
/// Chosen from the data rather than from a declared vocabulary, so nothing needs to know how
/// large the tokenizer is. One byte per id is only ever picked by a declared vocabulary size.
pub fn preferred_raw(ids: &[u32]) -> (c: Codec)
    ensures
        c == preferred(ids@),
{
    let mut i: usize = 0;
    while i < ids.len()
        invariant
            i <= ids@.len(),
            forall|j: int| 0 <= j < i ==> #[trigger] ids@[j] <= 0xFFFF,
        decreases ids@.len() - i,
    {
        if ids[i] > 0xFFFF {
            assert(ids@[i as int] > 0xFFFF);
            return Codec::Raw24;
        }
        i += 1;
    }
    Codec::Raw16
}

/// `raw24` exactly where some id needs it.
pub open spec fn preferred(ids: Seq<u32>) -> Codec {
    if exists|i: int| 0 <= i < ids.len() && #[trigger] ids[i] > 0xFFFF {
        Codec::Raw24
    } else {
        Codec::Raw16
    }
}

/// 1 byte per id.
pub fn encode8(ids: &[u32], out: &mut Vec<u8>) -> (r: Result<(), RawError>)
    ensures
        packs(Codec::Raw8, ids@, old(out)@, final(out)@, r),
{
    let mut i: usize = 0;
    assert(out@ =~= old(out)@ + packed(Codec::Raw8, ids@.take(0)));
    while i < ids.len()
        invariant
            i <= ids@.len(),
            forall|j: int| 0 <= j < i ==> fits(Codec::Raw8, #[trigger] ids@[j]),
            out@ == old(out)@ + packed(Codec::Raw8, ids@.take(i as int)),
        decreases ids@.len() - i,
    {
        let id = ids[i];
        if id > 0xFF {
            assert(!fits(Codec::Raw8, ids@[i as int]));
            return Err(RawError::IdTooWide { id, codec: Codec::Raw8 });
        }
        out.push(id as u8);
        proof {
            lemma_packed_step(Codec::Raw8, ids@, i as int);
            assert(out@ =~= old(out)@ + packed(Codec::Raw8, ids@.take(i + 1)));
        }
        i += 1;
    }
    assert(ids@.take(i as int) =~= ids@);
    Ok(())
}

/// 2 bytes per id, little-endian.
pub fn encode16(ids: &[u32], out: &mut Vec<u8>) -> (r: Result<(), RawError>)
    ensures
        packs(Codec::Raw16, ids@, old(out)@, final(out)@, r),
{
    let mut i: usize = 0;
    assert(out@ =~= old(out)@ + packed(Codec::Raw16, ids@.take(0)));
    while i < ids.len()
        invariant
            i <= ids@.len(),
            forall|j: int| 0 <= j < i ==> fits(Codec::Raw16, #[trigger] ids@[j]),
            out@ == old(out)@ + packed(Codec::Raw16, ids@.take(i as int)),
        decreases ids@.len() - i,
    {
        let id = ids[i];
        if id > 0xFFFF {
            assert(!fits(Codec::Raw16, ids@[i as int]));
            return Err(RawError::IdTooWide { id, codec: Codec::Raw16 });
        }
        out.push((id % 256) as u8);
        out.push((id / 256) as u8);
        proof {
            lemma_packed_step(Codec::Raw16, ids@, i as int);
            assert(out@ =~= old(out)@ + packed(Codec::Raw16, ids@.take(i + 1)));
        }
        i += 1;
    }
    assert(ids@.take(i as int) =~= ids@);
    Ok(())
}

/// 3 bytes per id, big-endian.
pub fn encode24(ids: &[u32], out: &mut Vec<u8>) -> (r: Result<(), RawError>)
    ensures
        packs(Codec::Raw24, ids@, old(out)@, final(out)@, r),
{
    let mut i: usize = 0;
    assert(out@ =~= old(out)@ + packed(Codec::Raw24, ids@.take(0)));
    while i < ids.len()
        invariant
            i <= ids@.len(),
            forall|j: int| 0 <= j < i ==> fits(Codec::Raw24, #[trigger] ids@[j]),
            out@ == old(out)@ + packed(Codec::Raw24, ids@.take(i as int)),
        decreases ids@.len() - i,
    {
        let id = ids[i];
        if id > 0x00FF_FFFF {
            assert(!fits(Codec::Raw24, ids@[i as int]));
            return Err(RawError::IdTooWide { id, codec: Codec::Raw24 });
        }
        out.push((id / 65536) as u8);
        out.push((id / 256 % 256) as u8);
        out.push((id % 256) as u8);
        proof {
            lemma_packed_step(Codec::Raw24, ids@, i as int);
            assert(out@ =~= old(out)@ + packed(Codec::Raw24, ids@.take(i + 1)));
        }
        i += 1;
    }
    assert(ids@.take(i as int) =~= ids@);
    Ok(())
}

/// What unpacking `n` ids from `payload` gives: the ids if the length is exactly theirs, else
/// the length that was wanted.
pub open spec fn unpacks(
    codec: Codec,
    payload: Seq<u8>,
    n: usize,
    r: Result<Vec<u32>, HeaderError>,
) -> bool {
    match r {
        Ok(ids) => payload.len() == n * codec.width() && ids@ == unpacked(
            codec,
            payload,
            n as nat,
        ),
        Err(e) => payload.len() != n * codec.width() && e == (HeaderError::PayloadLen {
            want: (n * codec.width()) as usize,
            got: payload.len() as usize,
        }),
    }
}

/// Decode a `raw8` payload.
pub fn decode8(payload: &[u8], n: usize) -> (r: Result<Vec<u32>, HeaderError>)
    ensures
        unpacks(Codec::Raw8, payload@, n, r),
{
    if payload.len() != n {
        return Err(HeaderError::PayloadLen { want: n, got: payload.len() });
    }
    let mut ids: Vec<u32> = Vec::with_capacity(n);
    let mut i: usize = 0;
    while i < n
        invariant
            i <= n,
            n == payload@.len(),
            ids@ == unpacked(Codec::Raw8, payload@, i as nat),
        decreases n - i,
    {
        assert(slot(Codec::Raw8, payload@, i as int) =~= seq![payload@[i as int]]);
        ids.push(payload[i] as u32);
        i += 1;
        assert(ids@ =~= unpacked(Codec::Raw8, payload@, i as nat));
    }
    Ok(ids)
}

/// Decode a `raw16` payload.
pub fn decode16(payload: &[u8], n: usize) -> (r: Result<Vec<u32>, HeaderError>)
    requires
        n * 2 <= usize::MAX,
    ensures
        unpacks(Codec::Raw16, payload@, n, r),
{
    if payload.len() != n * 2 {
        return Err(HeaderError::PayloadLen { want: n * 2, got: payload.len() });
    }
    let mut ids: Vec<u32> = Vec::with_capacity(n);
    let mut i: usize = 0;
    while i < n
        invariant
            i <= n,
            n * 2 == payload@.len(),
            n * 2 <= usize::MAX,
            ids@ == unpacked(Codec::Raw16, payload@, i as nat),
        decreases n - i,
    {
        proof {
            lemma_slot_bounds(Codec::Raw16, n as int, i as int);
            assert(Codec::Raw16.width() == 2);
            assert(i * Codec::Raw16.width() == i * 2) by (nonlinear_arith)
                requires
                    Codec::Raw16.width() == 2,
            ;
        }
        assert(slot(Codec::Raw16, payload@, i as int) =~= seq![
            payload@[i * 2],
            payload@[i * 2 + 1],
        ]);
        ids.push(payload[i * 2] as u32 + 256 * (payload[i * 2 + 1] as u32));
        i += 1;
        assert(ids@ =~= unpacked(Codec::Raw16, payload@, i as nat));
    }
    Ok(ids)
}

/// Decode a `raw24` payload.
pub fn decode24(payload: &[u8], n: usize) -> (r: Result<Vec<u32>, HeaderError>)
    requires
        n * 3 <= usize::MAX,
    ensures
        unpacks(Codec::Raw24, payload@, n, r),
{
    if payload.len() != n * 3 {
        return Err(HeaderError::PayloadLen { want: n * 3, got: payload.len() });
    }
    let mut ids: Vec<u32> = Vec::with_capacity(n);
    let mut i: usize = 0;
    while i < n
        invariant
            i <= n,
            n * 3 == payload@.len(),
            n * 3 <= usize::MAX,
            ids@ == unpacked(Codec::Raw24, payload@, i as nat),
        decreases n - i,
    {
        proof {
            lemma_slot_bounds(Codec::Raw24, n as int, i as int);
            assert(Codec::Raw24.width() == 3);
            assert(i * Codec::Raw24.width() == i * 3) by (nonlinear_arith)
                requires
                    Codec::Raw24.width() == 3,
            ;
        }
        assert(slot(Codec::Raw24, payload@, i as int) =~= seq![
            payload@[i * 3],
            payload@[i * 3 + 1],
            payload@[i * 3 + 2],
        ]);
        ids.push(
            65536 * (payload[i * 3] as u32) + 256 * (payload[i * 3 + 1] as u32) + payload[i * 3
                + 2] as u32,
        );
        i += 1;
        assert(ids@ =~= unpacked(Codec::Raw24, payload@, i as nat));
    }
    Ok(ids)
}

/// A raw codec has room for the ids that its width can spell, and `freq` for any.
pub proof fn lemma_fits_means_spelled(codec: Codec, id: u32)
    ensures
        codec == Codec::Raw8 ==> (fits(codec, id) <==> id < 256),
        codec == Codec::Raw16 ==> (fits(codec, id) <==> id < 65_536),
        codec == Codec::Raw24 ==> (fits(codec, id) <==> id < 16_777_216),
        codec == Codec::Freq ==> fits(codec, id),
{
}

/// Where each id stands and in which order of bytes: one byte, two with the low one first, or three
/// with the high one first.
pub proof fn lemma_packed_layout(ids: Seq<u32>, i: int)
    requires
        0 <= i < ids.len(),
    ensures
        packed(Codec::Raw8, ids).len() == ids.len(),
        packed(Codec::Raw16, ids).len() == 2 * ids.len(),
        packed(Codec::Raw24, ids).len() == 3 * ids.len(),
        packed(Codec::Freq, ids).len() == 0,
        ids[i] < 256 ==> packed(Codec::Raw8, ids)[i] == ids[i],
        ids[i] < 65_536 ==> packed(Codec::Raw16, ids)[2 * i] + 256 * packed(Codec::Raw16, ids)[2 * i
            + 1] == ids[i],
        ids[i] < 16_777_216 ==> 65_536 * packed(Codec::Raw24, ids)[3 * i] + 256 * packed(
            Codec::Raw24,
            ids,
        )[3 * i + 1] + packed(Codec::Raw24, ids)[3 * i + 2] == ids[i],
{
    lemma_packed_len(Codec::Raw8, ids);
    lemma_packed_len(Codec::Raw16, ids);
    lemma_packed_len(Codec::Raw24, ids);
    lemma_packed_len(Codec::Freq, ids);
    lemma_packed_slot(Codec::Raw8, ids, i);
    lemma_packed_slot(Codec::Raw16, ids, i);
    lemma_packed_slot(Codec::Raw24, ids, i);
    lemma_widths(ids.len() as int, i);
    let id = ids[i];
    let a = packed(Codec::Raw8, ids);
    let b = packed(Codec::Raw16, ids);
    let c = packed(Codec::Raw24, ids);
    let sa = slot(Codec::Raw8, a, i);
    let sb = slot(Codec::Raw16, b, i);
    let sc = slot(Codec::Raw24, c, i);
    assert(sa[0] == a[i]);
    assert(sb[0] == b[2 * i] && sb[1] == b[2 * i + 1]);
    assert(sc[0] == c[3 * i] && sc[1] == c[3 * i + 1] && sc[2] == c[3 * i + 2]);
    assert(65_536 * (id / 65_536) + 256 * (id / 256 % 256) + id % 256 == id);
}

proof fn lemma_widths(n: int, i: int)
    ensures
        n * Codec::Raw8.width() == n,
        n * Codec::Raw16.width() == 2 * n,
        n * Codec::Raw24.width() == 3 * n,
        n * Codec::Freq.width() == 0,
        i * Codec::Raw8.width() == i,
        i * Codec::Raw16.width() == 2 * i,
        i * Codec::Raw24.width() == 3 * i,
        (i + 1) * Codec::Raw8.width() == i + 1,
        (i + 1) * Codec::Raw16.width() == 2 * i + 2,
        (i + 1) * Codec::Raw24.width() == 3 * i + 3,
{
    let a = Codec::Raw8.width();
    let b = Codec::Raw16.width();
    let c = Codec::Raw24.width();
    let d = Codec::Freq.width();
    assert(a == 1 && b == 2 && c == 3 && d == 0);
    assert(n * a == n && n * b == 2 * n && n * c == 3 * n && n * d == 0 && i * a == i && i * b == 2
        * i && i * c == 3 * i && (i + 1) * a == i + 1 && (i + 1) * b == 2 * i + 2 && (i + 1) * c == 3
        * i + 3) by (nonlinear_arith)
        requires
            a == 1,
            b == 2,
            c == 3,
            d == 0,
    ;
}

/// Where each id is read from, whatever the bytes are.
pub proof fn lemma_unpacked_layout(payload: Seq<u8>, n: nat, i: int)
    requires
        0 <= i < n,
    ensures
        unpacked(Codec::Raw8, payload, n).len() == n,
        unpacked(Codec::Raw16, payload, n).len() == n,
        unpacked(Codec::Raw24, payload, n).len() == n,
        n <= payload.len() ==> unpacked(Codec::Raw8, payload, n)[i] == payload[i],
        2 * n <= payload.len() ==> unpacked(Codec::Raw16, payload, n)[i] == payload[2 * i] + 256
            * payload[2 * i + 1],
        3 * n <= payload.len() ==> unpacked(Codec::Raw24, payload, n)[i] == 65_536 * payload[3 * i]
            + 256 * payload[3 * i + 1] + payload[3 * i + 2],
{
    lemma_widths(n as int, i);
    if n <= payload.len() {
        assert(slot(Codec::Raw8, payload, i)[0] == payload[i]);
    }
    if 2 * n <= payload.len() {
        let s = slot(Codec::Raw16, payload, i);
        assert(s[0] == payload[2 * i] && s[1] == payload[2 * i + 1]);
    }
    if 3 * n <= payload.len() {
        let s = slot(Codec::Raw24, payload, i);
        assert(s[0] == payload[3 * i] && s[1] == payload[3 * i + 1] && s[2] == payload[3 * i + 2]);
    }
}

/// Packing succeeds exactly where every id can be spelled in the codec's width, appends the ids
/// then, and otherwise appends those ahead of the first that cannot and names that one.
pub proof fn lemma_packing_outcome(
    codec: Codec,
    ids: Seq<u32>,
    before: Seq<u8>,
    after: Seq<u8>,
    r: Result<(), RawError>,
)
    requires
        codec != Codec::Freq,
        packs(codec, ids, before, after, r),
    ensures
        r is Ok <==> forall|i: int|
            0 <= i < ids.len() ==> (#[trigger] ids[i]) < crate::bytes::le_limit(codec.width()),
        r is Ok ==> after == before + packed(codec, ids),
        r is Err ==> exists|i: int|
            {
                &&& 0 <= i < ids.len()
                &&& (#[trigger] ids[i]) >= crate::bytes::le_limit(codec.width())
                &&& forall|j: int|
                    0 <= j < i ==> (#[trigger] ids[j]) < crate::bytes::le_limit(codec.width())
                &&& r->Err_0 == RawError::IdTooWide { id: ids[i], codec }
                &&& after == before + packed(codec, ids.take(i))
            },
{
    crate::bytes::lemma_le_limits();
    assert forall|id: u32| #[trigger] fits(codec, id) <==> id < crate::bytes::le_limit(
        codec.width(),
    ) by {
        lemma_fits_means_spelled(codec, id);
    }
    if r is Ok {
        assert forall|i: int| 0 <= i < ids.len() implies (#[trigger] ids[i])
            < crate::bytes::le_limit(codec.width()) by {
            assert(fits(codec, ids[i]));
        }
    } else {
        let i = choose|i: int|
            {
                &&& 0 <= i < ids.len()
                &&& !fits(codec, #[trigger] ids[i])
                &&& forall|j: int| 0 <= j < i ==> fits(codec, #[trigger] ids[j])
                &&& r->Err_0 == RawError::IdTooWide { id: ids[i], codec }
                &&& after == before + packed(codec, ids.take(i))
            };
        assert(ids[i] >= crate::bytes::le_limit(codec.width()));
        assert forall|j: int| 0 <= j < i implies (#[trigger] ids[j]) < crate::bytes::le_limit(
            codec.width(),
        ) by {
            assert(fits(codec, ids[j]));
        }
    }
}

/// Unpacking succeeds exactly where the payload is as long as its ids take, and gives the ids then.
pub proof fn lemma_unpacking_outcome(
    codec: Codec,
    payload: Seq<u8>,
    n: usize,
    r: Result<Vec<u32>, HeaderError>,
)
    requires
        unpacks(codec, payload, n, r),
        payload.len() <= usize::MAX,
        n * codec.width() <= usize::MAX,
    ensures
        r is Ok <==> payload.len() == n * codec.width(),
        r is Ok ==> r->Ok_0@ == unpacked(codec, payload, n as nat),
        r is Err ==> r->Err_0 == (HeaderError::PayloadLen {
            want: (n * codec.width()) as usize,
            got: payload.len() as usize,
        }),
{
}

/// The codec chosen from data is the narrower of the two that holds it: two bytes wherever every id
/// fits them, three otherwise.
pub proof fn lemma_preferred_is_narrowest(ids: Seq<u32>)
    ensures
        preferred(ids) == Codec::Raw16 <==> forall|i: int|
            0 <= i < ids.len() ==> (#[trigger] ids[i]) < 65_536,
        preferred(ids) == Codec::Raw16 || preferred(ids) == Codec::Raw24,
{
}

/// Two errors of a kind read alike but for the details they give.
pub proof fn lemma_wording_of_raw_error(a: RawError, b: RawError)
    ensures
        a is IdTooWide && b is IdTooWide ==> crate::text::same_wording_thrice(
            a.text(),
            (
                crate::text::decimal(a->IdTooWide_id as nat),
                a->IdTooWide_codec.name(),
                crate::text::decimal(
                    match a->IdTooWide_codec.spec_max_id() {
                        Some(m) => m as nat,
                        None => u32::MAX as nat,
                    },
                ),
            ),
            b.text(),
            (
                crate::text::decimal(b->IdTooWide_id as nat),
                b->IdTooWide_codec.name(),
                crate::text::decimal(
                    match b->IdTooWide_codec.spec_max_id() {
                        Some(m) => m as nat,
                        None => u32::MAX as nat,
                    },
                ),
            ),
        ),
{
    if a is IdTooWide && b is IdTooWide {
        assert(crate::text::worded_thrice(
            a.text(),
            "token id "@,
            (
                crate::text::decimal(a->IdTooWide_id as nat),
                a->IdTooWide_codec.name(),
                crate::text::decimal(
                    match a->IdTooWide_codec.spec_max_id() {
                        Some(m) => m as nat,
                        None => u32::MAX as nat,
                    },
                ),
            ),
            " does not fit codec "@,
            " (max "@,
            ")"@,
        ));
        assert(crate::text::worded_thrice(
            b.text(),
            "token id "@,
            (
                crate::text::decimal(b->IdTooWide_id as nat),
                b->IdTooWide_codec.name(),
                crate::text::decimal(
                    match b->IdTooWide_codec.spec_max_id() {
                        Some(m) => m as nat,
                        None => u32::MAX as nat,
                    },
                ),
            ),
            " does not fit codec "@,
            " (max "@,
            ")"@,
        ));
    }
}

} // verus!
