//! Packing a resolved vocabulary into a type modifier.
//!
//! A typmod is one `int32`. Everything the write path needs lives in it, so writing a row never
//! resolves a vocabulary name again: that happens once, when a column is declared.
//!
//! ```text
//! bits    field
//!  0-15   vocabulary id (1..65535; 0 only in the unset case)
//! 16-19   compression   0 = raw, 1 = freq
//! 20-22   width         1..4 bytes per token
//! ```

use vstd::prelude::*;

use crate::header::Codec;
use crate::text::{debug_quoted, push_decimal};
use crate::utf8::from_utf8;
use crate::vocabulary::{Vocabulary, COMPRESSION_FREQ};

verus! {

/// Why a type modifier cannot be made.
#[derive(Debug, Clone, PartialEq, Eq)]
pub enum TypmodError {
    NotOneArgument,
    NotUtf8,
    UnknownVocabulary(String),
}

impl TypmodError {
    /// The text of the error.
    pub open spec fn text(self) -> Seq<char> {
        match self {
            TypmodError::NotOneArgument =>
                "pgtoken.tokens takes exactly one type modifier: a vocabulary name"@,
            TypmodError::NotUtf8 => "vocabulary name is not valid UTF-8"@,
            TypmodError::UnknownVocabulary(n) => "vocabulary "@ + crate::text::debug_text(n@)
                + " does not exist"@,
        }
    }

    /// The text of the error.
    pub fn message(&self) -> (s: String)
        ensures
            s@ == self.text(),
    {
        match self {
            TypmodError::NotOneArgument => {
                "pgtoken.tokens takes exactly one type modifier: a vocabulary name".to_owned()
            },
            TypmodError::NotUtf8 => "vocabulary name is not valid UTF-8".to_owned(),
            TypmodError::UnknownVocabulary(n) => {
                let mut s = "vocabulary ".to_owned();
                s.append(debug_quoted(n.as_str()).as_str());
                s.append(" does not exist");
                s
            },
        }
    }
}

/// A vocabulary's fields, each shifted to its place.
pub open spec fn typmod_bits(v: Vocabulary) -> u32 {
    (v.id as u32) | ((v.compression as u32) << 16) | ((v.width as u32) << 20)
}

/// The vocabulary in a typmod; none in a negative one.
pub open spec fn vocabulary_in(typmod: i32) -> Option<Vocabulary> {
    if typmod < 0 {
        None
    } else {
        Some(
            Vocabulary {
                id: (typmod % 0x1_0000) as u16,
                compression: (typmod / 0x1_0000 % 0x10) as u8,
                width: (typmod / 0x10_0000 % 0x8) as u8,
            },
        )
    }
}

proof fn lemma_bits_bound(v: Vocabulary)
    ensures
        typmod_bits(v) < 0x1000_0000,
{
    let id = v.id as u32;
    let c = v.compression as u32;
    let w = v.width as u32;
    assert((id | (c << 16) | (w << 20)) < 0x1000_0000) by (bit_vector)
        requires
            id < 0x1_0000,
            c < 0x100,
            w < 0x100,
    ;
}

/// A vocabulary survives being packed into a typmod, as long as its compression and width fit
/// their fields.
pub proof fn lemma_typmod_roundtrip(v: Vocabulary)
    requires
        v.compression < 0x10,
        v.width < 0x8,
    ensures
        typmod_bits(v) == v.id + 0x1_0000 * v.compression + 0x10_0000 * v.width,
        vocabulary_in(typmod_bits(v) as i32) == Some(v),
{
    let id = v.id as u32;
    let c = v.compression as u32;
    let w = v.width as u32;
    assert((id | (c << 16) | (w << 20)) == id + 0x1_0000 * c + 0x10_0000 * w) by (bit_vector)
        requires
            id < 0x1_0000,
            c < 0x10,
            w < 0x8,
    ;
}

/// Pack a vocabulary into a typmod. It is never negative, so it cannot be taken for "no typmod".
pub fn pack(v: Vocabulary) -> (typmod: i32)
    ensures
        typmod == typmod_bits(v),
        typmod >= 0,
        v.compression < 0x10 && v.width < 0x8 ==> vocabulary_in(typmod) == Some(v),
{
    proof {
        lemma_bits_bound(v);
        if v.compression < 0x10 && v.width < 0x8 {
            lemma_typmod_roundtrip(v);
        }
    }
    ((v.id as u32) | ((v.compression as u32) << 16) | ((v.width as u32) << 20)) as i32
}

/// The vocabulary in a typmod: `None` for PostgreSQL's "no typmod" (`-1`) and anything else
/// negative. A value with no vocabulary has no width, so callers must treat `None` as an error
/// rather than a default.
pub fn unpack(typmod: i32) -> (r: Option<Vocabulary>)
    ensures
        r == vocabulary_in(typmod),
{
    if typmod < 0 {
        return None;
    }
    let bits: u32 = typmod as u32;
    Some(
        Vocabulary {
            id: (bits % 0x1_0000) as u16,
            compression: (bits / 0x1_0000 % 0x10) as u8,
            width: (bits / 0x10_0000 % 0x8) as u8,
        },
    )
}

/// The codec a vocabulary's compression and width select.
pub open spec fn codec_of(v: Vocabulary) -> Codec {
    if v.compression == COMPRESSION_FREQ {
        Codec::Freq
    } else if v.width == 1 {
        Codec::Raw8
    } else if v.width == 2 {
        Codec::Raw16
    } else {
        Codec::Raw24
    }
}

/// The codec a vocabulary's compression and width select. No raw codec is wider than three bytes.
pub fn codec_for(v: Vocabulary) -> (c: Codec)
    requires
        v.storable(),
    ensures
        c == codec_of(v),
{
    if v.compression == COMPRESSION_FREQ {
        return Codec::Freq;
    }
    match v.width {
        1 => Codec::Raw8,
        2 => Codec::Raw16,
        _ => Codec::Raw24,
    }
}

/// The arguments that are not null.
pub open spec fn present(args: Seq<Option<Vec<u8>>>) -> Seq<Vec<u8>>
    decreases args.len(),
{
    if args.len() == 0 {
        seq![]
    } else {
        match args.last() {
            Some(a) => present(args.drop_last()).push(a),
            None => present(args.drop_last()),
        }
    }
}

/// The vocabulary name among a type's modifiers: there must be one, and it must be text.
pub fn typmod_name(args: &Vec<Option<Vec<u8>>>) -> (r: Result<String, TypmodError>)
    ensures
        match r {
            Ok(name) => {
                &&& present(args@).len() == 1
                &&& vstd::utf8::valid_utf8(present(args@)[0]@)
                &&& name@ == vstd::utf8::decode_utf8(present(args@)[0]@)
            },
            Err(TypmodError::NotOneArgument) => present(args@).len() != 1,
            Err(TypmodError::NotUtf8) => {
                &&& present(args@).len() == 1
                &&& !vstd::utf8::valid_utf8(present(args@)[0]@)
            },
            Err(_) => false,
        },
{
    let mut n: usize = 0;
    let mut at: usize = 0;
    let mut i: usize = 0;
    while i < args.len()
        invariant
            i <= args@.len(),
            n <= i,
            n == present(args@.take(i as int)).len(),
            n == 1 ==> at < args@.len() && args@[at as int] == Some(
                present(args@.take(i as int))[0],
            ),
        decreases args@.len() - i,
    {
        assert(args@.take(i + 1).drop_last() =~= args@.take(i as int));
        if args[i].is_some() {
            n += 1;
            if n == 1 {
                at = i;
            }
        }
        i += 1;
    }
    assert(args@.take(i as int) =~= args@);
    if n != 1 {
        return Err(TypmodError::NotOneArgument);
    }
    match &args[at] {
        Some(bytes) => match from_utf8(bytes.as_slice()) {
            Ok(s) => Ok(s.to_owned()),
            Err(_) => {
                proof {
                    assert(bytes@.take(bytes@.len() as int) =~= bytes@);
                }
                Err(TypmodError::NotUtf8)
            },
        },
        None => Err(TypmodError::NotOneArgument),
    }
}

/// The typmod of a vocabulary, given what its name resolved to.
pub fn typmod_in(name: &str, found: Option<Vocabulary>) -> (r: Result<i32, TypmodError>)
    ensures
        match r {
            Ok(typmod) => found is Some && typmod == typmod_bits(found->0) && typmod >= 0,
            Err(e) => found is None && (e matches TypmodError::UnknownVocabulary(n) && n@ == name@),
        },
{
    match found {
        Some(v) => Ok(pack(v)),
        None => Err(TypmodError::UnknownVocabulary(name.to_owned())),
    }
}

/// A typmod as a column's type shows it, given the name of its vocabulary, if it still has one.
/// One that does not resolve prints its id rather than failing: this can run while an error is
/// being formatted in an aborted transaction.
pub fn typmod_out(typmod: i32, name: Option<&str>) -> (s: String)
    ensures
        s@ == match vocabulary_in(typmod) {
            None => seq![],
            Some(v) => match name {
                Some(n) => "('"@ + n@ + "')"@,
                None => "("@ + crate::text::decimal(v.id as nat) + ")"@,
            },
        },
{
    match unpack(typmod) {
        None => String::new(),
        Some(v) => match name {
            Some(n) => {
                let mut s = "('".to_owned();
                s.append(n);
                s.append("')");
                s
            },
            None => {
                let mut s = "(".to_owned();
                push_decimal(&mut s, v.id as u128);
                s.append(")");
                s
            },
        },
    }
}

/// The width that a vocabulary's size gives it is wide enough: every id below the declared size
/// fits the raw codec that the width selects.
pub proof fn lemma_declared_ids_fit(v: Vocabulary, vocab_size: int, id: u32)
    requires
        v.compression != COMPRESSION_FREQ,
        v.storable(),
        crate::vocabulary::narrowest(vocab_size, v.width as int),
        id < vocab_size,
    ensures
        crate::codec::raw::fits(codec_of(v), id),
{
    crate::bytes::lemma_le_limits();
}

/// A typmod that is not negative is its fields side by side: the id in its low 16 bits, the
/// compression in the next four, the width in the next three. A negative one names no vocabulary.
pub proof fn lemma_typmod_fields(typmod: i32)
    ensures
        typmod < 0 ==> vocabulary_in(typmod) is None,
        typmod >= 0 ==> {
            let v = vocabulary_in(typmod)->0;
            &&& vocabulary_in(typmod) is Some
            &&& v.compression < 16
            &&& v.width < 8
            &&& (typmod - (v.id + 65_536 * v.compression + 1_048_576 * v.width)) % 8_388_608 == 0
        },
{
}

/// Packing puts each field at its place, and of fields too large for theirs the bits that run over
/// into the next are joined to it.
pub proof fn lemma_typmod_places(v: Vocabulary, bit: u32)
    requires
        bit < 32,
    ensures
        ((typmod_bits(v) >> bit) & 1) == (((v.id as u32) >> bit) & 1) | ((((v.compression as u32)
            << 16) >> bit) & 1) | ((((v.width as u32) << 20) >> bit) & 1),
{
    let a = v.id as u32;
    let b = (v.compression as u32) << 16;
    let c = (v.width as u32) << 20;
    assert((((a | b | c) >> bit) & 1) == ((a >> bit) & 1) | ((b >> bit) & 1) | ((c >> bit) & 1))
        by (bit_vector);
}

/// The codec of a column: `freq` for that compression whatever the width, else the raw codec that
/// takes as many bytes for an id as the width says.
pub proof fn lemma_codec_of_a_column(v: Vocabulary)
    requires
        v.storable(),
    ensures
        v.compression == 1 <==> codec_of(v) == Codec::Freq,
        v.compression != 1 ==> codec_of(v).width() == v.width,
{
}

/// The arguments that count are those that are there, in order.
pub proof fn lemma_present_are_there(args: Seq<Option<Vec<u8>>>)
    ensures
        present(args) == args.filter(|a: Option<Vec<u8>>| a is Some).map_values(
            |a: Option<Vec<u8>>| a->0,
        ),
    decreases args.len(),
{
    reveal(Seq::filter);
    let there = |a: Option<Vec<u8>>| a is Some;
    let it = |a: Option<Vec<u8>>| a->0;
    if args.len() > 0 {
        lemma_present_are_there(args.drop_last());
        let rest = args.drop_last().filter(there);
        assert(rest.push(args.last()).map_values(it) =~= rest.map_values(it).push(it(args.last())));
    } else {
        assert(present(args) =~= args.filter(there).map_values(it));
    }
}

/// Two errors of a kind read alike but for the details they give.
pub proof fn lemma_wording_of_typmod_error(a: TypmodError, b: TypmodError)
    ensures
        a is UnknownVocabulary && b is UnknownVocabulary ==> crate::text::same_wording(
            a.text(),
            crate::text::debug_text(a->UnknownVocabulary_0@),
            b.text(),
            crate::text::debug_text(b->UnknownVocabulary_0@),
        ),
{
    if a is UnknownVocabulary && b is UnknownVocabulary {
        assert(crate::text::worded(
            a.text(),
            "vocabulary "@,
            crate::text::debug_text(a->UnknownVocabulary_0@),
            " does not exist"@,
        ));
        assert(crate::text::worded(
            b.text(),
            "vocabulary "@,
            crate::text::debug_text(b->UnknownVocabulary_0@),
            " does not exist"@,
        ));
    }
}

} // verus!
