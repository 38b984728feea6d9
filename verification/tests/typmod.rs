use pgtoken::typmod::{codec_for, pack, typmod_in, typmod_name, typmod_out, unpack, TypmodError};
use pgtoken::vocabulary::{Vocabulary, COMPRESSION_FREQ, COMPRESSION_RAW};
use pgtoken::Codec;

#[test]
fn packs_and_unpacks_every_field() {
    for v in [
        Vocabulary {
            id: 1,
            compression: COMPRESSION_RAW,
            width: 1,
        },
        Vocabulary {
            id: 3,
            compression: COMPRESSION_RAW,
            width: 3,
        },
        Vocabulary {
            id: 65535,
            compression: COMPRESSION_FREQ,
            width: 2,
        },
    ] {
        let packed = pack(v);
        assert!(packed >= 0, "a typmod must not collide with -1");
        assert_eq!(unpack(packed), Some(v));
    }
}

#[test]
fn no_typmod_unpacks_to_nothing() {
    assert_eq!(unpack(-1), None);
}

#[test]
fn width_selects_the_raw_codec() {
    for (width, want) in [(1, Codec::Raw8), (2, Codec::Raw16), (3, Codec::Raw24)] {
        let v = Vocabulary {
            id: 1,
            compression: COMPRESSION_RAW,
            width,
        };
        assert_eq!(codec_for(v), want);
    }
    let v = Vocabulary {
        id: 1,
        compression: COMPRESSION_FREQ,
        width: 3,
    };
    assert_eq!(codec_for(v), Codec::Freq, "freq ignores the width");
}

#[test]
fn the_fields_have_their_places() {
    let v = Vocabulary {
        id: 0x1234,
        compression: 1,
        width: 3,
    };
    assert_eq!(pack(v), 0x0031_1234);
    assert_eq!(unpack(i32::MIN), None);
    assert_eq!(
        unpack(0),
        Some(Vocabulary {
            id: 0,
            compression: 0,
            width: 0
        })
    );
    // Beyond their fields, the bits of one run into the next.
    let wide = Vocabulary {
        id: 0,
        compression: 0x20,
        width: 0,
    };
    assert_eq!(pack(wide), 0x20_0000);
}

#[test]
fn a_type_takes_one_modifier() {
    let name = |s: &str| Some(s.as_bytes().to_vec());
    assert_eq!(typmod_name(&vec![name("tm1")]).unwrap(), "tm1");
    assert_eq!(typmod_name(&vec![None, name("tm1"), None]).unwrap(), "tm1");
    for bad in [vec![], vec![None], vec![name("a"), name("b")]] {
        let err = typmod_name(&bad).unwrap_err();
        assert_eq!(
            err.message(),
            "pgtoken.tokens takes exactly one type modifier: a vocabulary name"
        );
    }
    let err = typmod_name(&vec![Some(vec![0xFF])]).unwrap_err();
    assert_eq!(err, TypmodError::NotUtf8);
    assert_eq!(err.message(), "vocabulary name is not valid UTF-8");
}

#[test]
fn a_modifier_resolves_and_shows_its_name() {
    let v = Vocabulary {
        id: 40000,
        compression: COMPRESSION_RAW,
        width: 2,
    };
    let typmod = typmod_in("tm_wide", Some(v)).unwrap();
    assert_eq!(unpack(typmod), Some(v));
    assert_eq!(typmod_out(typmod, Some("tm_wide")), "('tm_wide')");
    assert_eq!(
        typmod_in("nope", None).unwrap_err().message(),
        "vocabulary \"nope\" does not exist"
    );
}

#[test]
fn an_unresolvable_modifier_prints_its_id() {
    assert_eq!(typmod_out(9999, None), "(9999)");
    assert_eq!(typmod_out(-1, None), "");
    assert_eq!(typmod_out(-1, Some("x")), "");
}
