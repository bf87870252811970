use ringside::errors::Error;
use ringside::language::Language;

#[test]
fn decode_recognizes_the_canonical_codes() {
    assert_eq!(Language::decode("FRE"), Ok(Language::French));
    assert_eq!(Language::decode("ENG"), Ok(Language::English));
}

#[test]
fn decode_rejects_everything_else() {
    for raw in ["fre", "eng", "EN", "FR", "", "FRA", "ENGL", "FRE ", " ENG"] {
        match Language::decode(raw) {
            Err(Error::UnrecognizedLanguage { raw: bad }) => assert_eq!(bad, raw),
            other => panic!("expected a rejection for {:?}, got {:?}", raw, other),
        }
    }
}

#[test]
fn encode_produces_the_canonical_codes() {
    assert_eq!(Language::French.encode(), "FRE");
    assert_eq!(Language::English.encode(), "ENG");
}

#[test]
fn codec_round_trips_every_language() {
    for lang in [Language::French, Language::English] {
        assert_eq!(Language::decode(&lang.encode()), Ok(lang));
    }
}
