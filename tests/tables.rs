use langid_tables::codec::{
    decode_language, decode_subtag, encode_language, encode_region, encode_script,
};
use langid_tables::error::GenError;
use langid_tables::langid::parse_langid;
use langid_tables::layout::{
    check_all_variants_rtl, is_rtl, parse_direction, rtl_languages, CharacterDirection, LayoutDoc,
    UND_LANGUAGE,
};
use langid_tables::likely::{
    classify_key, get_likely_subtags_data, normalize_value, KeyPattern, Resource, Supplemental,
    Version, UNKNOWN_REGION,
};
use langid_tables::text::{
    generate_layout, generate_likely_subtags, serialize_lang_option, serialize_region_option,
    serialize_script_option, serialize_val,
};

fn lang(s: &str) -> u64 {
    let mut b = [0u8; 8];
    b[..s.len()].copy_from_slice(s.as_bytes());
    u64::from_le_bytes(b)
}

fn sub(s: &str) -> u32 {
    let mut b = [0u8; 4];
    b[..s.len()].copy_from_slice(s.as_bytes());
    u32::from_le_bytes(b)
}

fn resource(version: &str, rules: &[(&str, &str)]) -> Resource {
    Resource {
        supplemental: Supplemental {
            version: Version { cldr_version: version.to_string() },
            likely_subtags: rules
                .iter()
                .map(|(k, v)| (k.as_bytes().to_vec(), v.as_bytes().to_vec()))
                .collect(),
        },
    }
}

fn doc(locale: &str, version: &str, order: &str) -> LayoutDoc {
    LayoutDoc {
        locale: locale.as_bytes().to_vec(),
        version: version.to_string(),
        character_order: order.to_string(),
    }
}

#[test]
fn encode_language_packs_little_endian() {
    assert_eq!(encode_language(b"en"), Some(101 + 110 * 256));
    assert_eq!(encode_language(b"EN"), Some(lang("en")));
    assert_eq!(encode_language(b"abcdefgh"), Some(lang("abcdefgh")));
}

#[test]
fn encode_script_and_region_normalize_case() {
    assert_eq!(encode_script(b"lATN"), Some(sub("Latn")));
    assert_eq!(encode_region(b"us"), Some(sub("US")));
    assert_eq!(encode_region(b"419"), Some(sub("419")));
}

#[test]
fn encode_rejects_bad_subtags() {
    assert_eq!(encode_language(b""), None);
    assert_eq!(encode_language(b"abcdefghi"), None);
    assert_eq!(encode_language(b"e-n"), None);
    assert_eq!(encode_script(b"Latnx"), None);
    assert_eq!(encode_region(b"U\xc3"), None);
}

#[test]
fn codec_round_trip() {
    let l = encode_language(b"EnG").unwrap();
    assert_eq!(decode_language(l), b"eng".to_vec());
    let s = encode_script(b"arab").unwrap();
    assert_eq!(decode_subtag(s), b"Arab".to_vec());
    let r = encode_region(b"eg").unwrap();
    assert_eq!(decode_subtag(r), b"EG".to_vec());
    assert_eq!(decode_language(0), Vec::<u8>::new());
}

#[test]
fn parse_full_identifier() {
    assert_eq!(
        parse_langid(b"en-Latn-US"),
        Some((Some(lang("en")), Some(sub("Latn")), Some(sub("US"))))
    );
    assert_eq!(parse_langid(b"sr_cyrl_rs"), Some((Some(lang("sr")), Some(sub("Cyrl")), Some(sub("RS")))));
    assert_eq!(parse_langid(b"es-419"), Some((Some(lang("es")), None, Some(sub("419")))));
    assert_eq!(parse_langid(b"ca-ES-valencia"), Some((Some(lang("ca")), None, Some(sub("ES")))));
}

#[test]
fn parse_undetermined() {
    assert_eq!(parse_langid(b"und"), Some((None, None, None)));
    assert_eq!(parse_langid(b"und-Arab"), Some((None, Some(sub("Arab")), None)));
    assert_eq!(parse_langid(b"UND-AQ"), Some((None, None, Some(sub("AQ")))));
}

#[test]
fn parse_rejects_malformed() {
    assert_eq!(parse_langid(b""), None);
    assert_eq!(parse_langid(b"e"), None);
    assert_eq!(parse_langid(b"root"), None);
    assert_eq!(parse_langid(b"en--US"), None);
    assert_eq!(parse_langid(b"en-US-Latn"), None);
    assert_eq!(parse_langid(b"en-"), None);
}

#[test]
fn classify_every_pattern() {
    assert_eq!(classify_key((Some(1), None, None)), Some(KeyPattern::LangOnly(1)));
    assert_eq!(classify_key((Some(1), None, Some(3))), Some(KeyPattern::LangRegion(1, 3)));
    assert_eq!(classify_key((Some(1), Some(2), None)), Some(KeyPattern::LangScript(1, 2)));
    assert_eq!(classify_key((None, Some(2), Some(3))), Some(KeyPattern::ScriptRegion(2, 3)));
    assert_eq!(classify_key((None, Some(2), None)), Some(KeyPattern::ScriptOnly(2)));
    assert_eq!(classify_key((None, None, Some(3))), Some(KeyPattern::RegionOnly(3)));
    assert_eq!(classify_key((None, None, None)), Some(KeyPattern::Undetermined));
    assert_eq!(classify_key((Some(1), Some(2), Some(3))), None);
}

#[test]
fn normalize_clears_only_zz() {
    assert_eq!(UNKNOWN_REGION, sub("ZZ"));
    assert_eq!(normalize_value((Some(1), Some(2), Some(sub("ZZ")))), (Some(1), Some(2), None));
    assert_eq!(normalize_value((Some(1), None, Some(sub("EG")))), (Some(1), None, Some(sub("EG"))));
}

#[test]
fn likely_subtags_end_to_end() {
    let res = resource("36", &[("en", "en-Latn-US"), ("und-Arab", "ar-Arab-EG")]);
    let d = get_likely_subtags_data(&res).unwrap();
    assert_eq!(d.0, "36");
    assert_eq!(d.1, vec![(lang("en"), (Some(lang("en")), Some(sub("Latn")), Some(sub("US"))))]);
    assert_eq!(d.6, vec![(sub("Arab"), (Some(lang("ar")), Some(sub("Arab")), Some(sub("EG"))))]);
    assert!(d.2.is_empty() && d.3.is_empty() && d.4.is_empty() && d.5.is_empty());
}

#[test]
fn likely_subtags_zz_cleared() {
    let res = resource("36", &[("en", "en-ZZ")]);
    let d = get_likely_subtags_data(&res).unwrap();
    assert_eq!(d.1, vec![(lang("en"), (Some(lang("en")), None, None))]);
}

#[test]
fn likely_subtags_every_bucket_sorted() {
    let res = resource(
        "36",
        &[
            ("und", "en-Latn-US"),
            ("fr", "fr-Latn-FR"),
            ("de", "de-Latn-DE"),
            ("en-GB", "en-Latn-GB"),
            ("en-AU", "en-Latn-AU"),
            ("az-Arab", "az-Arab-IR"),
            ("und-Latn-DE", "de-Latn-DE"),
            ("und-Cyrl", "ru-Cyrl-RU"),
            ("und-AQ", "und-Latn-AQ"),
            ("und-419", "es-Latn-419"),
        ],
    );
    let d = get_likely_subtags_data(&res).unwrap();
    assert_eq!(d.1.len(), 2);
    assert!(d.1[0].0 < d.1[1].0);
    assert_eq!(d.1[0].0, lang("de"));
    assert_eq!(d.2.len(), 2);
    // Codes are little-endian, so "GB" (71 + 66 * 256) sorts before "AU" (65 + 85 * 256).
    assert_eq!((d.2[0].0, d.2[0].1), (lang("en"), sub("GB")));
    assert_eq!((d.2[1].0, d.2[1].1), (lang("en"), sub("AU")));
    assert_eq!(d.3, vec![(lang("az"), sub("Arab"), (Some(lang("az")), Some(sub("Arab")), Some(sub("IR"))))]);
    assert_eq!(d.4, vec![(sub("Latn"), sub("DE"), (Some(lang("de")), Some(sub("Latn")), Some(sub("DE"))))]);
    assert_eq!(d.5.len(), 2);
    assert!(d.5[0].0 < d.5[1].0);
    assert_eq!(d.6, vec![(sub("Cyrl"), (Some(lang("ru")), Some(sub("Cyrl")), Some(sub("RU"))))]);
}

#[test]
fn likely_subtags_errors() {
    let bad_key = resource("36", &[("x", "en")]);
    assert_eq!(get_likely_subtags_data(&bad_key).unwrap_err(), GenError::InvalidKey(b"x".to_vec()));
    let bad_value = resource("36", &[("en", "en-US-Latn")]);
    assert_eq!(
        get_likely_subtags_data(&bad_value).unwrap_err(),
        GenError::InvalidValue(b"en-US-Latn".to_vec())
    );
    let full = resource("36", &[("en-Latn-US", "en-Latn-US")]);
    assert_eq!(
        get_likely_subtags_data(&full).unwrap_err(),
        GenError::UnsupportedKey(b"en-Latn-US".to_vec())
    );
    let dup = resource("36", &[("en", "en-Latn-US"), ("EN", "en-Latn-GB")]);
    assert_eq!(get_likely_subtags_data(&dup).unwrap_err(), GenError::DuplicateKey(b"EN".to_vec()));
}

#[test]
fn serialize_options_and_values() {
    assert_eq!(serialize_lang_option(Some(28261)), "Some(28261)");
    assert_eq!(serialize_lang_option(None), "None");
    assert_eq!(serialize_script_option(Some(7)), "Some(7)");
    assert_eq!(serialize_region_option(Some(4294967295)), "Some(4294967295)");
    assert_eq!(serialize_val((Some(0), None, Some(10))), "(Some(0), None, Some(10))");
}

#[test]
fn generate_likely_subtags_text() {
    let res = resource("36", &[("en", "en-Latn-US")]);
    let (version, text) = generate_likely_subtags(&res).unwrap();
    assert_eq!(version, "36");
    let expected = format!(
        "#![allow(clippy::type_complexity)]\n#![allow(clippy::unreadable_literal)]\n\n\
pub const LANG_ONLY: &[(u64, (Option<u64>, Option<u32>, Option<u32>)); 1] = &[\n    ({}, (Some({}), Some({}), Some({}))),\n];\n\
pub const LANG_REGION: [(u64, u32, (Option<u64>, Option<u32>, Option<u32>)); 0] = [\n];\n\
pub const LANG_SCRIPT: [(u64, u32, (Option<u64>, Option<u32>, Option<u32>)); 0] = [\n];\n\
pub const SCRIPT_REGION: [(u32, u32, (Option<u64>, Option<u32>, Option<u32>)); 0] = [\n];\n\
pub const SCRIPT_ONLY: [(u32, (Option<u64>, Option<u32>, Option<u32>)); 0] = [\n];\n\
pub const REGION_ONLY: [(u32, (Option<u64>, Option<u32>, Option<u32>)); 0] = [\n];\n",
        lang("en"),
        lang("en"),
        sub("Latn"),
        sub("US")
    );
    assert_eq!(text, expected);
}

#[test]
fn direction_parsing() {
    assert_eq!(parse_direction(&"right-to-left".to_string()), Ok(CharacterDirection::RTL));
    assert_eq!(parse_direction(&"left-to-right".to_string()), Ok(CharacterDirection::LTR));
    assert_eq!(
        parse_direction(&"top-to-bottom".to_string()),
        Err(GenError::UnknownDirection("top-to-bottom".to_string()))
    );
}

#[test]
fn rtl_set_sorted_and_deduplicated() {
    let docs = vec![
        doc("root", "36", "left-to-right"),
        doc("he", "36", "right-to-left"),
        doc("ar-EG", "36", "right-to-left"),
        doc("ar-SA", "36", "right-to-left"),
        doc("en", "36", "left-to-right"),
        doc("ar", "36", "right-to-left"),
    ];
    let (version, set) = rtl_languages(&docs).unwrap();
    assert_eq!(version, "36");
    let mut expected = vec![lang("ar"), lang("he")];
    expected.sort();
    assert_eq!(set, expected);
    assert!(is_rtl(&set, lang("ar")));
    assert!(is_rtl(&set, lang("he")));
    assert!(!is_rtl(&set, lang("en")));
}

#[test]
fn rtl_conflict_is_fatal() {
    let docs = vec![doc("ar-EG", "36", "right-to-left"), doc("ar-SA", "36", "left-to-right")];
    assert_eq!(rtl_languages(&docs).unwrap_err(), GenError::DirectionConflict(lang("ar")));
    assert!(generate_layout(&docs).is_err());
}

#[test]
fn layout_errors() {
    let skew = vec![doc("he", "36", "right-to-left"), doc("en", "37", "left-to-right")];
    assert_eq!(rtl_languages(&skew).unwrap_err(), GenError::VersionMismatch);
    let only_root = vec![doc("root", "36", "left-to-right")];
    assert_eq!(rtl_languages(&only_root).unwrap_err(), GenError::MissingVersion);
    let bad_locale = vec![doc("e", "36", "left-to-right")];
    assert_eq!(rtl_languages(&bad_locale).unwrap_err(), GenError::InvalidLocale(b"e".to_vec()));
    let bad_order = vec![doc("en", "36", "sideways")];
    assert_eq!(
        rtl_languages(&bad_order).unwrap_err(),
        GenError::UnknownDirection("sideways".to_string())
    );
    let und = vec![doc("und-Arab", "36", "right-to-left")];
    assert_eq!(rtl_languages(&und).unwrap().1, vec![UND_LANGUAGE]);
    assert_eq!(UND_LANGUAGE, lang("und"));
}

#[test]
fn check_variants_direction() {
    let map = vec![(1, CharacterDirection::RTL), (2, CharacterDirection::LTR), (1, CharacterDirection::RTL)];
    assert!(check_all_variants_rtl(&map, 1));
    assert!(!check_all_variants_rtl(&map, 2));
    assert!(check_all_variants_rtl(&map, 3));
}

#[test]
fn generate_layout_text() {
    let docs = vec![doc("he", "36", "right-to-left"), doc("ar", "36", "right-to-left")];
    let (version, text) = generate_layout(&docs).unwrap();
    assert_eq!(version, "36");
    let mut codes = vec![lang("ar"), lang("he")];
    codes.sort();
    let expected = format!(
        "pub const CHARACTER_DIRECTION_RTL: [u64; 2] = [{}, {}];\npub fn is_rtl(subtag: u64) -> bool {{\n    CHARACTER_DIRECTION_RTL.binary_search(&subtag).is_ok()\n}}\n",
        codes[0], codes[1]
    );
    assert_eq!(text, expected);
}
