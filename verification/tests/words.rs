use bliss_guidance_lastfm::artists::ArtistIndex;
use bliss_guidance_lastfm::evidence::Channel;
use bliss_guidance_lastfm::names::{compare_names, same_name, NameMap, NameOrder, NameSet};
use bliss_guidance_lastfm::text::{decimal_text, hex_text, normalize_artist_name, trim};

const WORDS: [&str; 12] =
    ["", "a", "ab", "abc", "b", "B", "\u{e9}", "e", "\u{ffff}", "\u{10000}", "lastfm_artist", "lastfm_track"];

#[test]
fn names_compare_as_strings_do() {
    for a in WORDS {
        for b in WORDS {
            let order = compare_names(a, b);
            assert_eq!(order == NameOrder::Before, a < b, "{a} before {b}");
            assert_eq!(order == NameOrder::Same, a == b, "{a} same as {b}");
            assert_eq!(order == NameOrder::After, a > b, "{a} after {b}");
            assert_eq!(same_name(a, b), a == b);
        }
    }
}

#[test]
fn sets_hold_names_once_and_in_order() {
    let mut set = NameSet::new();
    for word in WORDS.iter().chain(WORDS.iter().rev()) {
        set.insert(word);
    }
    let mut expected: Vec<&str> = WORDS.to_vec();
    expected.sort_unstable();
    assert_eq!(set.len(), expected.len());
    let held: Vec<&str> = (0..set.len()).map(|i| set.name_at(i)).collect();
    assert_eq!(held, expected);

    let mut other = NameSet::new();
    other.insert("zz");
    other.insert("a");
    set.absorb(&other);
    assert_eq!(set.len(), expected.len() + 1);
}

#[test]
fn maps_hold_one_value_for_each_name() {
    let mut map: NameMap<u32> = NameMap::new();
    *map.slot("one", 0) = 1;
    *map.slot("two", 0) = 2;
    *map.slot("one", 9) += 10;
    assert_eq!(map.len(), 2);
    assert_eq!(map.get("one"), Some(&11));
    assert_eq!(map.get("two"), Some(&2));
    assert_eq!(map.get("three"), None);
}

#[test]
fn artist_names_lose_letter_case_and_outer_space() {
    assert_eq!(normalize_artist_name("  Layla ZOE \n"), "layla zoe");
    assert_eq!(normalize_artist_name("\u{a0}BJ\u{d6}RK\u{3000}"), "bj\u{f6}rk");
    assert_eq!(normalize_artist_name(" \t "), "");
    for word in ["", "x", " x", "x ", " a b ", "\u{2003}\u{e9}t\u{e9}\u{85}"] {
        assert_eq!(trim(word), word.trim());
        assert_eq!(normalize_artist_name(word), word.trim().to_lowercase());
    }
}

#[test]
fn white_space_is_that_of_unicode() {
    let white = [
        0x09, 0x0A, 0x0B, 0x0C, 0x0D, 0x20, 0x85, 0xA0, 0x1680, 0x2000, 0x2001, 0x2002, 0x2003, 0x2004, 0x2005,
        0x2006, 0x2007, 0x2008, 0x2009, 0x200A, 0x2028, 0x2029, 0x202F, 0x205F, 0x3000,
    ];
    for c in '\0'..=char::MAX {
        let padded = format!("{c}x{c}");
        assert_eq!(trim(&padded) == "x", white.contains(&u32::from(c)), "{c:?}");
    }
    assert_eq!(trim("    "), "");
}

#[test]
fn every_character_has_a_form_that_is_its_own_form() {
    for c in '\0'..=char::MAX {
        let form = normalize_artist_name(&c.to_string());
        assert_eq!(form.is_empty(), c.is_whitespace(), "{c:?}");
        assert_eq!(trim(&form), form, "{c:?}");
        assert_eq!(normalize_artist_name(&form), form, "{c:?}");
    }
}

#[test]
fn names_match_whatever_the_outer_space_and_letter_case() {
    for (name, other) in [
        ("Layla Zoe", "\t layla ZOE\u{2003}"),
        ("\u{39f}\u{394}\u{39f}\u{3a3} Band", "\u{39f}\u{394}\u{39f}\u{3a3} bAND  "),
        ("A\u{3a3}", " a\u{3a3}"),
        ("\u{3a3}A", "\u{3a3}a\n"),
        ("\u{130}I", "\u{a0}\u{130}i"),
    ] {
        let form = normalize_artist_name(name);
        assert_eq!(form, normalize_artist_name(other));
        assert_eq!(trim(&form), form);
        assert_eq!(normalize_artist_name(&form), form);
    }
    assert_ne!(normalize_artist_name("Layla Zoe"), normalize_artist_name("Layla  Zoe"));
}

#[test]
fn numbers_are_written_out() {
    for n in [0u64, 7, 10, 99, 100, 1234567890, u64::MAX] {
        assert_eq!(decimal_text(n), n.to_string());
    }
    assert_eq!(hex_text(&[0x00, 0x0f, 0xa5, 0xff]), "000fa5ff");
}

#[test]
fn kinds_feed_channels() {
    assert_eq!(Channel::of_kind("recording"), Some(Channel::Track));
    assert_eq!(Channel::of_kind("track"), Some(Channel::Track));
    assert_eq!(Channel::of_kind("artist"), Some(Channel::Artist));
    assert_eq!(Channel::of_kind("album"), None);
    assert_eq!(Channel::of_kind("Artist"), None);
    assert!(Channel::Artist.name() < Channel::Track.name());
}

fn keys(words: &[&str]) -> Vec<String> {
    words.iter().map(|word| (*word).to_owned()).collect()
}

fn members(set: &NameSet) -> Vec<String> {
    (0..set.len()).map(|i| set.name_at(i).to_owned()).collect()
}

#[test]
fn artists_are_found_under_ids_before_names() {
    let mut index = ArtistIndex::new();
    index.list("one", &Some("id-1".to_owned()), &Some("name".to_owned()));
    index.list("two", &Some("id-2".to_owned()), &None);
    index.list("three", &None, &Some("name".to_owned()));
    assert_eq!(members(&index.find(&keys(&["id-2", "id-1", "id-9"]), &None)), vec!["one", "two"]);
    assert_eq!(members(&index.find(&keys(&["id-2"]), &Some("name".to_owned()))), vec!["two"]);
    assert_eq!(members(&index.find(&keys(&["id-9"]), &Some("name".to_owned()))), vec!["one", "three"]);
    assert!(members(&index.find(&keys(&[]), &Some("nobody".to_owned()))).is_empty());
    assert!(members(&index.find(&keys(&[]), &None)).is_empty());
}
