//! Reading cards from the bytes of synthesised card files.

use koikatsu_dedupe::card::{classify_marker, parse_card, CardError, CardType, Game, Sex};

fn mp_str(s: &str) -> Vec<u8> {
    let b = s.as_bytes();
    assert!(b.len() < 32, "fixture strings stay in fixstr range");
    let mut v = vec![0xA0 | b.len() as u8];
    v.extend_from_slice(b);
    v
}

fn mp_int(i: i64) -> Vec<u8> {
    assert!((0..128).contains(&i), "fixture ints stay in positive fixint range");
    vec![i as u8]
}

fn mp_map(pairs: &[(&str, Vec<u8>)]) -> Vec<u8> {
    assert!(pairs.len() < 16);
    let mut v = vec![0x80 | pairs.len() as u8];
    for (k, val) in pairs {
        v.extend(mp_str(k));
        v.extend_from_slice(val);
    }
    v
}

fn mp_arr(items: &[Vec<u8>]) -> Vec<u8> {
    assert!(items.len() < 16);
    let mut v = vec![0x90 | items.len() as u8];
    for i in items {
        v.extend_from_slice(i);
    }
    v
}

fn net_str(s: &str) -> Vec<u8> {
    let b = s.as_bytes();
    assert!(b.len() < 128, "fixture markers are short");
    let mut v = vec![b.len() as u8];
    v.extend_from_slice(b);
    v
}

fn png_prefix() -> Vec<u8> {
    let mut v = vec![0x89, b'P', b'N', b'G', 0x0D, 0x0A, 0x1A, 0x0A];
    v.extend_from_slice(&13u32.to_be_bytes());
    v.extend_from_slice(b"IHDR");
    v.extend_from_slice(&[0u8; 13]);
    v.extend_from_slice(&[0u8; 4]);
    v.extend_from_slice(&0u32.to_be_bytes());
    v.extend_from_slice(b"IEND");
    v.extend_from_slice(&[0u8; 4]);
    v
}

fn card(marker: &str, sex: i64, lastname: &str, firstname: &str, personality: Option<i64>) -> Vec<u8> {
    let mut param = vec![
        ("version", mp_str("0.0.5")),
        ("sex", mp_int(sex)),
        ("lastname", mp_str(lastname)),
        ("firstname", mp_str(firstname)),
    ];
    if let Some(p) = personality {
        param.push(("personality", mp_int(p)));
    }
    let param_bytes = mp_map(&param);
    let table = mp_map(&[(
        "lstInfo",
        mp_arr(&[mp_map(&[
            ("name", mp_str("Parameter")),
            ("version", mp_str("0.0.5")),
            ("pos", mp_int(0)),
            ("size", mp_int(param_bytes.len() as i64)),
        ])]),
    )]);
    let mut v = png_prefix();
    v.extend_from_slice(&100i32.to_le_bytes());
    v.extend(net_str(marker));
    v.extend(net_str("0.0.0"));
    v.extend_from_slice(&0i32.to_le_bytes());
    v.extend_from_slice(&(table.len() as i32).to_le_bytes());
    v.extend_from_slice(&table);
    v.extend_from_slice(&(param_bytes.len() as i64).to_le_bytes());
    v.extend_from_slice(&param_bytes);
    v
}

#[test]
fn reads_a_kk_female_character_card() {
    let m = parse_card(&card("【KoiKatuChara】", 1, "東山", "涼子", Some(19))).expect("should parse");
    assert_eq!(m.game.folder(), "Koikatu");
    assert!(matches!(m.card_type, CardType::Character));
    assert_eq!(m.sex.folder(), "Female");
    assert_eq!(m.lastname, "東山");
    assert_eq!(m.firstname, "涼子");
    assert_eq!(m.personality, Some(19));
}

#[test]
fn reads_a_kks_card_and_keeps_the_games_apart() {
    let m = parse_card(&card("【KoiKatuCharaSun】", 1, "", "泽近爱理", Some(27))).expect("should parse");
    assert_eq!(m.game.folder(), "KoikatsuSunshine");
    assert_eq!(m.personality, Some(27));
}

#[test]
fn a_coordinate_card_needs_no_parameter_block() {
    let m = parse_card(&card("【KoiKatuClothes】", 0, "x", "y", None)).expect("should parse");
    assert!(matches!(m.card_type, CardType::Coordinate));
    assert_eq!(m.card_type.folder(), "Coordinate");
}

#[test]
fn an_unknown_marker_is_reported_never_guessed() {
    match parse_card(&card("【KStudio】", 1, "a", "b", Some(1))) {
        Err(CardError::Unrecognized(m)) => assert!(m.contains("KStudio")),
        other => panic!("expected Unrecognized, got {other:?}"),
    }
}

#[test]
fn a_plain_png_is_not_a_card() {
    assert!(matches!(parse_card(&png_prefix()), Err(CardError::NotCard) | Err(CardError::Malformed(_))));
}

#[test]
fn a_non_utf8_name_does_not_panic() {
    let mut bytes = card("【KoiKatuChara】", 1, "AA", "BB", Some(3));
    let idx = bytes.windows(2).rposition(|w| w == b"BB").unwrap();
    bytes[idx] = 0xFF;
    let m = parse_card(&bytes).expect("must not panic or fail");
    assert!(m.firstname.contains('\u{FFFD}'), "expected lossy replacement, got {:?}", m.firstname);
}

#[test]
fn every_known_marker_names_its_game_and_kind() {
    let table = [
        ("【KoiKatuChara】", Game::Koikatu, CardType::Character),
        ("【KoiKatuCharaS】", Game::Koikatu, CardType::Character),
        ("【KoiKatuCharaSP】", Game::Koikatu, CardType::Character),
        ("【KoiKatuClothes】", Game::Koikatu, CardType::Coordinate),
        ("【KoiKatuCharaSun】", Game::KoikatsuSunshine, CardType::Character),
        ("【HCChara】", Game::HoneyCome, CardType::Character),
        ("【HCPChara】", Game::HoneyCome, CardType::Character),
        ("【SVChara】", Game::Svc, CardType::Character),
        ("【SVClothes】", Game::Svc, CardType::Coordinate),
        ("【ACChara】", Game::Aicomi, CardType::Character),
        ("【ACClothes】", Game::Aicomi, CardType::Coordinate),
    ];
    for (marker, game, kind) in table {
        assert_eq!(classify_marker(marker), Some((game, kind)), "{marker}");
    }
    assert_eq!(classify_marker("【KStudio】"), None);
    assert_eq!(classify_marker(""), None);
}

#[test]
fn folder_names_are_the_on_disk_names() {
    assert_eq!(Game::Koikatu.folder(), "Koikatu");
    assert_eq!(Game::KoikatsuSunshine.folder(), "KoikatsuSunshine");
    assert_eq!(Game::HoneyCome.folder(), "HoneyCome");
    assert_eq!(Game::Svc.folder(), "SVC");
    assert_eq!(Game::Aicomi.folder(), "Aicomi");
    assert_eq!(CardType::Character.folder(), "Character");
    assert_eq!(CardType::Coordinate.folder(), "Coordinate");
    assert_eq!(Sex::Male.folder(), "Male");
    assert_eq!(Sex::Female.folder(), "Female");
    assert_eq!(Sex::Unknown.folder(), "Unknown");
}

#[test]
fn the_sex_byte_maps_to_male_female_or_unknown() {
    assert!(matches!(parse_card(&card("【KoiKatuChara】", 0, "a", "b", None)).unwrap().sex, Sex::Male));
    assert!(matches!(parse_card(&card("【KoiKatuChara】", 1, "a", "b", None)).unwrap().sex, Sex::Female));
    assert!(matches!(parse_card(&card("【KoiKatuChara】", 5, "a", "b", None)).unwrap().sex, Sex::Unknown));
}

#[test]
fn the_block_table_and_its_base_offset_are_kept() {
    let bytes = card("【KoiKatuChara】", 1, "a", "b", Some(4));
    let m = parse_card(&bytes).unwrap();
    assert_eq!(m.blocks.len(), 1);
    assert_eq!(m.blocks[0].name, "Parameter");
    assert_eq!(m.blocks[0].pos, 0);
    assert_eq!(m.base as usize + m.blocks[0].size as usize, bytes.len());
}

#[test]
fn error_reasons_read_as_the_cli_prints_them() {
    assert_eq!(CardError::NotCard.reason(), "not a card (no appended Koikatsu block)");
    assert_eq!(CardError::Malformed("x".to_string()).reason(), "malformed: x");
    assert_eq!(CardError::Unrecognized("【KStudio】".to_string()).reason(), "unrecognized marker \"【KStudio】\"");
}

#[test]
fn a_cut_off_card_is_malformed_not_a_panic() {
    let bytes = card("【KoiKatuChara】", 1, "a", "b", Some(4));
    for cut in [png_prefix().len() + 2, png_prefix().len() + 20, bytes.len() - 3] {
        match parse_card(&bytes[..cut]) {
            Err(CardError::Malformed(_)) | Err(CardError::NotCard) => {}
            other => panic!("cut at {cut}: {other:?}"),
        }
    }
}
