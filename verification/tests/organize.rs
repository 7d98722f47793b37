//! Planning where cards go, on snapshots built in the test: every card is
//! synthesised here, and the directory listings the planner reads are
//! written out by hand.

use koikatsu_dedupe::card::parse_card;
use koikatsu_dedupe::organize::{
    claim_key, collision_scan_error_to_reason, destination, existing_case_insensitive, is_destination_folder,
    is_in_dest_folder,
    plan, record_move, resolve_collision, suffixed, voice_support_from, walk_error_to_unreadable, wants_move,
    next_move_action, voice_dir, walk_step, ApplyResult, Claim, Claims, Collision, CollisionScanError, DirEntry, EntryKind, Listing,
    MoveAction, MoveEvent, MoveOutcome, Plan, Planned, VoiceSupport, WalkEntry, WalkError, WalkItem,
};
use koikatsu_dedupe::paths::join;

fn mp_str(s: &str) -> Vec<u8> {
    let b = s.as_bytes();
    assert!(b.len() < 32, "fixture strings stay in fixstr range");
    let mut v = vec![0xA0 | b.len() as u8];
    v.extend_from_slice(b);
    v
}

fn mp_int(i: i64) -> Vec<u8> {
    assert!((0..128).contains(&i), "fixture ints stay in positive fixint range");
    vec![i as u8]
}

fn mp_map(pairs: &[(&str, Vec<u8>)]) -> Vec<u8> {
    assert!(pairs.len() < 16);
    let mut v = vec![0x80 | pairs.len() as u8];
    for (k, val) in pairs {
        v.extend(mp_str(k));
        v.extend_from_slice(val);
    }
    v
}

fn mp_arr(items: &[Vec<u8>]) -> Vec<u8> {
    assert!(items.len() < 16);
    let mut v = vec![0x90 | items.len() as u8];
    for i in items {
        v.extend_from_slice(i);
    }
    v
}

fn net_str(s: &str) -> Vec<u8> {
    let b = s.as_bytes();
    assert!(b.len() < 128, "fixture markers are short");
    let mut v = vec![b.len() as u8];
    v.extend_from_slice(b);
    v
}

fn png_prefix() -> Vec<u8> {
    let mut v = vec![0x89, b'P', b'N', b'G', 0x0D, 0x0A, 0x1A, 0x0A];
    v.extend_from_slice(&13u32.to_be_bytes());
    v.extend_from_slice(b"IHDR");
    v.extend_from_slice(&[0u8; 13]);
    v.extend_from_slice(&[0u8; 4]);
    v.extend_from_slice(&0u32.to_be_bytes());
    v.extend_from_slice(b"IEND");
    v.extend_from_slice(&[0u8; 4]);
    v
}

fn card(marker: &str, sex: i64, lastname: &str, firstname: &str, personality: Option<i64>) -> Vec<u8> {
    let mut param = vec![
        ("version", mp_str("0.0.5")),
        ("sex", mp_int(sex)),
        ("lastname", mp_str(lastname)),
        ("firstname", mp_str(firstname)),
    ];
    if let Some(p) = personality {
        param.push(("personality", mp_int(p)));
    }
    let param_bytes = mp_map(&param);
    let table = mp_map(&[(
        "lstInfo",
        mp_arr(&[mp_map(&[
            ("name", mp_str("Parameter")),
            ("version", mp_str("0.0.5")),
            ("pos", mp_int(0)),
            ("size", mp_int(param_bytes.len() as i64)),
        ])]),
    )]);
    let mut v = png_prefix();
    v.extend_from_slice(&100i32.to_le_bytes());
    v.extend(net_str(marker));
    v.extend(net_str("0.0.0"));
    v.extend_from_slice(&0i32.to_le_bytes());
    v.extend_from_slice(&(table.len() as i32).to_le_bytes());
    v.extend_from_slice(&table);
    v.extend_from_slice(&(param_bytes.len() as i64).to_le_bytes());
    v.extend_from_slice(&param_bytes);
    v
}

fn kk_female() -> Vec<u8> {
    card("【KoiKatuChara】", 1, "東山", "涼子", Some(19))
}

const ROOT: &str = "/cards/root";

/// A path under the root, joined the way the library joins paths.
fn at(rel: &str) -> String {
    rel.split('/').fold(ROOT.to_string(), |acc, part| join(&acc, part))
}

/// A planning snapshot: walked files (in walk order), their bytes, and the
/// listings of destination folders.
struct Snapshot {
    files: Vec<String>,
    contents: Vec<(String, Vec<u8>)>,
    listings: Vec<(String, Listing)>,
}

impl Snapshot {
    fn new() -> Self {
        Snapshot { files: Vec::new(), contents: Vec::new(), listings: Vec::new() }
    }

    /// A walked file with its bytes.
    fn put(&mut self, rel: &str, bytes: &[u8]) -> String {
        let p = at(rel);
        self.files.push(p.clone());
        self.contents.push((p.clone(), bytes.to_vec()));
        p
    }

    /// A file sitting in a destination folder (listed there, readable).
    fn occupant(&mut self, dir_rel: &str, name: &str, bytes: &[u8]) -> String {
        let dir = at(dir_rel);
        let p = join(&dir, name);
        self.contents.push((p.clone(), bytes.to_vec()));
        let entry = Ok(DirEntry { name: name.to_string(), path: p.clone() });
        match self.listings.iter_mut().find(|(d, _)| *d == dir) {
            Some((_, Listing::Entries(es))) => es.push(entry),
            _ => self.listings.push((dir, Listing::Entries(vec![entry]))),
        }
        p
    }

    fn plan(&self, voice: Option<&VoiceSupport>) -> Plan {
        plan(ROOT, &self.files, Vec::new(), &self.contents, &self.listings, voice)
    }
}

/// Carries out a plan on paper: every move that asks for a write succeeds.
fn apply_all_moved(p: &Plan) -> ApplyResult {
    let mut r = ApplyResult::default();
    for m in &p.moves {
        record_move(&mut r, m, &MoveOutcome::Moved);
    }
    r
}

// ---------------------------------------------------------------------------
// Failure reports.
// ---------------------------------------------------------------------------

#[test]
fn an_enumeration_failure_is_reported_against_the_containing_directory() {
    let dir = r"Z:\cardpacks\broken".to_string();
    let u = walk_error_to_unreadable(WalkError::Enumeration { dir: dir.clone() });
    assert_eq!(u.path, dir);
    assert!(u.reason.contains("could not be enumerated"), "{}", u.reason);
}

#[test]
fn a_file_type_failure_is_reported_against_the_entry_itself() {
    let path = r"Z:\cardpacks\broken\c.png".to_string();
    let source = std::io::Error::new(std::io::ErrorKind::PermissionDenied, "access denied");
    let u = walk_error_to_unreadable(WalkError::FileType { path: path.clone(), source: source.to_string() });
    assert_eq!(u.path, path);
    assert!(u.reason.contains("file type"), "{}", u.reason);
    assert!(u.reason.contains("access denied"), "{}", u.reason);
}

#[test]
fn a_collision_scan_enumeration_failure_is_reported_not_treated_as_no_collision() {
    let dir = r"Z:\cardpacks\broken".to_string();
    let source = std::io::Error::new(std::io::ErrorKind::PermissionDenied, "access denied");
    let reason = collision_scan_error_to_reason(CollisionScanError { dir: dir.clone(), source: source.to_string() });
    assert!(reason.contains("name collision"), "{reason}");
    assert!(reason.contains("access denied"), "{reason}");
}

#[test]
fn a_missing_destination_directory_is_no_collision() {
    let dir = "/tmp/kdedupe_no_such_dest_dir_ever";
    assert_eq!(existing_case_insensitive(dir, "c.png", &Listing::Missing).unwrap(), None);
}

#[test]
fn a_destination_directory_that_cannot_be_listed_is_unknown_not_no_collision() {
    let dir = "/tmp/kdedupe_unlistable_dest/i_am_a_file";
    let listing = Listing::Unlistable("Not a directory (os error 20)".to_string());
    let err = existing_case_insensitive(dir, "c.png", &listing)
        .expect_err("an unlistable directory must not read as \"no collision\"");
    assert!(err.contains("could not be listed"), "{err}");
    assert!(err.contains("c.png"), "{err}");
}

#[test]
fn an_existing_name_is_found_case_insensitively() {
    let dir = "/d";
    let listing = Listing::Entries(vec![
        Ok(DirEntry { name: "other.png".to_string(), path: "/d/other.png".to_string() }),
        Ok(DirEntry { name: "C.PNG".to_string(), path: "/d/C.PNG".to_string() }),
    ]);
    assert_eq!(existing_case_insensitive(dir, "c.png", &listing).unwrap(), Some("/d/C.PNG".to_string()));
    assert_eq!(existing_case_insensitive(dir, "d.png", &listing).unwrap(), None);
}

#[test]
fn an_unreadable_listing_entry_makes_the_collision_status_unknown() {
    let dir = "/d";
    let listing = Listing::Entries(vec![Err("access denied".to_string())]);
    let err = existing_case_insensitive(dir, "c.png", &listing).unwrap_err();
    assert!(err.contains("name collision"), "{err}");
    assert!(err.contains("access denied"), "{err}");
}

// ---------------------------------------------------------------------------
// Claims and suffixes.
// ---------------------------------------------------------------------------

#[test]
fn claim_key_folds_non_ascii_case_too() {
    assert_eq!(claim_key("Ç.png"), claim_key("ç.png"));
    assert_eq!(claim_key("ÄÖÜ.PNG"), claim_key("äöü.png"));
    assert_eq!(claim_key("C.PNG"), claim_key("c.png"));
}

#[test]
fn suffixed_exhaustion_is_reported_not_silently_overwritten() {
    let dir = r"Z:\cardpacks\nonexistent";
    let mut claims = Claims::new();
    for n in 2..10_000 {
        claims.insert(claim_key(&format!("c ({n}).png")), Claim { dest: String::new(), source: String::new() });
    }
    let result = suffixed(dir, "c.png", &claims, &Listing::Missing).unwrap();
    assert!(result.is_none(), "every candidate is claimed; must report exhaustion");
}

#[test]
fn resolve_collision_reports_unresolvable_when_every_suffix_is_taken() {
    let dir = r"Z:\cardpacks\nonexistent";
    let mut claims = Claims::new();
    claims.insert(
        claim_key("c.png"),
        Claim { dest: join(dir, "c.png"), source: "nonexistent-existing-content".to_string() },
    );
    for n in 2..10_000 {
        claims.insert(claim_key(&format!("c ({n}).png")), Claim { dest: String::new(), source: String::new() });
    }
    let source = "nonexistent-incoming-content";
    let (_, collision) = resolve_collision(dir, "c.png", source, &mut claims, &Listing::Missing, &Vec::new()).unwrap();
    assert_eq!(collision, Collision::Unresolvable);
}

#[test]
fn the_first_free_suffix_is_chosen() {
    let dir = "/d";
    let mut claims = Claims::new();
    claims.insert(claim_key("c (2).png"), Claim { dest: String::new(), source: String::new() });
    let listing = Listing::Entries(vec![Ok(DirEntry { name: "C (3).PNG".to_string(), path: "/d/C (3).PNG".to_string() })]);
    let result = suffixed(dir, "c.png", &claims, &listing).unwrap();
    assert_eq!(result, Some(join(dir, "c (4).png")));
}

#[test]
fn a_vacant_name_is_claimed_for_the_incoming_card() {
    let dir = "/d";
    let mut claims = Claims::new();
    let (to, collision) = resolve_collision(dir, "c.png", "/in/c.png", &mut claims, &Listing::Missing, &Vec::new()).unwrap();
    assert_eq!(collision, Collision::Vacant);
    assert_eq!(to, join(dir, "c.png"));
    assert_eq!(claims.len(), 1);
    assert!(claims.contains_key(&claim_key("C.png")));
}

// ---------------------------------------------------------------------------
// Where cards go.
// ---------------------------------------------------------------------------

#[test]
fn destination_is_game_then_sex_or_card_type() {
    let m = parse_card(&kk_female()).unwrap();
    assert_eq!(destination(ROOT, &m), at("Koikatu/Female"));
    let c = parse_card(&card("【KoiKatuClothes】", 0, "x", "y", None)).unwrap();
    assert_eq!(destination(ROOT, &c), at("Koikatu/Coordinate"));
    let s = parse_card(&card("【KoiKatuCharaSun】", 0, "x", "y", Some(3))).unwrap();
    assert_eq!(destination(ROOT, &s), at("KoikatsuSunshine/Male"));
}

#[test]
fn only_the_first_segment_decides_whether_a_card_is_filed() {
    assert!(is_in_dest_folder(ROOT, &at("Koikatu/Female/c.png")));
    assert!(is_in_dest_folder(ROOT, &at("SVC/x.png")));
    assert!(!is_in_dest_folder(ROOT, &at("Koikatu_F_2026/card/c.png")));
    assert!(!is_in_dest_folder(ROOT, &at("in/Koikatu/c.png")));
    assert!(!is_in_dest_folder(ROOT, "/elsewhere/Koikatu/c.png"));
}

#[test]
fn a_card_pack_folder_whose_name_merely_starts_with_a_game_name_is_organized() {
    let mut s = Snapshot::new();
    let src = s.put("Koikatu_F_20260725003553199_姬野 夜王/card/c.png", &kk_female());
    let p = s.plan(None);
    assert_eq!(p.moves.len(), 1, "card must be seen, not skipped: {p:?}");
    assert_eq!(p.moves[0].from, src);
    assert_eq!(p.moves[0].to, at("Koikatu/Female/c.png"));
    assert!(p.skipped.is_empty(), "nothing should be skipped here");
}

#[test]
fn a_card_already_in_a_destination_folder_is_skipped() {
    let mut s = Snapshot::new();
    let src = s.put("Koikatu/Female/c.png", &kk_female());
    let p = s.plan(None);
    assert!(p.moves.is_empty(), "already-filed card must not move: {p:?}");
    assert_eq!(p.skipped, vec![src]);
}

#[test]
fn a_bracketed_folder_name_is_walked_normally() {
    let mut s = Snapshot::new();
    s.put("[kk] 御坂セット/c.png", &kk_female());
    let p = s.plan(None);
    assert_eq!(p.moves.len(), 1, "bracketed path must be walked: {p:?}");
}

#[test]
fn a_deep_cjk_path_is_walked_normally() {
    let mut s = Snapshot::new();
    s.put("深層/姫野/カード/日本語 folder/c.png", &kk_female());
    let p = s.plan(None);
    assert_eq!(p.moves.len(), 1, "CJK path must be walked: {p:?}");
}

#[test]
fn an_unrecognized_marker_is_reported_and_not_moved() {
    let mut s = Snapshot::new();
    s.put("scene.png", &card("【KStudio】", 1, "a", "b", Some(1)));
    let p = s.plan(None);
    assert!(p.moves.is_empty());
    assert_eq!(p.unrecognized.len(), 1);
    assert!(p.unrecognized[0].reason.contains("KStudio"));
}

#[test]
fn a_non_card_png_is_reported_as_unreadable_and_not_moved() {
    let mut s = Snapshot::new();
    s.put("preview.png", b"\x89PNG\r\n\x1a\nnot really a png body");
    let p = s.plan(None);
    assert!(p.moves.is_empty());
    assert_eq!(p.unreadable.len(), 1, "{p:?}");
}

#[test]
fn a_file_that_could_not_be_read_is_reported_as_unreadable() {
    let mut s = Snapshot::new();
    let f = at("gone.png");
    s.files.push(f.clone());
    let p = s.plan(None);
    assert!(p.moves.is_empty());
    assert_eq!(p.unreadable.len(), 1, "{p:?}");
    assert_eq!(p.unreadable[0].path, f);
}

#[test]
fn walk_failures_handed_to_the_planner_are_kept() {
    let files: Vec<String> = Vec::new();
    let errs = vec![walk_error_to_unreadable(WalkError::Enumeration { dir: at("broken") })];
    let p = plan(ROOT, &files, errs, &Vec::new(), &Vec::new(), None);
    assert_eq!(p.unreadable.len(), 1);
    assert_eq!(p.unreadable[0].path, at("broken"));
}

#[test]
fn a_collision_with_identical_content_is_not_filed_twice() {
    let mut s = Snapshot::new();
    let bytes = kk_female();
    s.occupant("Koikatu/Female", "c.png", &bytes);
    s.put("Koikatu/Female/c.png", &bytes);
    s.put("incoming/c.png", &bytes);
    let p = s.plan(None);
    assert_eq!(p.moves.len(), 1);
    assert!(matches!(p.moves[0].collision, Collision::AlreadyFiled));
    assert!(!wants_move(&p.moves[0]), "AlreadyFiled must not touch the source");

    let r = apply_all_moved(&p);
    assert_eq!(r.already_filed, 1);
    assert_eq!(r.moved, 0);
    assert!(r.errors.is_empty(), "{:?}", r.errors);
}

#[test]
fn a_collision_with_different_content_is_suffixed() {
    let mut s = Snapshot::new();
    let other = card("【KoiKatuChara】", 1, "別", "人", Some(2));
    s.occupant("Koikatu/Female", "c.png", &other);
    s.put("Koikatu/Female/c.png", &other);
    s.put("incoming/c.png", &kk_female());
    let p = s.plan(None);
    assert!(matches!(p.moves[0].collision, Collision::Renamed));
    assert_eq!(p.moves[0].to, at("Koikatu/Female/c (2).png"), "incoming card kept under a new name");
    let r = apply_all_moved(&p);
    assert_eq!(r.renamed, 1);
}

#[test]
fn apply_moves_the_card_and_creates_the_destination_folder() {
    let mut s = Snapshot::new();
    s.put("Koikatu_F_20260101000000000_x/card/c.png", &kk_female());
    let p = s.plan(None);
    assert!(wants_move(&p.moves[0]));
    let r = apply_all_moved(&p);
    assert_eq!(r.moved, 1, "{:?}", r.errors);
}

#[test]
fn two_pending_sources_with_identical_content_at_the_same_destination_are_filed_once() {
    let mut s = Snapshot::new();
    let bytes = kk_female();
    s.put("A/c.png", &bytes);
    s.put("B/c.png", &bytes);
    let p = s.plan(None);
    assert_eq!(p.moves.len(), 2, "{p:?}");
    assert!(matches!(p.moves[0].collision, Collision::Vacant));
    assert!(matches!(p.moves[1].collision, Collision::AlreadyFiled));
    assert_eq!(p.moves[0].to, p.moves[1].to, "both plan entries must target the same destination name");

    let r = apply_all_moved(&p);
    assert_eq!(r.moved, 1, "{:?}", r.errors);
    assert_eq!(r.already_filed, 1);
    assert!(r.errors.is_empty(), "{:?}", r.errors);
}

#[test]
fn two_pending_sources_with_different_content_at_the_same_destination_are_both_kept() {
    let mut s = Snapshot::new();
    s.put("A/c.png", &kk_female());
    s.put("B/c.png", &card("【KoiKatuChara】", 1, "別", "人", Some(2)));
    let p = s.plan(None);
    assert_eq!(p.moves.len(), 2, "{p:?}");
    assert!(matches!(p.moves[0].collision, Collision::Vacant));
    assert!(matches!(p.moves[1].collision, Collision::Renamed));
    assert_ne!(p.moves[0].to, p.moves[1].to, "differing content must land under distinct names");
    assert_eq!(p.moves[0].to, at("Koikatu/Female/c.png"));
    assert_eq!(p.moves[1].to, at("Koikatu/Female/c (2).png"));

    let r = apply_all_moved(&p);
    assert_eq!(r.moved, 1, "{:?}", r.errors);
    assert_eq!(r.renamed, 1, "{:?}", r.errors);
    assert!(r.errors.is_empty(), "{:?}", r.errors);
}

#[test]
fn apply_reports_unresolvable_as_an_error_without_touching_the_filesystem() {
    let m = Planned { from: at("incoming.png"), to: at("Koikatu/Female/c.png"), collision: Collision::Unresolvable };
    assert!(!wants_move(&m), "nothing must be written for an unresolvable collision");
    let mut r = ApplyResult::default();
    record_move(&mut r, &m, &MoveOutcome::Moved);
    assert_eq!(r.errors.len(), 1, "{:?}", r.errors);
    assert_eq!(r.moved, 0);
    assert_eq!(r.renamed, 0);
    assert_eq!(r.already_filed, 0);
    assert!(r.errors[0].contains("could not find a free destination name"), "{:?}", r.errors);
}

#[test]
fn identical_content_already_claimed_under_a_suffix_is_not_filed_a_second_time() {
    let mut s = Snapshot::new();
    let x = kk_female();
    let y = card("【KoiKatuChara】", 1, "別", "人", Some(2));
    assert_ne!(x, y, "the fixture must actually differ");
    s.put("A/c.png", &x);
    s.put("B/c.png", &y);
    s.put("C/c.png", &y);
    let p = s.plan(None);
    assert_eq!(p.moves.len(), 3, "{p:?}");
    assert!(matches!(p.moves[0].collision, Collision::Vacant), "{p:?}");
    assert!(matches!(p.moves[1].collision, Collision::Renamed), "{p:?}");
    assert!(
        matches!(p.moves[2].collision, Collision::AlreadyFiled),
        "content already claimed under a suffix must read as AlreadyFiled: {p:?}"
    );
    assert_eq!(p.moves[2].to, p.moves[1].to, "it is the same content, so the same destination");

    let r = apply_all_moved(&p);
    assert!(r.errors.is_empty(), "{:?}", r.errors);
    assert_eq!((r.moved, r.renamed, r.already_filed), (1, 1, 1));
}

#[test]
fn an_unlistable_destination_directory_is_reported_not_treated_as_free() {
    let mut s = Snapshot::new();
    let src = s.put("in/c.png", &kk_female());
    s.listings.push((at("Koikatu/Female"), Listing::Unlistable("Not a directory (os error 20)".to_string())));
    let p = s.plan(None);
    assert!(p.moves.is_empty(), "an unknown collision status must plan no move: {p:?}");
    assert_eq!(p.unreadable.len(), 1, "{p:?}");
    assert_eq!(p.unreadable[0].path, src);
    assert!(p.unreadable[0].reason.contains("could not be listed"), "{}", p.unreadable[0].reason);

    let r = apply_all_moved(&p);
    assert_eq!(r.moved, 0);
    assert!(r.errors.is_empty(), "nothing was planned, so nothing errors: {:?}", r.errors);
}

#[test]
fn apply_refuses_to_move_onto_a_destination_that_exists_despite_the_plan() {
    for collision in [Collision::Vacant, Collision::Renamed] {
        let m = Planned { from: at("in/c.png"), to: at("Koikatu/Female/c.png"), collision };
        let mut r = ApplyResult::default();
        record_move(&mut r, &m, &MoveOutcome::DestinationExists);
        assert_eq!(r.errors.len(), 1, "{collision:?}: {:?}", r.errors);
        assert_eq!(r.moved, 0, "{collision:?}");
        assert_eq!(r.renamed, 0, "{collision:?}");
        assert!(r.errors[0].contains("the destination already exists"), "{:?}", r.errors);
    }
}

#[test]
fn a_move_that_copied_but_could_not_remove_the_source_says_so() {
    let m = Planned { from: at("in/c.png"), to: at("Koikatu/Female/c.png"), collision: Collision::Vacant };
    let mut r = ApplyResult::default();
    record_move(&mut r, &m, &MoveOutcome::CopiedNotRemoved { err: "busy".to_string() });
    assert_eq!(r.moved, 0);
    assert_eq!(
        r.errors,
        vec![format!(
            "{} -> {}: copied successfully but the source file could not be removed (busy); delete {} manually to finish the move",
            m.from, m.to, m.from
        )]
    );
    let mut r2 = ApplyResult::default();
    record_move(&mut r2, &m, &MoveOutcome::MoveFailed { err: "denied".to_string() });
    assert_eq!(r2.errors, vec![format!("{} -> {}: move failed (denied)", m.from, m.to)]);
    let mut r3 = ApplyResult::default();
    record_move(&mut r3, &m, &MoveOutcome::CreateDirFailed { dir: "/x".to_string(), err: "ro".to_string() });
    assert_eq!(r3.errors, vec!["/x: ro".to_string()]);
    let mut r4 = ApplyResult::default();
    record_move(&mut r4, &m, &MoveOutcome::NoParent);
    assert_eq!(r4.errors, vec![format!("{}: destination has no parent", m.to)]);
}

#[test]
fn every_planned_move_is_counted_exactly_once() {
    let mut s = Snapshot::new();
    let x = kk_female();
    let y = card("【KoiKatuChara】", 1, "別", "人", Some(2));
    s.put("A/c.png", &x);
    s.put("B/c.png", &y);
    s.put("C/c.png", &y);
    s.put("D/d.png", &x);
    let p = s.plan(None);
    let outcomes = [MoveOutcome::Moved, MoveOutcome::MoveFailed { err: "e".to_string() }, MoveOutcome::Moved, MoveOutcome::Moved];
    let mut r = ApplyResult::default();
    for (m, o) in p.moves.iter().zip(outcomes.iter()) {
        record_move(&mut r, m, o);
    }
    assert_eq!(r.moved + r.renamed + r.already_filed + r.errors.len(), p.moves.len());
}

#[test]
fn every_walked_file_lands_in_exactly_one_bucket() {
    let mut s = Snapshot::new();
    s.put("Koikatu/Female/old.png", &kk_female());
    s.put("in/new.png", &kk_female());
    s.put("in/scene.png", &card("【KStudio】", 1, "a", "b", Some(1)));
    s.put("in/junk.png", b"junk");
    let p = s.plan(None);
    assert_eq!(p.moves.len() + p.skipped.len() + p.unrecognized.len() + p.unreadable.len(), 4, "{p:?}");
    assert_eq!(p.skipped, vec![at("Koikatu/Female/old.png")]);
}

// ---------------------------------------------------------------------------
// Personality voices.
// ---------------------------------------------------------------------------

fn pcm_dir() -> String {
    at("game/abdata/sound/data/pcm")
}

#[test]
fn a_kks_card_with_an_unsupported_personality_is_flagged() {
    let listing = Ok((0..=2).map(|n| (format!("c{n:02}"), true)).collect::<Vec<_>>());
    let support = voice_support_from(&pcm_dir(), &listing);
    assert_eq!(support.ids.len(), 3, "derived from the install, not hardcoded");

    let mut s = Snapshot::new();
    let bad = s.put("in/mute.png", &card("【KoiKatuCharaSun】", 1, "c", "d", Some(77)));
    s.put("in/ok.png", &card("【KoiKatuCharaSun】", 1, "a", "b", Some(2)));
    let p = s.plan(Some(&support));
    assert_eq!(p.voice_incompatible.len(), 1, "{p:?}");
    assert_eq!(p.voice_incompatible[0].path, bad);
    assert_eq!(p.voice_incompatible[0].personality, 77);
    assert_eq!(p.moves.len(), 2, "both KKS cards still get filed");
}

#[test]
fn a_kk_card_is_never_voice_flagged() {
    let support = voice_support_from(&pcm_dir(), &Ok(vec![("c00".to_string(), true)]));
    let mut s = Snapshot::new();
    s.put("in/kk.png", &card("【KoiKatuChara】", 1, "a", "b", Some(77)));
    let p = s.plan(Some(&support));
    assert!(p.voice_incompatible.is_empty(), "{p:?}");
}

#[test]
fn without_a_game_root_no_voice_claim_is_made() {
    let mut s = Snapshot::new();
    s.put("in/kks.png", &card("【KoiKatuCharaSun】", 1, "a", "b", Some(77)));
    let p = s.plan(None);
    assert!(p.voice_incompatible.is_empty());
}

#[test]
fn an_already_filed_kks_card_with_an_unsupported_personality_is_still_flagged() {
    let support = voice_support_from(&pcm_dir(), &Ok(vec![("c00".to_string(), true)]));
    let mut s = Snapshot::new();
    let filed = s.put("KoikatsuSunshine/Female/c.png", &card("【KoiKatuCharaSun】", 1, "a", "b", Some(77)));
    let p = s.plan(Some(&support));
    assert_eq!(p.voice_incompatible.len(), 1, "{p:?}");
    assert_eq!(p.voice_incompatible[0].path, filed);
    assert_eq!(p.voice_incompatible[0].personality, 77);
    assert_eq!(p.skipped, vec![filed], "still just skipped, never an error");
    assert!(p.moves.is_empty(), "an already-filed card must not move: {p:?}");
}

#[test]
fn an_already_filed_unreadable_png_stays_skipped_and_is_also_reported() {
    let support = voice_support_from(&pcm_dir(), &Ok(vec![("c00".to_string(), true)]));
    let mut s = Snapshot::new();
    let filed = s.put("KoikatsuSunshine/Female/broken.png", b"\x89PNG\r\n\x1a\nnot really a png body");
    let p = s.plan(Some(&support));
    assert_eq!(p.skipped, vec![filed.clone()], "{p:?}");
    assert!(p.moves.is_empty());
    assert_eq!(p.unreadable.len(), 1, "{p:?}");
    assert_eq!(p.unreadable[0].path, filed);
}

#[test]
fn an_already_filed_card_is_not_read_without_a_voice_check() {
    let mut s = Snapshot::new();
    s.put("KoikatsuSunshine/Female/broken.png", b"junk");
    let p = s.plan(None);
    assert_eq!(p.skipped.len(), 1);
    assert!(p.unreadable.is_empty(), "{p:?}");
}

#[test]
fn a_failed_scan_makes_no_voice_claim() {
    let support = voice_support_from(&pcm_dir(), &Err("No such file or directory (os error 2)".to_string()));
    assert!(!support.ok, "a missing pcm directory is a failed scan, not an empty install");
    assert!(support.ids.is_empty());
    assert!(support.source.contains("scan failed"), "{}", support.source);

    let mut s = Snapshot::new();
    s.put("in/kks.png", &card("【KoiKatuCharaSun】", 1, "a", "b", Some(77)));
    let p = s.plan(Some(&support));
    assert!(p.voice_incompatible.is_empty(), "a failed scan must not flag any card: {p:?}");
}

#[test]
fn a_genuinely_empty_install_is_distinguishable_from_a_failed_scan() {
    let support = voice_support_from(&pcm_dir(), &Ok(Vec::new()));
    assert!(support.ok, "the directory was read successfully, just empty");
    assert!(support.ids.is_empty());

    let mut s = Snapshot::new();
    s.put("in/kks.png", &card("【KoiKatuCharaSun】", 1, "a", "b", Some(77)));
    let p = s.plan(Some(&support));
    assert_eq!(p.voice_incompatible.len(), 1, "a genuinely empty install really does not support this personality: {p:?}");
}

#[test]
fn a_file_named_like_a_personality_folder_is_not_counted() {
    let support = voice_support_from(&pcm_dir(), &Ok(vec![("c05".to_string(), false)]));
    assert!(support.ids.is_empty(), "a file, not a directory, must not count: {:?}", support.ids);
}

#[test]
fn special_voice_folders_are_not_personalities() {
    let listing = Ok(vec![
        ("c-1".to_string(), true),
        ("c-100".to_string(), true),
        ("c07".to_string(), true),
        ("cx".to_string(), true),
        ("readme".to_string(), true),
    ]);
    let support = voice_support_from(&pcm_dir(), &listing);
    assert!(support.ok);
    assert_eq!(support.ids.iter().copied().collect::<Vec<_>>(), vec![7]);
    assert!(support.source.contains("1 personality ids"), "{}", support.source);
}

// ---------------------------------------------------------------------------
// Walking.
// ---------------------------------------------------------------------------

fn entry(dir: &str, name: &str, kind: Result<EntryKind, String>) -> Result<WalkEntry, ()> {
    Ok(WalkEntry { name: name.to_string(), path: join(dir, name), kind })
}

#[test]
fn non_recursive_mode_ignores_subfolders() {
    let listing = vec![entry(ROOT, "top.png", Ok(EntryKind::File)), entry(ROOT, "sub", Ok(EntryKind::Dir))];
    let w = walk_step(ROOT, false, listing);
    assert!(w.errors.is_empty());
    assert_eq!(w.items.len(), 1, "only the top-level card: {:?}", w.items);
    assert!(matches!(&w.items[0], WalkItem::File(p) if *p == at("top.png")));
}

#[test]
fn a_recursive_walk_descends_in_name_order() {
    let listing = vec![
        entry(ROOT, "b.png", Ok(EntryKind::File)),
        entry(ROOT, "a", Ok(EntryKind::Dir)),
        entry(ROOT, "C.PNG", Ok(EntryKind::File)),
        entry(ROOT, "notes.txt", Ok(EntryKind::File)),
        entry(ROOT, "link", Ok(EntryKind::Other)),
    ];
    let w = walk_step(ROOT, true, listing);
    let got: Vec<String> = w
        .items
        .iter()
        .map(|i| match i {
            WalkItem::File(p) => format!("file {p}"),
            WalkItem::Descend(p) => format!("dir {p}"),
            WalkItem::Failure(u) => format!("failure {}", u.path),
        })
        .collect();
    assert_eq!(
        got,
        vec![format!("file {}", at("C.PNG")), format!("dir {}", at("a")), format!("file {}", at("b.png"))]
    );
}

#[test]
fn walk_failures_are_reported_not_dropped() {
    let listing = vec![
        Err(()),
        entry(ROOT, "x.png", Err("access denied".to_string())),
        entry(ROOT, "y.png", Ok(EntryKind::File)),
        Err(()),
    ];
    let w = walk_step(ROOT, true, listing);
    assert_eq!(w.errors.len(), 2);
    assert!(w.errors.iter().all(|u| u.path == ROOT && u.reason.contains("could not be enumerated")));
    assert_eq!(w.items.len(), 2);
    assert!(matches!(&w.items[0], WalkItem::Failure(u) if u.path == at("x.png") && u.reason.contains("access denied")));
    assert!(matches!(&w.items[1], WalkItem::File(p) if *p == at("y.png")));
}

// ---------------------------------------------------------------------------
// Carrying out a move.
// ---------------------------------------------------------------------------

/// Runs the move machine against scripted answers, returning the actions it
/// asked for and the outcome.
fn run_move(m: &Planned, answers: &[MoveEvent]) -> (Vec<String>, Option<MoveOutcome>) {
    let mut asked = Vec::new();
    let mut action = next_move_action(m, &MoveAction::CheckDestination, &MoveEvent::Start);
    for ev in answers {
        match &action {
            MoveAction::Finish(_) => break,
            MoveAction::CheckDestination => asked.push("check".to_string()),
            MoveAction::CreateDir(d) => asked.push(format!("mkdir {d}")),
            MoveAction::Rename => asked.push("rename".to_string()),
            MoveAction::Copy => asked.push("copy".to_string()),
            MoveAction::RemoveSource => asked.push("remove".to_string()),
        }
        action = next_move_action(m, &action, ev);
    }
    match action {
        MoveAction::Finish(o) => (asked, Some(o)),
        _ => (asked, None),
    }
}

fn planned_move() -> Planned {
    Planned { from: at("in/c.png"), to: at("Koikatu/Female/c.png"), collision: Collision::Vacant }
}

#[test]
fn a_free_destination_is_created_and_renamed_onto() {
    let (asked, o) = run_move(&planned_move(), &[MoveEvent::Exists(false), MoveEvent::Done, MoveEvent::Done]);
    assert_eq!(asked, vec!["check".to_string(), format!("mkdir {}", at("Koikatu/Female")), "rename".to_string()]);
    assert!(matches!(o, Some(MoveOutcome::Moved)));
}

#[test]
fn an_occupied_destination_ends_the_move_untouched() {
    let (asked, o) = run_move(&planned_move(), &[MoveEvent::Exists(true), MoveEvent::Done]);
    assert_eq!(asked, vec!["check".to_string()]);
    assert!(matches!(o, Some(MoveOutcome::DestinationExists)));
}

#[test]
fn a_failed_rename_falls_back_to_copy_and_remove() {
    let m = planned_move();
    let (asked, o) = run_move(
        &m,
        &[MoveEvent::Exists(false), MoveEvent::Done, MoveEvent::Failed("cross-device".to_string()), MoveEvent::Done, MoveEvent::Done],
    );
    assert_eq!(asked.len(), 5);
    assert_eq!(&asked[2..], &["rename".to_string(), "copy".to_string(), "remove".to_string()]);
    assert!(matches!(o, Some(MoveOutcome::Moved)));

    let (_, o) = run_move(
        &m,
        &[MoveEvent::Exists(false), MoveEvent::Done, MoveEvent::Failed("x".to_string()), MoveEvent::Done, MoveEvent::Failed("busy".to_string())],
    );
    assert!(matches!(o, Some(MoveOutcome::CopiedNotRemoved { ref err }) if err == "busy"));

    let (_, o) = run_move(
        &m,
        &[MoveEvent::Exists(false), MoveEvent::Done, MoveEvent::Failed("x".to_string()), MoveEvent::Failed("no space".to_string())],
    );
    assert!(matches!(o, Some(MoveOutcome::MoveFailed { ref err }) if err == "no space"));

    let (_, o) = run_move(&m, &[MoveEvent::Exists(false), MoveEvent::Failed("read-only".to_string())]);
    assert!(matches!(o, Some(MoveOutcome::CreateDirFailed { ref dir, ref err }) if *dir == at("Koikatu/Female") && err == "read-only"));
}

#[test]
fn a_destination_without_a_parent_cannot_be_moved_onto() {
    let m = Planned { from: "c.png".to_string(), to: "/".to_string(), collision: Collision::Vacant };
    let (_, o) = run_move(&m, &[MoveEvent::Exists(false)]);
    assert!(matches!(o, Some(MoveOutcome::NoParent)));
}

#[test]
fn the_voice_folder_is_found_under_the_game_root() {
    assert_eq!(voice_dir("/game"), join(&join(&join(&join("/game", "abdata"), "sound"), "data"), "pcm"));
}

#[test]
fn a_voice_check_does_not_change_where_cards_go() {
    let mut s = Snapshot::new();
    s.put("KoikatsuSunshine/Female/old.png", &card("【KoiKatuCharaSun】", 1, "a", "b", Some(77)));
    s.put("in/a.png", &card("【KoiKatuCharaSun】", 1, "c", "d", Some(77)));
    s.put("in/b.png", &kk_female());
    let support = voice_support_from(&pcm_dir(), &Ok(vec![("c00".to_string(), true)]));
    let with = s.plan(Some(&support));
    let without = s.plan(None);
    assert_eq!(with.voice_incompatible.len(), 2);
    assert_eq!(with.skipped, without.skipped);
    let targets = |p: &Plan| p.moves.iter().map(|m| (m.from.clone(), m.to.clone(), m.collision)).collect::<Vec<_>>();
    assert_eq!(targets(&with), targets(&without));
}

#[test]
fn cards_differing_only_in_names_go_to_the_same_folder() {
    let a = parse_card(&card("【KoiKatuChara】", 1, "東山", "涼子", Some(19))).unwrap();
    let b = parse_card(&card("【KoiKatuChara】", 1, "x", "y", None)).unwrap();
    assert_eq!(destination(ROOT, &a), destination(ROOT, &b));
}

#[test]
fn destination_folders_match_whole_names_in_any_ascii_case() {
    for name in ["Koikatu", "koikatu", "KOIKATSUSUNSHINE", "HoneyCome", "svc", "Aicomi"] {
        assert!(is_destination_folder(name), "{name}");
    }
    for name in ["Koikatu_F_2026", "Koikat", "Studio", "", "Koikatu "] {
        assert!(!is_destination_folder(name), "{name}");
    }
}

#[test]
fn the_first_namesake_in_listing_order_is_the_answer() {
    let dir = "/d";
    let listing = Listing::Entries(vec![
        Ok(DirEntry { name: "x.png".to_string(), path: "/d/x.png".to_string() }),
        Ok(DirEntry { name: "Ç.PNG".to_string(), path: "/d/first".to_string() }),
        Ok(DirEntry { name: "ç.png".to_string(), path: "/d/second".to_string() }),
        Err("unreadable entry".to_string()),
    ]);
    assert_eq!(existing_case_insensitive(dir, "ç.png", &listing).unwrap(), Some("/d/first".to_string()));
    let err = existing_case_insensitive(dir, "y.png", &listing).unwrap_err();
    assert!(err.contains("unreadable entry"), "{err}");
}

#[test]
fn each_kind_of_move_is_counted_apart() {
    let mk = |c: Collision| Planned { from: at("in/c.png"), to: at("Koikatu/Female/c.png"), collision: c };
    let moves = [mk(Collision::AlreadyFiled), mk(Collision::Vacant), mk(Collision::Unresolvable), mk(Collision::Renamed), mk(Collision::AlreadyFiled)];
    let outcomes = [MoveOutcome::Moved, MoveOutcome::DestinationExists, MoveOutcome::Moved, MoveOutcome::Moved, MoveOutcome::Moved];
    let mut r = ApplyResult::default();
    for (m, o) in moves.iter().zip(outcomes.iter()) {
        record_move(&mut r, m, o);
    }
    assert_eq!(r.already_filed, 2);
    assert_eq!(r.moved, 0);
    assert_eq!(r.renamed, 1);
    assert_eq!(r.errors.len(), 2, "one for the unresolvable move, one for the failed write: {:?}", r.errors);
}
