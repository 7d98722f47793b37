//! The byte-level parts of de-duplication and the bookkeeping around the
//! store's rows.

use koikatsu_dedupe::dedup::{
    char_hash, char_len, count_pngs, delete_target, group_col, group_counts, hash_char_block, hash_file, png_char_block, sql_limit,
    vanished, DeleteTally, FileEntry, Group, HEAD,
};
use koikatsu_dedupe::paths::join;

fn png_prefix() -> Vec<u8> {
    let mut v = vec![0x89, b'P', b'N', b'G', 0x0D, 0x0A, 0x1A, 0x0A];
    v.extend_from_slice(&13u32.to_be_bytes());
    v.extend_from_slice(b"IHDR");
    v.extend_from_slice(&[0u8; 13]);
    v.extend_from_slice(&[0u8; 4]);
    v.extend_from_slice(&0u32.to_be_bytes());
    v.extend_from_slice(b"IEND");
    v.extend_from_slice(&[0u8; 4]);
    v
}

/// A PNG with one extra chunk of `n` data bytes before IEND.
fn png_with_chunk(n: u32) -> Vec<u8> {
    let mut v = vec![0x89, b'P', b'N', b'G', 0x0D, 0x0A, 0x1A, 0x0A];
    v.extend_from_slice(&n.to_be_bytes());
    v.extend_from_slice(b"tEXt");
    v.extend(std::iter::repeat(7u8).take(n as usize));
    v.extend_from_slice(&[0u8; 4]);
    v.extend_from_slice(&0u32.to_be_bytes());
    v.extend_from_slice(b"IEND");
    v.extend_from_slice(&[0u8; 4]);
    v
}

#[test]
fn group_col_picks_the_column_of_the_mode() {
    assert_eq!(group_col("char"), "char_hash");
    assert_eq!(group_col("byte"), "full_hash");
    assert_eq!(group_col(""), "full_hash");
}

#[test]
fn the_char_block_starts_right_after_iend() {
    let mut data = png_prefix();
    let img = data.len() as u64;
    data.extend_from_slice(b"character data");
    assert_eq!(png_char_block(&data), Some((img, 14)));
    assert_eq!(char_len(&data), 14);
}

#[test]
fn a_png_with_nothing_appended_has_an_empty_char_block() {
    let data = png_prefix();
    assert_eq!(png_char_block(&data), Some((data.len() as u64, 0)));
    assert_eq!(char_len(&data), 0);
}

#[test]
fn a_non_png_or_a_broken_chunk_chain_has_no_char_block() {
    assert_eq!(png_char_block(b"not a png at all"), None);
    assert_eq!(png_char_block(&[]), None);
    let mut cut = png_prefix();
    cut.truncate(20);
    assert_eq!(png_char_block(&cut), None);
    let mut runs_past = vec![0x89, b'P', b'N', b'G', 0x0D, 0x0A, 0x1A, 0x0A];
    runs_past.extend_from_slice(&100u32.to_be_bytes());
    runs_past.extend_from_slice(b"IHDR");
    assert_eq!(png_char_block(&runs_past), None);
    assert_eq!(char_len(&runs_past), 0);
    assert_eq!(char_hash(&runs_past), None);
}

#[test]
fn an_iend_that_claims_more_than_the_file_holds_gives_an_empty_block() {
    let mut v = vec![0x89, b'P', b'N', b'G', 0x0D, 0x0A, 0x1A, 0x0A];
    v.extend_from_slice(&50u32.to_be_bytes());
    v.extend_from_slice(b"IEND");
    assert_eq!(png_char_block(&v), Some((8 + 12 + 50, 0)));
}

#[test]
fn hashes_are_canonical_xxhash64_in_sixteen_hex_digits() {
    assert_eq!(hash_file(b"", None), "ef46db3751d8e999");
    assert_eq!(hash_file(b"a", None), "d24ec4f1a98c6e5b");
    assert_eq!(hash_file(b"abc", None), "44bc2cf5ad770999");
}

#[test]
fn a_limited_hash_covers_only_the_first_bytes() {
    assert_eq!(hash_file(b"abcdef", Some(3)), hash_file(b"abc", None));
    assert_eq!(hash_file(b"abc", Some(10)), hash_file(b"abc", None));
    assert_eq!(hash_file(b"abc", Some(0)), hash_file(b"", None));
    assert_ne!(hash_file(b"abcdef", Some(4)), hash_file(b"abcdef", None));
}

#[test]
fn a_file_within_head_has_its_head_hash_as_full_hash() {
    let data = vec![3u8; 5000];
    assert_eq!(hash_file(&data, Some(HEAD)), hash_file(&data, None));
}

#[test]
fn the_char_block_hash_is_the_hash_of_the_appended_bytes() {
    let mut data = png_prefix();
    let off = data.len() as u64;
    data.extend_from_slice(b"abc");
    assert_eq!(hash_char_block(&data, off), "44bc2cf5ad770999");
    assert_eq!(char_hash(&data), Some("44bc2cf5ad770999".to_string()));
    assert_eq!(hash_char_block(&data, 1_000_000), "ef46db3751d8e999");
}

#[test]
fn two_cards_with_different_covers_and_the_same_block_share_a_char_hash() {
    let mut a = png_prefix();
    a.extend_from_slice(b"same character block");
    let mut b = png_with_chunk(40);
    b.extend_from_slice(b"same character block");
    assert_ne!(a, b);
    assert_eq!(char_hash(&a), char_hash(&b));
    assert_eq!(char_len(&a), char_len(&b));
    assert_ne!(hash_file(&a, None), hash_file(&b, None));
}

#[test]
fn a_limit_beyond_i64_means_no_limit() {
    assert_eq!(sql_limit(0), 0);
    assert_eq!(sql_limit(100), 100);
    assert_eq!(sql_limit(i64::MAX as usize), i64::MAX);
    assert_eq!(sql_limit(usize::MAX), -1);
}

#[test]
fn vanished_rows_are_those_not_seen_in_store_order() {
    let existing = vec!["/r/a.png".to_string(), "/r/b.png".to_string(), "/r/c.png".to_string(), "/r/d.png".to_string()];
    let seen = vec!["/r/c.png".to_string(), "/r/a.png".to_string(), "/r/e.png".to_string()];
    assert_eq!(vanished(&existing, &seen), vec!["/r/b.png".to_string(), "/r/d.png".to_string()]);
    assert!(vanished(&existing, &existing).is_empty());
    assert_eq!(vanished(&existing, &Vec::new()), existing);
}

#[test]
fn only_png_files_are_counted() {
    let entries = vec![
        ("/r/a.png".to_string(), true),
        ("/r/B.PNG".to_string(), true),
        ("/r/dir.png".to_string(), false),
        ("/r/c.jpg".to_string(), true),
        ("/r/png".to_string(), true),
        ("/r/d.Png".to_string(), true),
    ];
    assert_eq!(count_pngs(&entries), 3);
    assert_eq!(count_pngs(&Vec::new()), 0);
}

#[test]
fn a_stored_row_shows_its_file_name() {
    let e = FileEntry::from_row("/r/sub/c.png".to_string(), 42);
    assert_eq!(e.name, "c.png");
    assert_eq!(e.path, "/r/sub/c.png");
    assert_eq!(e.size, 42);
    let root = FileEntry::from_row("/".to_string(), 0);
    assert_eq!(root.name, "");
}

#[test]
fn a_deletion_by_bare_name_looks_directly_under_the_root() {
    assert_eq!(delete_target("/r", "c.png"), join("/r", "c.png"));
    assert_eq!(delete_target("/r", "/elsewhere/sub/c.png"), join("/r", "c.png"));
    assert_eq!(delete_target("/r", "sub/c.png"), join("/r", "c.png"));
    assert_eq!(delete_target("/r", ".."), join("/r", ".."));
}

#[test]
fn a_deletion_by_full_path_inside_the_root_names_exactly_that_file() {
    let nested = join(&join("/r", "sub"), "a.png");
    assert_eq!(delete_target("/r", &nested), nested);
    assert_eq!(delete_target("/r", "/r/a.png"), "/r/a.png");
    assert_ne!(delete_target("/r", &nested), join("/r", "a.png"), "the top-level namesake must not be named");
}

#[test]
fn a_path_that_climbs_out_of_the_root_is_not_taken_as_is() {
    assert_eq!(delete_target("/r", "/r/../x.png"), join("/r", "x.png"));
    assert_eq!(delete_target("/r", "/r"), join("/r", "r"));
}

#[test]
fn a_deletion_tally_counts_deleted_files_and_reports_the_rest() {
    let mut t = DeleteTally::new();
    t.record("a.png", Ok(10));
    t.record("b.png", Err("No such file or directory (os error 2)".to_string()));
    t.record("c.png", Ok(5));
    assert_eq!(t.deleted, 2);
    assert_eq!(t.freed, 15);
    assert_eq!(t.errors, vec!["b.png: No such file or directory (os error 2)".to_string()]);
    assert_eq!(t.deleted + t.errors.len(), 3);
}

#[test]
fn statistics_count_groups_and_the_files_in_them() {
    let g = |n: usize| Group {
        hash: "h".to_string(),
        files: (0..n).map(|i| FileEntry::from_row(format!("/r/{i}.png"), 1)).collect(),
    };
    assert_eq!(group_counts(&vec![g(2), g(3), g(2)]), (3, 7));
    assert_eq!(group_counts(&Vec::new()), (0, 0));
}
