//! Classify Koikatsu cards into `[Game]/[Male|Female]` (or
//! `[Game]/[CardType]`) folders. Planning is read-only: it works on a
//! snapshot of what the walk found (each card's bytes, the listings of the
//! destination folders, the bytes of files already there) and decides where
//! every card goes; moving files is left to the caller.
//!
//! Paths are held as strings.

use vstd::prelude::*;
use std::collections::BTreeSet;
use crate::card::{
    card_type_folder, error_reason, game_folder, parse_card, sex_folder, spec_read_card, CardError,
    CardErrorModel, CardMeta, CardModel, CardType, Game,
};
use crate::paths::{
    extension, file_name, file_stem, first_component, join, joined, parent, path_extension,
    path_file_name, path_file_stem, path_first_component, path_parent, path_strip_prefix, strip_prefix,
};
use crate::text::{
    ascii_ci_eq, bytes_eq, bytes_less, bytes_lt, debug_quoted, debug_str, decimal,
    decimal_string, eq_ignore_ascii_case, lemma_bytes_lt_irreflexive, lemma_bytes_lt_transitive,
    lowercase, str_eq, to_lowercase,
};
use vstd::utf8::encode_utf8;

verus! {

broadcast use vstd::std_specs::btree::group_btree_axioms;

#[derive(Debug, PartialEq, Eq, Clone, Copy, Structural)]
pub enum Collision {
    /// Nothing at the destination name.
    Vacant,
    /// Same name, byte-identical content: the card is already filed.
    AlreadyFiled,
    /// Same name, different content: file the incoming card under a new name.
    Renamed,
    /// Same name, different content, and every `name (N)` slot up to the
    /// search cap is taken (on disk or by another file in the same plan).
    /// Nothing is planned to move; `apply` reports it as an error.
    Unresolvable,
}

#[derive(Debug)]
pub struct Planned {
    pub from: String,
    pub to: String,
    pub collision: Collision,
}

pub struct PlannedModel {
    pub from: Seq<char>,
    pub to: Seq<char>,
    pub collision: Collision,
}

impl View for Planned {
    type V = PlannedModel;

    open spec fn view(&self) -> PlannedModel {
        PlannedModel { from: self.from@, to: self.to@, collision: self.collision }
    }
}

#[derive(Debug)]
pub struct ApplyResult {
    pub moved: usize,
    pub already_filed: usize,
    pub renamed: usize,
    pub errors: Vec<String>,
}

impl Default for ApplyResult {
    fn default() -> (r: Self)
        ensures
            r.moved == 0 && r.already_filed == 0 && r.renamed == 0 && r.errors@.len() == 0,
    {
        ApplyResult { moved: 0, already_filed: 0, renamed: 0, errors: Vec::new() }
    }
}

#[derive(Debug)]
pub struct Unreadable {
    pub path: String,
    pub reason: String,
}

pub struct UnreadableModel {
    pub path: Seq<char>,
    pub reason: Seq<char>,
}

impl View for Unreadable {
    type V = UnreadableModel;

    open spec fn view(&self) -> UnreadableModel {
        UnreadableModel { path: self.path@, reason: self.reason@ }
    }
}

#[derive(Debug)]
pub struct VoiceIssue {
    pub path: String,
    pub personality: i64,
}

pub struct VoiceIssueModel {
    pub path: Seq<char>,
    pub personality: i64,
}

impl View for VoiceIssue {
    type V = VoiceIssueModel;

    open spec fn view(&self) -> VoiceIssueModel {
        VoiceIssueModel { path: self.path@, personality: self.personality }
    }
}

/// Which personality ids the target install can actually voice.
///
/// Derived from the install, never hardcoded: a personality mod changes the
/// answer. Only the base `abdata` tree is read; `source` records what was
/// actually scanned so a report never overstates its own coverage.
///
/// `ok` tells "the scan ran and the install supports these (possibly zero)
/// personalities" apart from "the scan could not run at all". When `ok` is
/// `false` no voice claim is made, the same as without a `VoiceSupport`.
#[derive(Debug, Clone)]
pub struct VoiceSupport {
    pub ids: BTreeSet<i64>,
    pub source: String,
    pub ok: bool,
}

// ---------------------------------------------------------------------------
// Where a card belongs.
// ---------------------------------------------------------------------------

/// The folder under the destination game folder: the sex for a Character
/// card, the card type otherwise.
pub open spec fn leaf_folder(m: CardModel) -> Seq<char> {
    match m.card_type {
        CardType::Character => sex_folder(m.sex),
        other => card_type_folder(other),
    }
}

/// Where a card belongs: `root/<game>/<leaf>`.
pub open spec fn spec_destination(root: Seq<char>, m: CardModel) -> Seq<char> {
    joined(joined(root, game_folder(m.game)), leaf_folder(m))
}

/// Every Character card goes to its game's folder and then its sex's
/// folder, whatever the game; every other card goes to its game's folder
/// and then its card type's folder.
pub proof fn law_character_cards_are_filed_by_sex(root: Seq<char>, m: CardModel)
    ensures
        m.card_type == CardType::Character ==> spec_destination(root, m) == joined(
            joined(root, game_folder(m.game)),
            sex_folder(m.sex),
        ),
        m.card_type != CardType::Character ==> spec_destination(root, m) == joined(
            joined(root, game_folder(m.game)),
            card_type_folder(m.card_type),
        ),
{
}

/// A card's names never decide where it goes (they may not even be valid
/// UTF-8): two cards of the same game, kind and sex go to the same folder.
pub proof fn law_names_never_decide_where_a_card_goes(root: Seq<char>, a: CardModel, b: CardModel)
    requires
        a.game == b.game,
        a.card_type == b.card_type,
        a.sex == b.sex,
    ensures
        spec_destination(root, a) == spec_destination(root, b),
{
}

/// Where a card belongs, relative to the scan root.
pub fn destination(root: &str, meta: &CardMeta) -> (d: String)
    ensures
        d@ == spec_destination(root@, meta@),
{
    let leaf = match meta.card_type {
        CardType::Character => meta.sex.folder(),
        other => other.folder(),
    };
    let g = join(root, meta.game.folder());
    join(g.as_str(), leaf)
}

/// Whether `first` names one of the destination folders, ignoring ASCII case.
pub open spec fn is_dest_folder_name(first: Seq<char>) -> bool {
    exists|g: Game| ascii_ci_eq(encode_utf8(game_folder(g)), encode_utf8(first))
}

/// The exclusion rule: a file is already filed when the FIRST segment of its
/// path relative to the scan root is one of the destination folders. What
/// lies upstream of the root, and what a folder name merely contains, are
/// irrelevant.
pub open spec fn spec_in_dest_folder(root: Seq<char>, file: Seq<char>) -> bool {
    match path_strip_prefix(file, root) {
        None => false,
        Some(rel) => match path_first_component(rel) {
            None => false,
            Some(first) => is_dest_folder_name(first),
        },
    }
}

pub fn is_in_dest_folder(root: &str, file: &str) -> (r: bool)
    ensures
        r == spec_in_dest_folder(root@, file@),
{
    let rel = match strip_prefix(file, root) {
        Some(r) => r,
        None => return false,
    };
    match first_component(rel.as_str()) {
        Some(first) => is_destination_folder(first.as_str()),
        None => false,
    }
}

/// Whether a path segment is one of the destination folders (a game's
/// folder name, in any ASCII case).
pub fn is_destination_folder(first: &str) -> (r: bool)
    ensures
        r == is_dest_folder_name(first@),
{
    let games = [Game::Koikatu, Game::KoikatsuSunshine, Game::HoneyCome, Game::Svc, Game::Aicomi];
    let mut i: usize = 0;
    while i < 5
        invariant
            i <= 5,
            games@ == seq![Game::Koikatu, Game::KoikatsuSunshine, Game::HoneyCome, Game::Svc, Game::Aicomi],
            forall|j: int| 0 <= j < i ==> !ascii_ci_eq(encode_utf8(game_folder(#[trigger] games@[j])), encode_utf8(first@)),
        decreases 5 - i,
    {
        if eq_ignore_ascii_case(games[i].folder(), first) {
            assert(ascii_ci_eq(encode_utf8(game_folder(games@[i as int])), encode_utf8(first@)));
            return true;
        }
        i += 1;
    }
    assert forall|g: Game| !ascii_ci_eq(encode_utf8(game_folder(g)), encode_utf8(first@)) by {
        match g {
            Game::Koikatu => assert(games@[0] == g),
            Game::KoikatsuSunshine => assert(games@[1] == g),
            Game::HoneyCome => assert(games@[2] == g),
            Game::Svc => assert(games@[3] == g),
            Game::Aicomi => assert(games@[4] == g),
        }
    }
    false
}

/// Whether a path's extension is `png` in any ASCII case.
pub open spec fn spec_is_png(p: Seq<char>) -> bool {
    match path_extension(p) {
        Some(x) => ascii_ci_eq(encode_utf8(x), encode_utf8("png"@)),
        None => false,
    }
}

pub fn is_png(p: &str) -> (r: bool)
    ensures
        r == spec_is_png(p@),
{
    match extension(p) {
        Some(x) => eq_ignore_ascii_case(x.as_str(), "png"),
        None => false,
    }
}

// ---------------------------------------------------------------------------
// Personality voice check.
// ---------------------------------------------------------------------------

/// A card's personality, when the install the card is bound for cannot
/// voice it. Only Sunshine cards are checked (KK is the conversion target);
/// no claim is made without a successful scan or without a personality.
pub open spec fn spec_voice_issue(m: CardModel, voice: Option<(Set<i64>, bool)>) -> Option<i64> {
    if m.game != Game::KoikatsuSunshine {
        None
    } else {
        match voice {
            None => None,
            Some((ids, ok)) => if !ok {
                None
            } else {
                match m.personality {
                    None => None,
                    Some(pid) => if ids.contains(pid) {
                        None
                    } else {
                        Some(pid)
                    },
                }
            },
        }
    }
}

/// The model of an optional voice support: its id set and whether the scan ran.
pub open spec fn voice_model(voice: Option<&VoiceSupport>) -> Option<(Set<i64>, bool)> {
    match voice {
        None => None,
        Some(v) => Some((v.ids@, v.ok)),
    }
}

pub fn voice_issue(meta: &CardMeta, voice: Option<&VoiceSupport>) -> (r: Option<i64>)
    ensures
        r == spec_voice_issue(meta@, voice_model(voice)),
{
    if meta.game != Game::KoikatsuSunshine {
        return None;
    }
    let v = match voice {
        Some(v) => v,
        None => return None,
    };
    if !v.ok {
        return None;
    }
    let pid = match meta.personality {
        Some(p) => p,
        None => return None,
    };
    if v.ids.contains(&pid) {
        None
    } else {
        Some(pid)
    }
}

/// Whether a byte is an ASCII decimal digit.
pub open spec fn is_digit(b: u8) -> bool {
    0x30 <= b <= 0x39
}

/// The decimal value of a run of ASCII digits.
pub open spec fn digits_value(d: Seq<u8>) -> nat
    decreases d.len(),
{
    if d.len() == 0 {
        0
    } else {
        digits_value(d.drop_last()) * 10 + (d.last() - 0x30) as nat
    }
}

/// Whether every byte is an ASCII digit.
pub open spec fn all_digits(d: Seq<u8>) -> bool {
    forall|i: int| 0 <= i < d.len() ==> is_digit(#[trigger] d[i])
}

/// The text after a leading `+` or `-`, if there is one.
pub open spec fn unsigned_part(b: Seq<u8>) -> Seq<u8> {
    if b.len() > 0 && (b[0] == 0x2D || b[0] == 0x2B) {
        b.drop_first()
    } else {
        b
    }
}

/// What `str::parse::<i64>` gives for the UTF-8 bytes of a string: an
/// optional `+` or `-`, then one or more ASCII digits, in range.
pub open spec fn spec_parse_i64(b: Seq<u8>) -> Option<i64> {
    let neg = b.len() > 0 && b[0] == 0x2D;
    let d = unsigned_part(b);
    if d.len() == 0 || !all_digits(d) {
        None
    } else if neg {
        if digits_value(d) <= 0x8000_0000_0000_0000 {
            Some((0 - digits_value(d)) as i64)
        } else {
            None
        }
    } else if digits_value(d) <= 0x7FFF_FFFF_FFFF_FFFF {
        Some(digits_value(d) as i64)
    } else {
        None
    }
}

/// `str::parse::<i64>`, on the UTF-8 bytes of the text.
pub fn parse_i64(b: &[u8]) -> (r: Option<i64>)
    ensures
        r == spec_parse_i64(b@),
{
    let neg = b.len() > 0 && b[0] == 0x2D;
    let start: usize = if b.len() > 0 && (b[0] == 0x2D || b[0] == 0x2B) { 1 } else { 0 };
    let ghost d = unsigned_part(b@);
    assert(d =~= b@.subrange(start as int, b@.len() as int));
    if start == b.len() {
        return None;
    }
    let mut acc: u64 = 0;
    let mut i: usize = start;
    while i < b.len()
        invariant
            start <= i <= b@.len(),
            start < b@.len(),
            neg == (b@.len() > 0 && b@[0] == 0x2D),
            d == unsigned_part(b@),
            d == b@.subrange(start as int, b@.len() as int),
            acc as nat == digits_value(b@.subrange(start as int, i as int)),
            acc <= 0x8000_0000_0000_0000,
            forall|j: int| start <= j < i ==> is_digit(b@[j]),
        decreases b@.len() - i,
    {
        proof {
            assert(b@.subrange(start as int, i + 1).drop_last() =~= b@.subrange(start as int, i as int));
        }
        if !(0x30 <= b[i] && b[i] <= 0x39) {
            assert(d[i - start] == b@[i as int]);
            assert(!is_digit(d[i - start]));
            assert(!all_digits(d));
            assert(spec_parse_i64(b@) is None);
            return None;
        }
        let dig = (b[i] - 0x30) as u64;
        if acc > 0x0CCC_CCCC_CCCC_CCCC || acc * 10 + dig > 0x8000_0000_0000_0000 {
            proof {
                let v = digits_value(b@.subrange(start as int, i + 1));
                assert(v == acc * 10 + dig);
                assert(acc * 10 + dig > 0x8000_0000_0000_0000) by (nonlinear_arith)
                    requires
                        acc > 0x0CCC_CCCC_CCCC_CCCC || acc * 10 + dig > 0x8000_0000_0000_0000,
                ;
                assert(d.subrange(0, (i + 1 - start) as int) =~= b@.subrange(start as int, i + 1));
                if all_digits(d) {
                    lemma_digits_value_prefix_le(d, (i + 1 - start) as nat);
                    assert(digits_value(d) > 0x8000_0000_0000_0000);
                }
                assert(spec_parse_i64(b@) is None);
            }
            return None;
        }
        acc = acc * 10 + dig;
        i += 1;
    }
    assert(b@.subrange(start as int, b@.len() as int) =~= d);
    assert forall|j: int| 0 <= j < d.len() implies is_digit(d[j]) by {
        assert(d[j] == b@[start + j]);
    }
    assert(all_digits(d));
    if neg {
        if acc == 0x8000_0000_0000_0000 {
            Some(i64::MIN)
        } else {
            Some(0 - acc as i64)
        }
    } else if acc <= 0x7FFF_FFFF_FFFF_FFFF {
        Some(acc as i64)
    } else {
        None
    }
}

/// A digit run's value is at least that of any of its prefixes.
pub proof fn lemma_digits_value_prefix_le(d: Seq<u8>, k: nat)
    requires
        k <= d.len(),
        forall|j: int| 0 <= j < d.len() ==> is_digit(d[j]),
    ensures
        digits_value(d.subrange(0, k as int)) <= digits_value(d),
    decreases d.len() - k,
{
    if k < d.len() {
        lemma_digits_value_prefix_le(d, k + 1);
        assert(d.subrange(0, k + 1int).drop_last() =~= d.subrange(0, k as int));
    } else {
        assert(d.subrange(0, k as int) =~= d);
    }
}

/// The personality id a `pcm` entry name stands for: `c<N>` with `N >= 0`
/// (`c-1`, `c-100` and the like are special voices, not personalities).
pub open spec fn spec_personality_id(name: Seq<char>) -> Option<i64> {
    let b = encode_utf8(name);
    if b.len() > 0 && b[0] == 0x63 {
        match spec_parse_i64(b.drop_first()) {
            Some(n) => if n >= 0 {
                Some(n)
            } else {
                None
            },
            None => None,
        }
    } else {
        None
    }
}

pub fn personality_id(name: &str) -> (r: Option<i64>)
    ensures
        r == spec_personality_id(name@),
{
    let b = name.as_bytes();
    if b.len() == 0 || b[0] != 0x63 {
        return None;
    }
    let rest = &b[1..b.len()];
    assert(rest@ =~= b@.drop_first());
    match parse_i64(rest) {
        Some(n) => if n >= 0 {
            Some(n)
        } else {
            None
        },
        None => None,
    }
}

/// The byte of each character (meant for ASCII text).
pub open spec fn char_bytes(t: Seq<char>) -> Seq<u8> {
    Seq::new(t.len(), |i: int| t[i] as u8)
}

/// Whether every character is an ASCII decimal digit.
pub open spec fn digit_chars(t: Seq<char>) -> bool {
    forall|i: int| 0 <= i < t.len() ==> '0' <= #[trigger] t[i] <= '9'
}

proof fn lemma_digit_chars_value(t: Seq<char>)
    requires
        digit_chars(t),
    ensures
        all_digits(char_bytes(t)),
        char_bytes(t).len() == t.len(),
{
    assert forall|i: int| 0 <= i < char_bytes(t).len() implies is_digit(#[trigger] char_bytes(t)[i]) by {
        assert('0' <= t[i] <= '9');
    }
}

proof fn lemma_digit_char(d: nat)
    requires
        d < 10,
    ensures
        (('0' as nat + d) as char) as u8 == 48 + d,
        '0' <= ('0' as nat + d) as char <= '9',
{
    assert('0' as nat == 48);
    let c = ('0' as nat + d) as char;
    assert(c as nat == 48 + d);
    assert(c as u8 == (c as nat) as u8);
}

proof fn lemma_decimal_digits(n: nat)
    ensures
        decimal(n).len() > 0,
        digit_chars(decimal(n)),
        digits_value(char_bytes(decimal(n))) == n,
    decreases n,
{
    let d = decimal(n);
    if n < 10 {
        assert(char_bytes(d).drop_last() =~= Seq::<u8>::empty());
        assert(d[0] == ('0' as nat + n) as char);
        lemma_digit_char(n);
        assert(char_bytes(d).last() == 48 + n);
        assert(digits_value(char_bytes(d).drop_last()) == 0);
    } else {
        lemma_decimal_digits(n / 10);
        let h = decimal(n / 10);
        assert(d == h.push(('0' as nat + n % 10) as char));
        lemma_digit_char(n % 10);
        assert(char_bytes(d).last() == 48 + n % 10);
        assert(digits_value(char_bytes(h)) == n / 10);
        assert(char_bytes(d).drop_last() == char_bytes(h));
        assert(digits_value(char_bytes(d).drop_last()) == n / 10);
        assert(n == (n / 10) * 10 + n % 10);
        assert(char_bytes(d).drop_last() =~= char_bytes(h));
        assert forall|i: int| 0 <= i < d.len() implies '0' <= #[trigger] d[i] <= '9' by {
            if i < h.len() {
                assert(d[i] == h[i]);
            }
        }
    }
}

proof fn lemma_zeros_value(zs: Seq<char>, d: Seq<char>)
    requires
        forall|i: int| 0 <= i < zs.len() ==> #[trigger] zs[i] == '0',
    ensures
        digits_value(char_bytes(zs + d)) == digits_value(char_bytes(d)),
    decreases zs.len() + d.len(),
{
    if d.len() == 0 {
        assert(zs + d =~= zs);
        if zs.len() > 0 {
            lemma_zeros_value(zs.drop_last(), d);
            assert(char_bytes(zs).drop_last() =~= char_bytes(zs.drop_last()));
            assert(zs.drop_last() + d =~= zs.drop_last());
            assert(char_bytes(zs).last() == 0x30u8);
        } else {
            assert(char_bytes(zs + d) =~= Seq::<u8>::empty());
        }
        assert(char_bytes(d) =~= Seq::<u8>::empty());
    } else {
        lemma_zeros_value(zs, d.drop_last());
        assert((zs + d).drop_last() =~= zs + d.drop_last());
        assert(char_bytes(zs + d).drop_last() =~= char_bytes(zs + d.drop_last()));
        assert(char_bytes(d).drop_last() =~= char_bytes(d.drop_last()));
    }
}

/// Every folder named `c` and the decimal digits of a number `n >= 0`,
/// zero-padded or not (`c00`, `c13`, `c038`), stands for personality `n`.
pub proof fn law_every_c_number_folder_is_a_personality(zeros: nat, n: i64)
    requires
        n >= 0,
    ensures
        spec_personality_id("c"@ + Seq::new(zeros, |i: int| '0') + decimal(n as nat)) == Some(n),
{
    reveal_strlit("c");
    let zs = Seq::new(zeros, |i: int| '0');
    let dn = decimal(n as nat);
    let t = zs + dn;
    let name = "c"@ + t;
    lemma_decimal_digits(n as nat);
    lemma_zeros_value(zs, dn);
    assert(digit_chars(t)) by {
        assert forall|i: int| 0 <= i < t.len() implies '0' <= #[trigger] t[i] <= '9' by {
            if i >= zs.len() {
                assert(t[i] == dn[i - zs.len()]);
            }
        }
    }
    lemma_digit_chars_value(t);
    assert(vstd::utf8::is_ascii_chars(name)) by {
        assert forall|i: int| 0 <= i < name.len() implies '\0' <= #[trigger] name[i] <= '\u{7f}' by {
            if i > 0 {
                assert(name[i] == t[i - 1]);
            }
        }
    }
    vstd::utf8::is_ascii_chars_encode_utf8(name);
    let b = encode_utf8(name);
    assert(b =~= char_bytes(name));
    assert("c"@ =~= seq!['c']);
    assert(name[0] == 'c');
    assert(b[0] == 0x63);
    assert(b.drop_first() =~= char_bytes(t));
    let r = b.drop_first();
    assert(r.len() > 0);
    assert(is_digit(r[0]));
    assert(unsigned_part(r) == r);
    assert(digits_value(r) == n as nat);
    assert(spec_parse_i64(r) == Some(n));
    assert("c"@ + zs + dn =~= name);
}

/// The personality ids found among the entries of a `pcm` folder: only
/// directories count (a stray file named `c5` is not support for 5).
pub open spec fn pcm_ids(entries: Seq<(Seq<char>, bool)>) -> Set<i64>
    decreases entries.len(),
{
    if entries.len() == 0 {
        Set::empty()
    } else {
        let prev = pcm_ids(entries.drop_last());
        let (name, is_dir) = entries.last();
        if is_dir {
            match spec_personality_id(name) {
                Some(n) => prev.insert(n),
                None => prev,
            }
        } else {
            prev
        }
    }
}

/// The voice support read from a `pcm` folder at `dir`: the listing's
/// entries (name, is a directory), or the error that kept it from being
/// read. A failed read is a failed scan (`ok` false, no ids), not an empty
/// install.
pub open spec fn spec_voice_support(dir: Seq<char>, listing: Result<Seq<(Seq<char>, bool)>, Seq<char>>) -> (
    Set<i64>,
    Seq<char>,
    bool,
) {
    match listing {
        Err(e) => (
            Set::empty(),
            dir + ": scan failed ("@ + e + ") — no voice claim can be made"@,
            false,
        ),
        Ok(entries) => (
            pcm_ids(entries),
            dir + " ("@ + decimal(pcm_ids(entries).len()) + " personality ids; base abdata only — Sideloader-added personalities are not scanned)"@,
            true,
        ),
    }
}

pub open spec fn pcm_listing_model(l: Result<Vec<(String, bool)>, String>) -> Result<Seq<(Seq<char>, bool)>, Seq<char>> {
    match l {
        Ok(v) => Ok(Seq::new(v@.len(), |i: int| (v@[i].0@, v@[i].1))),
        Err(e) => Err(e@),
    }
}

/// The folder whose subfolders name the personalities an install can
/// voice: `abdata/sound/data/pcm` under the game root.
pub open spec fn spec_voice_dir(game_root: Seq<char>) -> Seq<char> {
    joined(joined(joined(joined(game_root, "abdata"@), "sound"@), "data"@), "pcm"@)
}

pub fn voice_dir(game_root: &str) -> (d: String)
    ensures
        d@ == spec_voice_dir(game_root@),
{
    let a = join(game_root, "abdata");
    let b = join(a.as_str(), "sound");
    let c = join(b.as_str(), "data");
    join(c.as_str(), "pcm")
}

/// Builds the voice support from what listing the install's `pcm` folder
/// gave.
pub fn voice_support_from(dir: &str, listing: &Result<Vec<(String, bool)>, String>) -> (v: VoiceSupport)
    ensures
        (v.ids@, v.source@, v.ok) == spec_voice_support(dir@, pcm_listing_model(*listing)),
{
    match listing {
        Err(e) => {
            let mut source = dir.to_owned();
            source.append(": scan failed (");
            source.append(e.as_str());
            source.append(") — no voice claim can be made");
            VoiceSupport { ids: BTreeSet::new(), source, ok: false }
        },
        Ok(entries) => {
            let ghost em = Seq::new(entries@.len(), |i: int| (entries@[i].0@, entries@[i].1));
            let mut ids: BTreeSet<i64> = BTreeSet::new();
            let mut i: usize = 0;
            assert(em.subrange(0, 0) =~= Seq::<(Seq<char>, bool)>::empty());
            while i < entries.len()
                invariant
                    em == Seq::new(entries@.len(), |i: int| (entries@[i].0@, entries@[i].1)),
                    i <= entries@.len(),
                    ids@ == pcm_ids(em.subrange(0, i as int)),
                decreases entries@.len() - i,
            {
                assert(em.subrange(0, i + 1).drop_last() =~= em.subrange(0, i as int));
                assert(em.subrange(0, i + 1).last() == em[i as int]);
                if entries[i].1 {
                    if let Some(n) = personality_id(entries[i].0.as_str()) {
                        ids.insert(n);
                    }
                }
                i += 1;
            }
            assert(em.subrange(0, em.len() as int) =~= em);
            let count = ids.len();
            let mut source = dir.to_owned();
            source.append(" (");
            let num = decimal_string(count as u64);
            source.append(num.as_str());
            source.append(" personality ids; base abdata only — Sideloader-added personalities are not scanned)");
            VoiceSupport { ids, source, ok: true }
        },
    }
}

// ---------------------------------------------------------------------------
// Failures met while walking and while checking for collisions.
// ---------------------------------------------------------------------------

/// A per-entry failure met while walking.
pub enum WalkError {
    /// The directory listing yielded an error for some entry inside `dir`;
    /// no path is known for that entry, only the directory being walked.
    Enumeration { dir: String },
    /// An entry was listed but its file type could not be read (`source`
    /// is the error's text).
    FileType { path: String, source: String },
}

/// The report a walk failure becomes.
pub open spec fn spec_walk_error(dir_or_path: Seq<char>, source: Option<Seq<char>>) -> UnreadableModel {
    match source {
        None => UnreadableModel {
            path: dir_or_path,
            reason: "an entry inside "@ + dir_or_path + " could not be enumerated"@,
        },
        Some(src) => UnreadableModel {
            path: dir_or_path,
            reason: "could not read file type: "@ + src,
        },
    }
}

/// Maps a per-entry walk failure into the `unreadable` bucket, so that it
/// is reported rather than dropped.
pub fn walk_error_to_unreadable(err: WalkError) -> (u: Unreadable)
    ensures
        u@ == match err {
            WalkError::Enumeration { dir } => spec_walk_error(dir@, None),
            WalkError::FileType { path, source } => spec_walk_error(path@, Some(source@)),
        },
{
    match err {
        WalkError::Enumeration { dir } => {
            let mut reason = "an entry inside ".to_owned();
            reason.append(dir.as_str());
            reason.append(" could not be enumerated");
            Unreadable { reason, path: dir }
        },
        WalkError::FileType { path, source } => {
            let mut reason = "could not read file type: ".to_owned();
            reason.append(source.as_str());
            Unreadable { reason, path }
        },
    }
}

/// A failure to list one entry of a destination directory while checking
/// for a name collision (`source` is the error's text).
pub struct CollisionScanError {
    pub dir: String,
    pub source: String,
}

/// The message for a collision-scan failure.
pub open spec fn scan_reason(dir: Seq<char>, source: Seq<char>) -> Seq<char> {
    dir + ": could not enumerate an entry while checking for a name collision: "@ + source
}

/// Maps a collision-scan failure to its message. The caller treats it as
/// "collision status unknown", never as "no collision".
pub fn collision_scan_error_to_reason(err: CollisionScanError) -> (r: String)
    ensures
        r@ == scan_reason(err.dir@, err.source@),
{
    let mut r = err.dir;
    r.append(": could not enumerate an entry while checking for a name collision: ");
    r.append(err.source.as_str());
    r
}

// ---------------------------------------------------------------------------
// Walking: what one directory listing contributes.
// ---------------------------------------------------------------------------

/// What a listed entry turned out to be.
#[derive(Debug, Clone, Copy, PartialEq, Eq, Structural)]
pub enum EntryKind {
    Dir,
    File,
    Other,
}

/// One listed entry of a directory being walked: its file name, its path,
/// and its type (or the error's text when the type could not be read).
#[derive(Debug)]
pub struct WalkEntry {
    pub name: String,
    pub path: String,
    pub kind: Result<EntryKind, String>,
}

pub struct WalkEntryModel {
    pub name: Seq<char>,
    pub path: Seq<char>,
    pub kind: Result<EntryKind, Seq<char>>,
}

impl View for WalkEntry {
    type V = WalkEntryModel;

    open spec fn view(&self) -> WalkEntryModel {
        WalkEntryModel {
            name: self.name@,
            path: self.path@,
            kind: match self.kind {
                Ok(k) => Ok(k),
                Err(e) => Err(e@),
            },
        }
    }
}

/// What the walk does with one entry, in the order it meets them.
#[derive(Debug)]
pub enum WalkItem {
    /// A PNG file: a card to plan.
    File(String),
    /// A subdirectory to walk next, before the following entries.
    Descend(String),
    /// An entry whose type could not be read: reported, never dropped.
    Failure(Unreadable),
}

pub enum WalkItemModel {
    File(Seq<char>),
    Descend(Seq<char>),
    Failure(UnreadableModel),
}

impl View for WalkItem {
    type V = WalkItemModel;

    open spec fn view(&self) -> WalkItemModel {
        match self {
            WalkItem::File(p) => WalkItemModel::File(p@),
            WalkItem::Descend(p) => WalkItemModel::Descend(p@),
            WalkItem::Failure(u) => WalkItemModel::Failure(u@),
        }
    }
}

/// What one directory listing contributes to the walk: one report for each
/// entry that could not be enumerated, then the entries' items in name order.
pub struct WalkStep {
    pub errors: Vec<Unreadable>,
    pub items: Vec<WalkItem>,
}

/// Where an entry goes among entries already in name order: after every
/// entry whose name is not greater (so equal names keep their order).
pub open spec fn insert_pos(s: Seq<WalkEntryModel>, e: WalkEntryModel) -> nat
    decreases s.len(),
{
    if s.len() == 0 {
        0
    } else if bytes_lt(encode_utf8(e.name), encode_utf8(s[0].name)) {
        0
    } else {
        insert_pos(s.drop_first(), e) + 1
    }
}

/// The entries in order of their names' bytes, equal names in listing order.
pub open spec fn by_name(es: Seq<WalkEntryModel>) -> Seq<WalkEntryModel>
    decreases es.len(),
{
    if es.len() == 0 {
        Seq::empty()
    } else {
        let s = by_name(es.drop_last());
        s.insert(insert_pos(s, es.last()) as int, es.last())
    }
}

/// The item an entry becomes, if any: a PNG file is a card, a directory is
/// walked only when the walk is recursive, anything else is passed over.
pub open spec fn entry_items(recursive: bool, e: WalkEntryModel) -> Seq<WalkItemModel> {
    match e.kind {
        Err(src) => seq![WalkItemModel::Failure(spec_walk_error(e.path, Some(src)))],
        Ok(EntryKind::Dir) => if recursive { seq![WalkItemModel::Descend(e.path)] } else { seq![] },
        Ok(EntryKind::File) => if spec_is_png(e.path) { seq![WalkItemModel::File(e.path)] } else { seq![] },
        Ok(EntryKind::Other) => seq![],
    }
}

/// The items of a run of entries, in order.
pub open spec fn items_of(recursive: bool, es: Seq<WalkEntryModel>) -> Seq<WalkItemModel>
    decreases es.len(),
{
    if es.len() == 0 {
        Seq::empty()
    } else {
        items_of(recursive, es.drop_last()) + entry_items(recursive, es.last())
    }
}

/// The entries a listing could enumerate, in listing order.
pub open spec fn listed_ok(l: Seq<Option<WalkEntryModel>>) -> Seq<WalkEntryModel>
    decreases l.len(),
{
    if l.len() == 0 {
        Seq::empty()
    } else {
        let rest = listed_ok(l.drop_last());
        match l.last() {
            Some(e) => rest.push(e),
            None => rest,
        }
    }
}

/// How many entries a listing failed to enumerate.
pub open spec fn listed_failures(l: Seq<Option<WalkEntryModel>>) -> nat
    decreases l.len(),
{
    if l.len() == 0 {
        0
    } else {
        listed_failures(l.drop_last()) + if l.last() is None { 1nat } else { 0nat }
    }
}

pub open spec fn listing_entries(l: Seq<Result<WalkEntry, ()>>) -> Seq<Option<WalkEntryModel>> {
    l.map_values(|r: Result<WalkEntry, ()>| match r {
        Ok(e) => Some(e@),
        Err(_) => None,
    })
}

/// Entries in name order: no later entry's name is smaller.
pub open spec fn in_name_order(s: Seq<WalkEntryModel>) -> bool {
    forall|i: int, j: int|
        0 <= i < j < s.len() ==> !bytes_lt(#[trigger] encode_utf8(s[j].name), #[trigger] encode_utf8(s[i].name))
}

proof fn lemma_insert_pos(s: Seq<WalkEntryModel>, e: WalkEntryModel)
    ensures
        insert_pos(s, e) <= s.len(),
        forall|k: int| 0 <= k < insert_pos(s, e) ==> !bytes_lt(encode_utf8(e.name), #[trigger] encode_utf8(s[k].name)),
        insert_pos(s, e) < s.len() ==> bytes_lt(encode_utf8(e.name), encode_utf8(s[insert_pos(s, e) as int].name)),
    decreases s.len(),
{
    if s.len() > 0 && !bytes_lt(encode_utf8(e.name), encode_utf8(s[0].name)) {
        lemma_insert_pos(s.drop_first(), e);
        assert forall|k: int| 0 <= k < insert_pos(s, e) implies !bytes_lt(encode_utf8(e.name), #[trigger] encode_utf8(s[k].name)) by {
            if k > 0 {
                assert(s[k] == s.drop_first()[k - 1]);
            }
        }
    }
}

/// The walk meets the entries of a directory in the order of their names,
/// and meets every enumerated entry exactly once.
pub proof fn law_walk_meets_entries_in_name_order(es: Seq<WalkEntryModel>)
    ensures
        in_name_order(by_name(es)),
        by_name(es).to_multiset() == es.to_multiset(),
    decreases es.len(),
{
    broadcast use vstd::seq_lib::to_multiset_insert, vstd::seq_lib::to_multiset_build;
    if es.len() > 0 {
        let s = by_name(es.drop_last());
        let e = es.last();
        law_walk_meets_entries_in_name_order(es.drop_last());
        lemma_insert_pos(s, e);
        let pos = insert_pos(s, e) as int;
        let r = s.insert(pos, e);
        assert forall|i: int, j: int| 0 <= i < j < r.len() implies !bytes_lt(
            #[trigger] encode_utf8(r[j].name),
            #[trigger] encode_utf8(r[i].name),
        ) by {
            let ne = encode_utf8(e.name);
            if j < pos {
                assert(r[i] == s[i] && r[j] == s[j]);
            } else if j == pos {
                assert(r[i] == s[i]);
            } else if i > pos {
                assert(r[i] == s[i - 1] && r[j] == s[j - 1]);
            } else if i == pos {
                assert(r[j] == s[j - 1]);
                let sp = encode_utf8(s[pos].name);
                if bytes_lt(encode_utf8(r[j].name), ne) {
                    lemma_bytes_lt_transitive(encode_utf8(r[j].name), ne, sp);
                    if j - 1 == pos {
                        lemma_bytes_lt_irreflexive(sp);
                    }
                }
            } else {
                assert(r[i] == s[i] && r[j] == s[j - 1]);
            }
        }
        assert(es =~= es.drop_last().push(e));
    } else {
        assert(by_name(es) =~= es);
    }
}

/// Puts `e` into `sorted` at its place by name.
fn insert_by_name(sorted: &mut Vec<WalkEntry>, e: WalkEntry)
    ensures
        final(sorted)@.map_values(|x: WalkEntry| x@) == old(sorted)@.map_values(|x: WalkEntry| x@).insert(
            insert_pos(old(sorted)@.map_values(|x: WalkEntry| x@), e@) as int,
            e@,
        ),
{
    let ghost s = sorted@.map_values(|x: WalkEntry| x@);
    let mut i: usize = 0;
    assert(s.skip(0) =~= s);
    while i < sorted.len()
        invariant
            s == sorted@.map_values(|x: WalkEntry| x@),
            i <= s.len(),
            insert_pos(s, e@) == i + insert_pos(s.skip(i as int), e@),
        ensures
            i <= s.len(),
            insert_pos(s, e@) == i,
        decreases s.len() - i,
    {
        assert(s.skip(i as int).drop_first() =~= s.skip(i + 1));
        assert(s.skip(i as int)[0] == sorted@[i as int]@);
        if bytes_less(e.name.as_str().as_bytes(), sorted[i].name.as_str().as_bytes()) {
            break;
        }
        i += 1;
        assert(i == s.len() ==> s.skip(i as int) =~= Seq::<WalkEntryModel>::empty());
    }
    let ghost ev = e@;
    sorted.insert(i, e);
    assert(sorted@.map_values(|x: WalkEntry| x@) =~= s.insert(i as int, ev));
}

/// The item one entry becomes.
fn entry_item(recursive: bool, e: WalkEntry) -> (r: Option<WalkItem>)
    ensures
        match r {
            Some(it) => entry_items(recursive, e@) == seq![it@],
            None => entry_items(recursive, e@) == Seq::<WalkItemModel>::empty(),
        },
{
    match e.kind {
        Err(source) => Some(WalkItem::Failure(walk_error_to_unreadable(WalkError::FileType { path: e.path, source }))),
        Ok(EntryKind::Dir) => if recursive {
            Some(WalkItem::Descend(e.path))
        } else {
            None
        },
        Ok(EntryKind::File) => if is_png(e.path.as_str()) {
            Some(WalkItem::File(e.path))
        } else {
            None
        },
        Ok(EntryKind::Other) => None,
    }
}

/// What one directory listing contributes to a depth-first walk of PNG
/// files: a report for each entry that could not be enumerated, then, in
/// name order, each PNG file, each subdirectory to walk (when `recursive`),
/// and each entry whose type could not be read. Symlinked directories are
/// not followed (the caller lists a link as `Other`), so the walk has no
/// cycle. Nothing that was listed is dropped without a trace.
pub fn walk_step(dir: &str, recursive: bool, listing: Vec<Result<WalkEntry, ()>>) -> (w: WalkStep)
    ensures
        w.errors@.len() == listed_failures(listing_entries(listing@)),
        forall|i: int| 0 <= i < w.errors@.len() ==> #[trigger] w.errors@[i]@ == spec_walk_error(dir@, None),
        w.items@.map_values(|x: WalkItem| x@) == items_of(recursive, by_name(listed_ok(listing_entries(listing@)))),
{
    let ghost l = listing_entries(listing@);
    let mut errors: Vec<Unreadable> = Vec::new();
    let mut sorted: Vec<WalkEntry> = Vec::new();
    let mut listing = listing;
    let ghost original = listing@;
    let n = listing.len();
    let mut k: usize = 0;
    assert(listing@ =~= original.skip(0));
    proof {
        assert(l.take(0) =~= Seq::<Option<WalkEntryModel>>::empty());
        assert(sorted@.map_values(|x: WalkEntry| x@) =~= Seq::<WalkEntryModel>::empty());
    }
    while k < n
        invariant
            l == listing_entries(original),
            n == original.len(),
            k <= n,
            listing@ == original.skip(k as int),
            errors@.len() == listed_failures(l.take(k as int)),
            forall|i: int| 0 <= i < errors@.len() ==> #[trigger] errors@[i]@ == spec_walk_error(dir@, None),
            sorted@.map_values(|x: WalkEntry| x@) == by_name(listed_ok(l.take(k as int))),
        decreases n - k,
    {
        let r = listing.remove(0);
        proof {
            assert(r == original[k as int]);
            assert(listing@ =~= original.skip(k + 1));
            assert(l.take(k + 1).drop_last() =~= l.take(k as int));
            assert(l.take(k + 1).last() == l[k as int]);
        }
        match r {
            Ok(e) => {
                proof {
                    assert(listed_ok(l.take(k + 1)) == listed_ok(l.take(k as int)).push(e@));
                    assert(listed_ok(l.take(k + 1)).drop_last() =~= listed_ok(l.take(k as int)));
                }
                insert_by_name(&mut sorted, e);
            },
            Err(_) => {
                errors.push(walk_error_to_unreadable(WalkError::Enumeration { dir: dir.to_owned() }));
            },
        }
        k += 1;
    }
    assert(l.take(n as int) =~= l);
    let ghost sorted_m = sorted@.map_values(|x: WalkEntry| x@);
    let mut items: Vec<WalkItem> = Vec::new();
    let mut rest = sorted;
    let m = rest.len();
    let mut j: usize = 0;
    assert(items@.map_values(|x: WalkItem| x@) =~= items_of(recursive, sorted_m.take(0)));
    assert(rest@.map_values(|x: WalkEntry| x@) =~= sorted_m.skip(0));
    while j < m
        invariant
            m == sorted_m.len(),
            j <= m,
            rest@.map_values(|x: WalkEntry| x@) == sorted_m.skip(j as int),
            items@.map_values(|x: WalkItem| x@) == items_of(recursive, sorted_m.take(j as int)),
        decreases m - j,
    {
        let ghost rest_before = rest@;
        assert(rest@.map_values(|x: WalkEntry| x@).len() == rest@.len());
        let e = rest.remove(0);
        proof {
            assert(e@ == rest_before.map_values(|x: WalkEntry| x@)[0]);
            assert(rest@ =~= rest_before.subrange(1, rest_before.len() as int));
            assert forall|q: int| 0 <= q < rest@.len() implies #[trigger] rest@[q]@ == sorted_m[j + 1 + q] by {
                assert(rest@[q] == rest_before[q + 1]);
                assert(rest_before.map_values(|x: WalkEntry| x@)[q + 1] == sorted_m.skip(j as int)[q + 1]);
            }
            assert(rest@.map_values(|x: WalkEntry| x@) =~= sorted_m.skip(j + 1));
            assert(sorted_m.take(j + 1).drop_last() =~= sorted_m.take(j as int));
            assert(sorted_m.take(j + 1).last() == e@);
        }
        let ghost before = items@.map_values(|x: WalkItem| x@);
        match entry_item(recursive, e) {
            Some(it) => {
                let ghost iv = it@;
                items.push(it);
                assert(items@.map_values(|x: WalkItem| x@) =~= before + seq![iv]);
            },
            None => {
                assert(before + Seq::<WalkItemModel>::empty() =~= before);
            },
        }
        j += 1;
    }
    assert(sorted_m.take(m as int) =~= sorted_m);
    WalkStep { errors, items }
}

// ---------------------------------------------------------------------------
// What the planner reads: destination listings and file contents.
// ---------------------------------------------------------------------------

/// One entry of a directory listing.
pub struct DirEntry {
    pub name: String,
    pub path: String,
}

/// What listing a destination directory gave.
pub enum Listing {
    /// The directory does not exist yet: nothing to collide with.
    Missing,
    /// The directory could not be listed (the error's text).
    Unlistable(String),
    /// The entries, in listing order; an entry that could not be read is
    /// its error's text.
    Entries(Vec<Result<DirEntry, String>>),
}

pub enum ListingModel {
    Missing,
    Unlistable(Seq<char>),
    Entries(Seq<Result<(Seq<char>, Seq<char>), Seq<char>>>),
}

pub open spec fn entry_model(e: Result<DirEntry, String>) -> Result<(Seq<char>, Seq<char>), Seq<char>> {
    match e {
        Ok(d) => Ok((d.name@, d.path@)),
        Err(m) => Err(m@),
    }
}

impl View for Listing {
    type V = ListingModel;

    open spec fn view(&self) -> ListingModel {
        match self {
            Listing::Missing => ListingModel::Missing,
            Listing::Unlistable(e) => ListingModel::Unlistable(e@),
            Listing::Entries(es) => ListingModel::Entries(
                Seq::new(es@.len(), |i: int| entry_model(es@[i])),
            ),
        }
    }
}

/// The message for a destination directory that could not be listed.
pub open spec fn unlisted_message(dir: Seq<char>, err: Seq<char>, name: Seq<char>) -> Seq<char> {
    dir + ": the destination directory could not be listed ("@ + err
        + "), so it is unknown whether a card named "@ + debug_str(name) + " is already there"@
}

/// The first listed entry whose lower-cased name is `want`, or the failure
/// that stops the scan first.
pub open spec fn scan_entries(
    dir: Seq<char>,
    want: Seq<char>,
    es: Seq<Result<(Seq<char>, Seq<char>), Seq<char>>>,
) -> Result<Option<Seq<char>>, Seq<char>>
    decreases es.len(),
{
    if es.len() == 0 {
        Ok(None)
    } else {
        match es[0] {
            Ok((n, p)) => if lowercase(n) == want {
                Ok(Some(p))
            } else {
                scan_entries(dir, want, es.drop_first())
            },
            Err(src) => Err(scan_reason(dir, src)),
        }
    }
}

/// The entry already in `dir` under `name`, compared case-insensitively
/// (Windows treats `A.png` and `a.png` as one file, and folds case beyond
/// ASCII). A directory that does not exist yet holds nothing; one that
/// cannot be listed, or an entry that cannot be read, leaves the answer
/// unknown: an error, never "nothing there".
pub open spec fn spec_existing(dir: Seq<char>, name: Seq<char>, l: ListingModel) -> Result<
    Option<Seq<char>>,
    Seq<char>,
> {
    match l {
        ListingModel::Missing => Ok(None),
        ListingModel::Unlistable(e) => Err(unlisted_message(dir, e, name)),
        ListingModel::Entries(es) => scan_entries(dir, lowercase(name), es),
    }
}

/// Whether listed entry `e` is readable and does not fold to `want`.
pub open spec fn passed_over(want: Seq<char>, e: Result<(Seq<char>, Seq<char>), Seq<char>>) -> bool {
    e matches Ok((n, _)) && lowercase(n) != want
}

proof fn lemma_scan_entries(
    dir: Seq<char>,
    want: Seq<char>,
    es: Seq<Result<(Seq<char>, Seq<char>), Seq<char>>>,
)
    ensures
        scan_entries(dir, want, es) matches Ok(Some(p)) ==> exists|i: int|
            0 <= i < es.len() && (#[trigger] es[i] matches Ok((n, q)) && q == p && lowercase(n) == want)
                && forall|j: int| 0 <= j < i ==> passed_over(want, #[trigger] es[j]),
        scan_entries(dir, want, es) is Ok && scan_entries(dir, want, es)->Ok_0 is None <==> forall|j: int|
            0 <= j < es.len() ==> passed_over(want, #[trigger] es[j]),
        scan_entries(dir, want, es) matches Err(m) ==> exists|i: int|
            0 <= i < es.len() && (#[trigger] es[i] matches Err(src) && m == scan_reason(dir, src))
                && forall|j: int| 0 <= j < i ==> passed_over(want, #[trigger] es[j]),
    decreases es.len(),
{
    if es.len() > 0 {
        let rest = es.drop_first();
        lemma_scan_entries(dir, want, rest);
        assert forall|j: int| 0 <= j < rest.len() implies rest[j] == es[j + 1] by {}
        match scan_entries(dir, want, es) {
            Ok(Some(p)) => {
                if !(es[0] matches Ok((n, q)) && lowercase(n) == want) {
                    let i = choose|i: int|
                        0 <= i < rest.len() && (#[trigger] rest[i] matches Ok((n, q)) && q == p && lowercase(n) == want)
                            && forall|j: int| 0 <= j < i ==> passed_over(want, #[trigger] rest[j]);
                    assert(es[i + 1] == rest[i]);
                    assert forall|j: int| 0 <= j < i + 1 implies passed_over(want, #[trigger] es[j]) by {
                        if j > 0 {
                            assert(es[j] == rest[j - 1]);
                        }
                    }
                }
            },
            Ok(None) => {
                assert forall|j: int| 0 <= j < es.len() implies passed_over(want, #[trigger] es[j]) by {
                    if j > 0 {
                        assert(es[j] == rest[j - 1]);
                    }
                }
            },
            Err(m) => {
                if !(es[0] is Err) {
                    let i = choose|i: int|
                        0 <= i < rest.len() && (#[trigger] rest[i] matches Err(src) && m == scan_reason(dir, src))
                            && forall|j: int| 0 <= j < i ==> passed_over(want, #[trigger] rest[j]);
                    assert(es[i + 1] == rest[i]);
                    assert forall|j: int| 0 <= j < i + 1 implies passed_over(want, #[trigger] es[j]) by {
                        if j > 0 {
                            assert(es[j] == rest[j - 1]);
                        }
                    }
                }
            },
        }
        if forall|j: int| 0 <= j < es.len() ==> passed_over(want, #[trigger] es[j]) {
            assert(passed_over(want, es[0]));
            assert forall|j: int| 0 <= j < rest.len() implies passed_over(want, #[trigger] rest[j]) by {
                assert(rest[j] == es[j + 1]);
            }
        }
    }
}

/// `existing_case_insensitive` answers with the first listed entry whose
/// name folds to the same lower case as `name`, when every entry before it
/// was read; "nothing there" exactly when the directory does not exist or
/// every entry was read and none matches; and an error when the directory
/// cannot be listed, or when an entry that cannot be read comes before any
/// match.
pub proof fn law_existing_finds_the_first_namesake(dir: Seq<char>, name: Seq<char>, l: ListingModel)
    ensures
        l is Missing ==> spec_existing(dir, name, l) == Ok::<Option<Seq<char>>, Seq<char>>(None),
        l matches ListingModel::Unlistable(e) ==> spec_existing(dir, name, l) == Err::<Option<Seq<char>>, Seq<char>>(
            unlisted_message(dir, e, name),
        ),
        l matches ListingModel::Entries(es) ==> {
            &&& spec_existing(dir, name, l) matches Ok(Some(p)) ==> exists|i: int|
                0 <= i < es.len() && (#[trigger] es[i] matches Ok((n, q)) && q == p && lowercase(n) == lowercase(name))
                    && forall|j: int| 0 <= j < i ==> passed_over(lowercase(name), #[trigger] es[j])
            &&& (spec_existing(dir, name, l) == Ok::<Option<Seq<char>>, Seq<char>>(None) <==> forall|j: int|
                0 <= j < es.len() ==> passed_over(lowercase(name), #[trigger] es[j]))
            &&& spec_existing(dir, name, l) matches Err(m) ==> exists|i: int|
                0 <= i < es.len() && (#[trigger] es[i] matches Err(src) && m == scan_reason(dir, src))
                    && forall|j: int| 0 <= j < i ==> passed_over(lowercase(name), #[trigger] es[j])
        },
{
    if let ListingModel::Entries(es) = l {
        lemma_scan_entries(dir, lowercase(name), es);
    }
}

pub fn existing_case_insensitive(dir: &str, name: &str, listing: &Listing) -> (r: Result<
    Option<String>,
    String,
>)
    ensures
        match spec_existing(dir@, name@, listing@) {
            Ok(Some(p)) => r matches Ok(Some(x)) && x@ == p,
            Ok(None) => r matches Ok(None),
            Err(m) => r matches Err(x) && x@ == m,
        },
{
    match listing {
        Listing::Missing => Ok(None),
        Listing::Unlistable(e) => {
            let mut m = dir.to_owned();
            m.append(": the destination directory could not be listed (");
            m.append(e.as_str());
            m.append("), so it is unknown whether a card named ");
            let q = debug_quoted(name);
            m.append(q.as_str());
            m.append(" is already there");
            Err(m)
        },
        Listing::Entries(es) => {
            let want = to_lowercase(name);
            let ghost ms = Seq::new(es@.len(), |i: int| entry_model(es@[i]));
            assert(ms.skip(0) =~= ms);
            let mut i: usize = 0;
            while i < es.len()
                invariant
                    ms == Seq::new(es@.len(), |i: int| entry_model(es@[i])),
                    listing@ == ListingModel::Entries(ms),
                    want@ == lowercase(name@),
                    i <= es@.len(),
                    scan_entries(dir@, want@, ms) == scan_entries(dir@, want@, ms.skip(i as int)),
                decreases es@.len() - i,
            {
                assert(ms.skip(i as int).drop_first() =~= ms.skip(i + 1));
                assert(ms.skip(i as int)[0] == entry_model(es@[i as int]));
                match &es[i] {
                    Ok(e) => {
                        let low = to_lowercase(e.name.as_str());
                        if str_eq(low.as_str(), want.as_str()) {
                            return Ok(Some(e.path.clone()));
                        }
                    },
                    Err(src) => {
                        return Err(
                            collision_scan_error_to_reason(
                                CollisionScanError { dir: dir.to_owned(), source: src.clone() },
                            ),
                        );
                    },
                }
                i += 1;
            }
            Ok(None)
        },
    }
}

/// The bytes held for `path`, if it was read.
pub open spec fn content_of(cts: Seq<(Seq<char>, Seq<u8>)>, path: Seq<char>) -> Option<Seq<u8>>
    decreases cts.len(),
{
    if cts.len() == 0 {
        None
    } else if cts[0].0 == path {
        Some(cts[0].1)
    } else {
        content_of(cts.drop_first(), path)
    }
}

/// The model of a contents table.
pub open spec fn contents_model(c: Seq<(String, Vec<u8>)>) -> Seq<(Seq<char>, Seq<u8>)> {
    Seq::new(c.len(), |i: int| (c[i].0@, c[i].1@))
}

/// The bytes held for `path`.
pub fn lookup_content<'b>(contents: &'b Vec<(String, Vec<u8>)>, path: &str) -> (r: Option<&'b [u8]>)
    ensures
        match content_of(contents_model(contents@), path@) {
            Some(b) => r matches Some(x) && x@ == b,
            None => r is None,
        },
{
    let ghost cm = contents_model(contents@);
    assert(cm.skip(0) =~= cm);
    let mut i: usize = 0;
    while i < contents.len()
        invariant
            cm == contents_model(contents@),
            i <= contents@.len(),
            content_of(cm, path@) == content_of(cm.skip(i as int), path@),
        decreases contents@.len() - i,
    {
        assert(cm.skip(i as int).drop_first() =~= cm.skip(i + 1));
        assert(cm.skip(i as int)[0] == (contents@[i as int].0@, contents@[i as int].1@));
        if str_eq(contents[i].0.as_str(), path) {
            return Some(contents[i].1.as_slice());
        }
        i += 1;
    }
    None
}

/// Whether two files were both read and hold the same bytes.
pub open spec fn spec_same_bytes(cts: Seq<(Seq<char>, Seq<u8>)>, a: Seq<char>, b: Seq<char>) -> bool {
    match (content_of(cts, a), content_of(cts, b)) {
        (Some(x), Some(y)) => x == y,
        _ => false,
    }
}

pub fn same_bytes(contents: &Vec<(String, Vec<u8>)>, a: &str, b: &str) -> (r: bool)
    ensures
        r == spec_same_bytes(contents_model(contents@), a@, b@),
{
    match (lookup_content(contents, a), lookup_content(contents, b)) {
        (Some(x), Some(y)) => bytes_eq(x, y),
        _ => false,
    }
}

// ---------------------------------------------------------------------------
// Names already spoken for during one planning pass.
// ---------------------------------------------------------------------------

/// A destination name already spoken for during the current pass, before
/// anything has moved. `source` is the (still unmoved) file that claimed
/// it, so a later collision against the same name is resolved by content.
#[derive(Debug)]
pub struct Claim {
    pub dest: String,
    pub source: String,
}

pub struct ClaimModel {
    pub dest: Seq<char>,
    pub source: Seq<char>,
}

impl View for Claim {
    type V = ClaimModel;

    open spec fn view(&self) -> ClaimModel {
        ClaimModel { dest: self.dest@, source: self.source@ }
    }
}

/// The claims of one destination directory, by claim key.
#[derive(Debug)]
pub struct Claims {
    entries: Vec<(String, Claim)>,
}

/// The claim under `key`.
pub open spec fn claim_get(cs: Seq<(Seq<char>, ClaimModel)>, key: Seq<char>) -> Option<ClaimModel>
    decreases cs.len(),
{
    if cs.len() == 0 {
        None
    } else if cs[0].0 == key {
        Some(cs[0].1)
    } else {
        claim_get(cs.drop_first(), key)
    }
}

/// The position of the claim under `key`.
pub open spec fn claim_index(cs: Seq<(Seq<char>, ClaimModel)>, key: Seq<char>) -> Option<int>
    decreases cs.len(),
{
    if cs.len() == 0 {
        None
    } else if cs[0].0 == key {
        Some(0)
    } else {
        match claim_index(cs.drop_first(), key) {
            Some(i) => Some(i + 1),
            None => None,
        }
    }
}

/// The claims after registering `c` under `key`: it replaces the claim
/// under that key, or is added after the others.
pub open spec fn claim_insert(cs: Seq<(Seq<char>, ClaimModel)>, key: Seq<char>, c: ClaimModel) -> Seq<
    (Seq<char>, ClaimModel),
> {
    match claim_index(cs, key) {
        Some(i) => cs.update(i, (key, c)),
        None => cs.push((key, c)),
    }
}

proof fn lemma_claim_index(cs: Seq<(Seq<char>, ClaimModel)>, key: Seq<char>)
    ensures
        claim_index(cs, key) matches Some(i) ==> 0 <= i < cs.len() && cs[i].0 == key && claim_get(cs, key) == Some(cs[i].1),
        claim_index(cs, key) is None <==> claim_get(cs, key) is None,
        claim_index(cs, key) is None ==> forall|j: int| 0 <= j < cs.len() ==> cs[j].0 != key,
    decreases cs.len(),
{
    if cs.len() > 0 {
        lemma_claim_index(cs.drop_first(), key);
        if claim_index(cs, key) is None {
            assert forall|j: int| 0 <= j < cs.len() implies cs[j].0 != key by {
                if j > 0 {
                    assert(cs.drop_first()[j - 1] == cs[j]);
                }
            }
        }
    }
}

impl View for Claims {
    type V = Seq<(Seq<char>, ClaimModel)>;

    closed spec fn view(&self) -> Seq<(Seq<char>, ClaimModel)> {
        Seq::new(self.entries@.len(), |i: int| (self.entries@[i].0@, self.entries@[i].1@))
    }
}

impl Claims {
    pub fn new() -> (c: Self)
        ensures
            c@ == Seq::<(Seq<char>, ClaimModel)>::empty(),
    {
        let c = Claims { entries: Vec::new() };
        assert(c@ =~= Seq::<(Seq<char>, ClaimModel)>::empty());
        c
    }

    pub fn len(&self) -> (n: usize)
        ensures
            n == self@.len(),
    {
        self.entries.len()
    }

    fn index_of(&self, key: &str) -> (r: Option<usize>)
        ensures
            match r {
                Some(i) => claim_index(self@, key@) == Some(i as int),
                None => claim_index(self@, key@) is None,
            },
    {
        let ghost cs = self@;
        assert(cs.skip(0) =~= cs);
        let mut i: usize = 0;
        while i < self.entries.len()
            invariant
                cs == self@,
                i <= cs.len(),
                cs.len() == self.entries@.len(),
                claim_index(cs, key@) == match claim_index(cs.skip(i as int), key@) {
                    Some(j) => Some(j + i),
                    None => None::<int>,
                },
            decreases cs.len() - i,
        {
            assert(cs.skip(i as int).drop_first() =~= cs.skip(i + 1));
            assert(cs.skip(i as int)[0] == (self.entries@[i as int].0@, self.entries@[i as int].1@));
            if str_eq(self.entries[i].0.as_str(), key) {
                return Some(i);
            }
            i += 1;
        }
        None
    }

    pub fn contains_key(&self, key: &str) -> (r: bool)
        ensures
            r == claim_get(self@, key@) is Some,
    {
        proof {
            lemma_claim_index(self@, key@);
        }
        self.index_of(key).is_some()
    }

    pub fn get(&self, key: &str) -> (r: Option<&Claim>)
        ensures
            match claim_get(self@, key@) {
                Some(c) => r matches Some(x) && x@ == c,
                None => r is None,
            },
    {
        proof {
            lemma_claim_index(self@, key@);
        }
        match self.index_of(key) {
            Some(i) => {
                assert(self@[i as int] == (self.entries@[i as int].0@, self.entries@[i as int].1@));
                assert(claim_index(self@, key@) == Some(i as int));
                assert(claim_get(self@, key@) == Some(self.entries@[i as int].1@));
                let c = &self.entries[i].1;
                assert(c@ == self.entries@[i as int].1@);
                Some(c)
            },
            None => None,
        }
    }

    /// Registers `claim` under `key`, replacing a claim already there.
    pub fn insert(&mut self, key: String, claim: Claim)
        ensures
            final(self)@ == claim_insert(old(self)@, key@, claim@),
    {
        proof {
            lemma_claim_index(self@, key@);
        }
        match self.index_of(key.as_str()) {
            Some(i) => {
                self.entries.set(i, (key, claim));
            },
            None => {
                self.entries.push((key, claim));
            },
        }
        assert(self@ =~= claim_insert(old(self)@, key@, claim@));
    }
}

/// Folds a destination name to the key two claims collide on: full
/// Unicode lower-casing, the same folding `existing_case_insensitive` uses.
pub open spec fn spec_claim_key(name: Seq<char>) -> Seq<char> {
    lowercase(name)
}

pub fn claim_key(name: &str) -> (k: String)
    ensures
        k@ == spec_claim_key(name@),
{
    to_lowercase(name)
}

/// The text of an optional path part, or the empty string.
pub open spec fn or_empty(o: Option<Seq<char>>) -> Seq<char> {
    match o {
        Some(s) => s,
        None => seq![],
    }
}

/// The smallest destination (in byte order) among the claims whose source
/// holds exactly the bytes `src`.
pub open spec fn identical_min(
    cs: Seq<(Seq<char>, ClaimModel)>,
    cts: Seq<(Seq<char>, Seq<u8>)>,
    src: Seq<u8>,
) -> Option<Seq<char>>
    decreases cs.len(),
{
    if cs.len() == 0 {
        None
    } else {
        let rest = identical_min(cs.drop_last(), cts, src);
        let c = cs.last().1;
        if content_of(cts, c.source) == Some(src) {
            match rest {
                None => Some(c.dest),
                Some(d) => if bytes_lt(encode_utf8(c.dest), encode_utf8(d)) {
                    Some(c.dest)
                } else {
                    Some(d)
                },
            }
        } else {
            rest
        }
    }
}

/// Where this exact content is ALREADY claimed in the directory, under any
/// name (suffixed ones included): the smallest such destination, so the
/// answer does not depend on the order of the claims. `None` when the
/// source was not read.
pub open spec fn spec_identical_claim(
    cs: Seq<(Seq<char>, ClaimModel)>,
    cts: Seq<(Seq<char>, Seq<u8>)>,
    source: Seq<char>,
) -> Option<Seq<char>> {
    match content_of(cts, source) {
        None => None,
        Some(b) => identical_min(cs, cts, b),
    }
}

pub fn claim_with_identical_content(
    claims: &Claims,
    contents: &Vec<(String, Vec<u8>)>,
    source: &str,
) -> (r: Option<String>)
    ensures
        match spec_identical_claim(claims@, contents_model(contents@), source@) {
            Some(d) => r matches Some(x) && x@ == d,
            None => r is None,
        },
{
    let src = match lookup_content(contents, source) {
        Some(b) => b,
        None => return None,
    };
    let ghost cs = claims@;
    let ghost cts = contents_model(contents@);
    let mut best: Option<String> = None;
    let mut i: usize = 0;
    while i < claims.entries.len()
        invariant
            cs == claims@,
            cts == contents_model(contents@),
            cs.len() == claims.entries@.len(),
            i <= cs.len(),
            match identical_min(cs.subrange(0, i as int), cts, src@) {
                Some(d) => best matches Some(x) && x@ == d,
                None => best is None,
            },
        decreases cs.len() - i,
    {
        let c = &claims.entries[i].1;
        proof {
            assert(cs.subrange(0, i + 1).drop_last() =~= cs.subrange(0, i as int));
            assert(cs.subrange(0, i + 1).last() == cs[i as int]);
            assert(cs[i as int] == (claims.entries@[i as int].0@, claims.entries@[i as int].1@));
        }
        let same = match lookup_content(contents, c.source.as_str()) {
            Some(b) => bytes_eq(b, src),
            None => false,
        };
        if same {
            best = match best {
                None => Some(c.dest.clone()),
                Some(d) => if bytes_less(c.dest.as_str().as_bytes(), d.as_str().as_bytes()) {
                    Some(c.dest.clone())
                } else {
                    Some(d)
                },
            };
        }
        i += 1;
    }
    assert(cs.subrange(0, cs.len() as int) =~= cs);
    best
}

/// `name (n)`, keeping the extension: `c.png` -> `c (2).png`.
pub open spec fn candidate_name(stem: Seq<char>, ext: Seq<char>, n: nat) -> Seq<char> {
    if ext.len() == 0 {
        stem + " ("@ + decimal(n) + ")"@
    } else {
        stem + " ("@ + decimal(n) + ")."@ + ext
    }
}

/// The first free suffixed name from `n` on, below 10000: one neither
/// claimed in this pass nor already in the directory. Gives the name.
pub open spec fn suffix_search(
    dir: Seq<char>,
    stem: Seq<char>,
    ext: Seq<char>,
    cs: Seq<(Seq<char>, ClaimModel)>,
    l: ListingModel,
    n: nat,
) -> Result<Option<Seq<char>>, Seq<char>>
    decreases 10000 - n,
{
    if n >= 10000 {
        Ok(None)
    } else {
        let cand = candidate_name(stem, ext, n);
        if claim_get(cs, spec_claim_key(cand)) is Some {
            suffix_search(dir, stem, ext, cs, l, n + 1)
        } else {
            match spec_existing(dir, cand, l) {
                Err(e) => Err(e),
                Ok(None) => Ok(Some(cand)),
                Ok(Some(_)) => suffix_search(dir, stem, ext, cs, l, n + 1),
            }
        }
    }
}

/// `c.png` -> `c (2).png`, `c (3).png`, ... skipping names taken on disk
/// OR claimed earlier in this pass. `Ok(None)`: every candidate up to the
/// cap is taken; the caller must not fall back to the colliding name.
pub open spec fn spec_suffixed(
    dir: Seq<char>,
    name: Seq<char>,
    cs: Seq<(Seq<char>, ClaimModel)>,
    l: ListingModel,
) -> Result<Option<Seq<char>>, Seq<char>> {
    match spec_suffixed_name(dir, name, cs, l) {
        Ok(Some(cand)) => Ok(Some(joined(dir, cand))),
        Ok(None) => Ok(None),
        Err(e) => Err(e),
    }
}

/// The free suffixed name that `spec_suffixed` joins to the directory.
pub open spec fn spec_suffixed_name(
    dir: Seq<char>,
    name: Seq<char>,
    cs: Seq<(Seq<char>, ClaimModel)>,
    l: ListingModel,
) -> Result<Option<Seq<char>>, Seq<char>> {
    suffix_search(dir, or_empty(path_file_stem(name)), or_empty(path_extension(name)), cs, l, 2)
}

pub fn suffixed(dir: &str, name: &str, claims: &Claims, listing: &Listing) -> (r: Result<
    Option<String>,
    String,
>)
    ensures
        match spec_suffixed(dir@, name@, claims@, listing@) {
            Ok(Some(p)) => r matches Ok(Some(x)) && x@ == p,
            Ok(None) => r matches Ok(None),
            Err(m) => r matches Err(x) && x@ == m,
        },
{
    match suffixed_name(dir, name, claims, listing) {
        Ok(Some(cand)) => Ok(Some(join(dir, cand.as_str()))),
        Ok(None) => Ok(None),
        Err(e) => Err(e),
    }
}

fn suffixed_name(dir: &str, name: &str, claims: &Claims, listing: &Listing) -> (r: Result<
    Option<String>,
    String,
>)
    ensures
        match spec_suffixed_name(dir@, name@, claims@, listing@) {
            Ok(Some(p)) => r matches Ok(Some(x)) && x@ == p,
            Ok(None) => r matches Ok(None),
            Err(m) => r matches Err(x) && x@ == m,
        },
{
    let stem = match file_stem(name) {
        Some(s) => s,
        None => String::new(),
    };
    let ext = match extension(name) {
        Some(e) => e,
        None => String::new(),
    };
    let mut n: u64 = 2;
    while n < 10000
        invariant
            2 <= n <= 10000,
            stem@ == or_empty(path_file_stem(name@)),
            ext@ == or_empty(path_extension(name@)),
            spec_suffixed_name(dir@, name@, claims@, listing@) == suffix_search(
                dir@,
                stem@,
                ext@,
                claims@,
                listing@,
                n as nat,
            ),
        decreases 10000 - n,
    {
        let mut cand = stem.clone();
        cand.append(" (");
        let num = decimal_string(n);
        cand.append(num.as_str());
        if ext.as_str().is_empty() {
            cand.append(")");
        } else {
            cand.append(").");
            cand.append(ext.as_str());
        }
        assert(cand@ == candidate_name(stem@, ext@, n as nat));
        let key = claim_key(cand.as_str());
        if claims.contains_key(key.as_str()) {
            n += 1;
            continue;
        }
        match existing_case_insensitive(dir, cand.as_str(), listing) {
            Err(e) => return Err(e),
            Ok(None) => return Ok(Some(cand)),
            Ok(Some(_)) => {},
        }
        n += 1;
    }
    Ok(None)
}

/// How a source file bound for `dir` under `name` is resolved against the
/// claims of this pass and the live listing: the destination, the kind of
/// collision, and the claims afterwards (a `Vacant` or `Renamed` outcome
/// registers its own claim). An error means the collision status is
/// unknown: no move may be planned.
pub open spec fn spec_resolve(
    dir: Seq<char>,
    name: Seq<char>,
    source: Seq<char>,
    cs: Seq<(Seq<char>, ClaimModel)>,
    l: ListingModel,
    cts: Seq<(Seq<char>, Seq<u8>)>,
) -> Result<(Seq<char>, Collision, Seq<(Seq<char>, ClaimModel)>), Seq<char>> {
    let key = spec_claim_key(name);
    let occ: Result<Option<(Seq<char>, Seq<char>)>, Seq<char>> = match claim_get(cs, key) {
        Some(c) => Ok(Some((c.dest, c.source))),
        None => match spec_existing(dir, name, l) {
            Err(e) => Err(e),
            Ok(None) => Ok(None),
            Ok(Some(p)) => Ok(Some((p, p))),
        },
    };
    match occ {
        Err(e) => Err(e),
        Ok(None) => {
            let dest = joined(dir, name);
            Ok((dest, Collision::Vacant, claim_insert(cs, key, ClaimModel { dest, source })))
        },
        Ok(Some((dest, cref))) => if spec_same_bytes(cts, source, cref) {
            Ok((dest, Collision::AlreadyFiled, cs))
        } else {
            match spec_identical_claim(cs, cts, source) {
                Some(d) => Ok((d, Collision::AlreadyFiled, cs)),
                None => match spec_suffixed_name(dir, name, cs, l) {
                    Err(e) => Err(e),
                    Ok(Some(cand)) => Ok(
                        (
                            joined(dir, cand),
                            Collision::Renamed,
                            claim_insert(
                                cs,
                                spec_claim_key(cand),
                                ClaimModel { dest: joined(dir, cand), source },
                            ),
                        ),
                    ),
                    Ok(None) => Ok((joined(dir, name), Collision::Unresolvable, cs)),
                },
            }
        },
    }
}

/// What already holds `name` in `dir`: a claim of this pass under the
/// same key (its destination and its source), or else the namesake on disk
/// (its path, twice); an error when the directory's answer is unknown.
pub open spec fn occupant(
    dir: Seq<char>,
    name: Seq<char>,
    cs: Seq<(Seq<char>, ClaimModel)>,
    l: ListingModel,
) -> Result<Option<(Seq<char>, Seq<char>)>, Seq<char>> {
    match claim_get(cs, spec_claim_key(name)) {
        Some(c) => Ok(Some((c.dest, c.source))),
        None => match spec_existing(dir, name, l) {
            Err(e) => Err(e),
            Ok(None) => Ok(None),
            Ok(Some(p)) => Ok(Some((p, p))),
        },
    }
}

/// When each outcome of `resolve_collision` is owed. `Vacant` exactly when
/// nothing is claimed under the name's key and no namesake is on disk; the
/// card then takes the plain name and claims it. `AlreadyFiled` exactly
/// when something holds the name and either it or a source claimed earlier
/// in the directory has the card's exact bytes. `AlreadyFiled` and
/// `Unresolvable` leave the claims as they were; `Renamed` adds one claim
/// for the name it gives.
pub proof fn law_when_each_collision_is_owed(
    dir: Seq<char>,
    name: Seq<char>,
    source: Seq<char>,
    cs: Seq<(Seq<char>, ClaimModel)>,
    l: ListingModel,
    cts: Seq<(Seq<char>, Seq<u8>)>,
)
    ensures
        (occupant(dir, name, cs, l) == Ok::<Option<(Seq<char>, Seq<char>)>, Seq<char>>(None)) <==> (claim_get(
            cs,
            spec_claim_key(name),
        ) is None && spec_existing(dir, name, l) == Ok::<Option<Seq<char>>, Seq<char>>(None)),
        (spec_resolve(dir, name, source, cs, l, cts) matches Ok((_, c, _)) && c == Collision::Vacant) <==> occupant(
            dir,
            name,
            cs,
            l,
        ) == Ok::<Option<(Seq<char>, Seq<char>)>, Seq<char>>(None),
        occupant(dir, name, cs, l) == Ok::<Option<(Seq<char>, Seq<char>)>, Seq<char>>(None) ==> spec_resolve(
            dir,
            name,
            source,
            cs,
            l,
            cts,
        ) == Ok::<(Seq<char>, Collision, Seq<(Seq<char>, ClaimModel)>), Seq<char>>(
            (
                joined(dir, name),
                Collision::Vacant,
                claim_insert(cs, spec_claim_key(name), ClaimModel { dest: joined(dir, name), source }),
            ),
        ),
        (spec_resolve(dir, name, source, cs, l, cts) matches Ok((_, c, _)) && c == Collision::AlreadyFiled) <==> (
        occupant(dir, name, cs, l) matches Ok(Some((_, cref))) && (spec_same_bytes(cts, source, cref)
            || spec_identical_claim(cs, cts, source) is Some)),
        match spec_resolve(dir, name, source, cs, l, cts) {
            Ok((d, c, cs2)) => {
                &&& (c == Collision::AlreadyFiled || c == Collision::Unresolvable) ==> cs2 == cs
                &&& c == Collision::Renamed ==> exists|cand: Seq<char>|
                    d == joined(dir, cand) && spec_suffixed_name(dir, name, cs, l) == Ok::<
                        Option<Seq<char>>,
                        Seq<char>,
                    >(Some(cand)) && cs2 == claim_insert(
                        cs,
                        spec_claim_key(cand),
                        ClaimModel { dest: d, source },
                    )
            },
            Err(_) => true,
        },
{
}

pub fn resolve_collision(
    dir: &str,
    name_s: &str,
    source: &str,
    claims: &mut Claims,
    listing: &Listing,
    contents: &Vec<(String, Vec<u8>)>,
) -> (r: Result<(String, Collision), String>)
    ensures
        match spec_resolve(dir@, name_s@, source@, old(claims)@, listing@, contents_model(contents@)) {
            Ok((d, c, cs)) => r matches Ok((x, y)) && x@ == d && y == c && final(claims)@ == cs,
            Err(m) => r matches Err(x) && x@ == m && final(claims)@ == old(claims)@,
        },
{
    let key = claim_key(name_s);
    let occupant: Option<(String, String)> = match claims.get(key.as_str()) {
        Some(c) => Some((c.dest.clone(), c.source.clone())),
        None => match existing_case_insensitive(dir, name_s, listing) {
            Err(e) => return Err(e),
            Ok(None) => None,
            Ok(Some(p)) => Some((p.clone(), p)),
        },
    };
    match occupant {
        None => {
            let dest = join(dir, name_s);
            claims.insert(key, Claim { dest: dest.clone(), source: source.to_owned() });
            Ok((dest, Collision::Vacant))
        },
        Some((dest, content_ref)) => {
            if same_bytes(contents, source, content_ref.as_str()) {
                return Ok((dest, Collision::AlreadyFiled));
            }
            if let Some(d) = claim_with_identical_content(claims, contents, source) {
                return Ok((d, Collision::AlreadyFiled));
            }
            match suffixed_name(dir, name_s, claims, listing) {
                Err(e) => Err(e),
                Ok(Some(cand)) => {
                    let dest = join(dir, cand.as_str());
                    claims.insert(
                        claim_key(cand.as_str()),
                        Claim { dest: dest.clone(), source: source.to_owned() },
                    );
                    Ok((dest, Collision::Renamed))
                },
                Ok(None) => Ok((join(dir, name_s), Collision::Unresolvable)),
            }
        },
    }
}

// ---------------------------------------------------------------------------
// The plan.
// ---------------------------------------------------------------------------

#[derive(Debug)]
pub struct Plan {
    pub moves: Vec<Planned>,
    pub skipped: Vec<String>,
    pub unrecognized: Vec<Unreadable>,
    pub unreadable: Vec<Unreadable>,
    pub voice_incompatible: Vec<VoiceIssue>,
}

pub struct PlanModel {
    pub moves: Seq<PlannedModel>,
    pub skipped: Seq<Seq<char>>,
    pub unrecognized: Seq<UnreadableModel>,
    pub unreadable: Seq<UnreadableModel>,
    pub voice_incompatible: Seq<VoiceIssueModel>,
}

impl View for Plan {
    type V = PlanModel;

    open spec fn view(&self) -> PlanModel {
        PlanModel {
            moves: Seq::new(self.moves@.len(), |i: int| self.moves@[i]@),
            skipped: Seq::new(self.skipped@.len(), |i: int| self.skipped@[i]@),
            unrecognized: Seq::new(self.unrecognized@.len(), |i: int| self.unrecognized@[i]@),
            unreadable: Seq::new(self.unreadable@.len(), |i: int| self.unreadable@[i]@),
            voice_incompatible: Seq::new(
                self.voice_incompatible@.len(),
                |i: int| self.voice_incompatible@[i]@,
            ),
        }
    }
}

impl Default for Plan {
    fn default() -> (p: Self)
        ensures
            p@ == empty_plan(),
    {
        let p = Plan {
            moves: Vec::new(),
            skipped: Vec::new(),
            unrecognized: Vec::new(),
            unreadable: Vec::new(),
            voice_incompatible: Vec::new(),
        };
        assert(p@.moves =~= Seq::<PlannedModel>::empty());
        assert(p@.skipped =~= Seq::<Seq<char>>::empty());
        assert(p@.unrecognized =~= Seq::<UnreadableModel>::empty());
        assert(p@.unreadable =~= Seq::<UnreadableModel>::empty());
        assert(p@.voice_incompatible =~= Seq::<VoiceIssueModel>::empty());
        p
    }
}

pub open spec fn empty_plan() -> PlanModel {
    PlanModel {
        moves: seq![],
        skipped: seq![],
        unrecognized: seq![],
        unreadable: seq![],
        voice_incompatible: seq![],
    }
}

/// The claims of every destination directory met so far, by directory.
pub type DirClaimsModel = Seq<(Seq<char>, Seq<(Seq<char>, ClaimModel)>)>;

/// The claims of `dir` (none if it was not met yet).
pub open spec fn dir_claims(dcs: DirClaimsModel, dir: Seq<char>) -> Seq<(Seq<char>, ClaimModel)>
    decreases dcs.len(),
{
    if dcs.len() == 0 {
        seq![]
    } else if dcs[0].0 == dir {
        dcs[0].1
    } else {
        dir_claims(dcs.drop_first(), dir)
    }
}

/// The position of `dir` among the directories met so far.
pub open spec fn dir_index(dcs: DirClaimsModel, dir: Seq<char>) -> Option<int>
    decreases dcs.len(),
{
    if dcs.len() == 0 {
        None
    } else if dcs[0].0 == dir {
        Some(0)
    } else {
        match dir_index(dcs.drop_first(), dir) {
            Some(i) => Some(i + 1),
            None => None,
        }
    }
}

/// The claims by directory after `dir`'s claims become `cs`.
pub open spec fn dir_claims_set(dcs: DirClaimsModel, dir: Seq<char>, cs: Seq<(Seq<char>, ClaimModel)>) -> DirClaimsModel {
    match dir_index(dcs, dir) {
        Some(i) => dcs.update(i, (dir, cs)),
        None => dcs.push((dir, cs)),
    }
}

proof fn lemma_dir_index(dcs: DirClaimsModel, dir: Seq<char>)
    ensures
        dir_index(dcs, dir) matches Some(i) ==> 0 <= i < dcs.len() && dcs[i].0 == dir && dir_claims(dcs, dir) == dcs[i].1,
        dir_index(dcs, dir) is None ==> dir_claims(dcs, dir) == Seq::<(Seq<char>, ClaimModel)>::empty(),
    decreases dcs.len(),
{
    if dcs.len() > 0 {
        lemma_dir_index(dcs.drop_first(), dir);
    }
}

/// The listing of `dir` in the snapshot; a directory that was not listed
/// counts as not existing.
pub open spec fn listing_for(ls: Seq<(Seq<char>, ListingModel)>, dir: Seq<char>) -> ListingModel
    decreases ls.len(),
{
    if ls.len() == 0 {
        ListingModel::Missing
    } else if ls[0].0 == dir {
        ls[0].1
    } else {
        listing_for(ls.drop_first(), dir)
    }
}

pub open spec fn listings_model(ls: Seq<(String, Listing)>) -> Seq<(Seq<char>, ListingModel)> {
    Seq::new(ls.len(), |i: int| (ls[i].0@, ls[i].1@))
}

/// A card file as the planner reads it: a file that could not be read is
/// not a card.
pub open spec fn card_of(cts: Seq<(Seq<char>, Seq<u8>)>, f: Seq<char>) -> Result<CardModel, CardErrorModel> {
    match content_of(cts, f) {
        None => Err(CardErrorModel::NotCard),
        Some(b) => spec_read_card(b),
    }
}

/// A report of a failed read: unrecognized markers go to `unrecognized`,
/// everything else to `unreadable`.
pub open spec fn report_error(p: PlanModel, f: Seq<char>, e: CardErrorModel) -> PlanModel {
    let u = UnreadableModel { path: f, reason: error_reason(e) };
    match e {
        CardErrorModel::Unrecognized(_) => PlanModel { unrecognized: p.unrecognized.push(u), ..p },
        _ => PlanModel { unreadable: p.unreadable.push(u), ..p },
    }
}

/// A voice flag for `f`, when its personality cannot be voiced.
pub open spec fn report_voice(p: PlanModel, f: Seq<char>, m: CardModel, voice: Option<(Set<i64>, bool)>) -> PlanModel {
    match spec_voice_issue(m, voice) {
        Some(pid) => PlanModel {
            voice_incompatible: p.voice_incompatible.push(VoiceIssueModel { path: f, personality: pid }),
            ..p
        },
        None => p,
    }
}

/// One walked file, planned:
/// - already in a destination folder: skipped; with a voice check to make,
///   it is also read, and flagged or reported, but it never moves;
/// - unreadable or unrecognized: reported, not moved;
/// - otherwise flagged if its personality cannot be voiced, and planned to
///   move to its destination folder, resolved against the claims of this
///   pass and the live listing; a collision of unknown status is reported
///   instead of planned.
pub open spec fn plan_step(
    root: Seq<char>,
    voice: Option<(Set<i64>, bool)>,
    cts: Seq<(Seq<char>, Seq<u8>)>,
    ls: Seq<(Seq<char>, ListingModel)>,
    st: (PlanModel, DirClaimsModel),
    f: Seq<char>,
) -> (PlanModel, DirClaimsModel) {
    let (p, dcs) = st;
    if spec_in_dest_folder(root, f) {
        let p1 = if voice is Some {
            match card_of(cts, f) {
                Ok(m) => report_voice(p, f, m, voice),
                Err(e) => report_error(p, f, e),
            }
        } else {
            p
        };
        (PlanModel { skipped: p1.skipped.push(f), ..p1 }, dcs)
    } else {
        match card_of(cts, f) {
            Err(e) => (report_error(p, f, e), dcs),
            Ok(m) => match path_file_name(f) {
                None => (p, dcs),
                Some(name) => {
                    let p1 = report_voice(p, f, m, voice);
                    let dir = spec_destination(root, m);
                    let cs = dir_claims(dcs, dir);
                    match spec_resolve(dir, name, f, cs, listing_for(ls, dir), cts) {
                        Ok((to, c, cs2)) => (
                            PlanModel {
                                moves: p1.moves.push(PlannedModel { from: f, to, collision: c }),
                                ..p1
                            },
                            dir_claims_set(dcs, dir, cs2),
                        ),
                        Err(reason) => (
                            PlanModel {
                                unreadable: p1.unreadable.push(UnreadableModel { path: f, reason }),
                                ..p1
                            },
                            dir_claims_set(dcs, dir, cs),
                        ),
                    }
                },
            },
        }
    }
}

/// The files planned one after another, in walk order, starting from the
/// walk's own failures.
pub open spec fn plan_fold(
    root: Seq<char>,
    voice: Option<(Set<i64>, bool)>,
    cts: Seq<(Seq<char>, Seq<u8>)>,
    ls: Seq<(Seq<char>, ListingModel)>,
    walk_errors: Seq<UnreadableModel>,
    files: Seq<Seq<char>>,
) -> (PlanModel, DirClaimsModel)
    decreases files.len(),
{
    if files.len() == 0 {
        (PlanModel { unreadable: walk_errors, ..empty_plan() }, seq![])
    } else {
        plan_step(root, voice, cts, ls, plan_fold(root, voice, cts, ls, walk_errors, files.drop_last()), files.last())
    }
}

/// The plan for a walk: what `plan_fold` ends with.
pub open spec fn spec_plan(
    root: Seq<char>,
    voice: Option<(Set<i64>, bool)>,
    cts: Seq<(Seq<char>, Seq<u8>)>,
    ls: Seq<(Seq<char>, ListingModel)>,
    walk_errors: Seq<UnreadableModel>,
    files: Seq<Seq<char>>,
) -> PlanModel {
    plan_fold(root, voice, cts, ls, walk_errors, files).0
}

/// A voice check is a report, not a filter: whatever install the cards are
/// checked against, or none at all, every card is planned to the same place
/// with the same collision, and the same cards are skipped.
pub proof fn law_voice_check_never_changes_where_cards_go(
    root: Seq<char>,
    v1: Option<(Set<i64>, bool)>,
    v2: Option<(Set<i64>, bool)>,
    cts: Seq<(Seq<char>, Seq<u8>)>,
    ls: Seq<(Seq<char>, ListingModel)>,
    walk_errors: Seq<UnreadableModel>,
    files: Seq<Seq<char>>,
)
    ensures
        spec_plan(root, v1, cts, ls, walk_errors, files).moves == spec_plan(root, v2, cts, ls, walk_errors, files).moves,
        spec_plan(root, v1, cts, ls, walk_errors, files).skipped == spec_plan(root, v2, cts, ls, walk_errors, files).skipped,
{
    lemma_voice_leaves_the_fold(root, v1, v2, cts, ls, walk_errors, files);
}

/// The flag one walked file raises, if any: a card whose personality the
/// install cannot voice, among the cards that planning reads (every card
/// outside the destination folders that has a file name; cards already in
/// one only when there is a voice check to make).
pub open spec fn voice_flag(
    root: Seq<char>,
    voice: Option<(Set<i64>, bool)>,
    cts: Seq<(Seq<char>, Seq<u8>)>,
    f: Seq<char>,
) -> Seq<VoiceIssueModel> {
    match card_of(cts, f) {
        Ok(m) => if spec_in_dest_folder(root, f) || path_file_name(f) is Some {
            match spec_voice_issue(m, voice) {
                Some(pid) => seq![VoiceIssueModel { path: f, personality: pid }],
                None => seq![],
            }
        } else {
            seq![]
        },
        Err(_) => seq![],
    }
}

/// The flags of a run of walked files, in walk order.
pub open spec fn voice_flags(
    root: Seq<char>,
    voice: Option<(Set<i64>, bool)>,
    cts: Seq<(Seq<char>, Seq<u8>)>,
    files: Seq<Seq<char>>,
) -> Seq<VoiceIssueModel>
    decreases files.len(),
{
    if files.len() == 0 {
        seq![]
    } else {
        voice_flags(root, voice, cts, files.drop_last()) + voice_flag(root, voice, cts, files.last())
    }
}

/// `voice_incompatible` lists exactly the flagged cards, in walk order, each
/// with the personality the install cannot voice; without a voice check,
/// or after a failed scan, it is empty.
pub proof fn law_voice_flags_are_exactly_the_flagged_cards(
    root: Seq<char>,
    voice: Option<(Set<i64>, bool)>,
    cts: Seq<(Seq<char>, Seq<u8>)>,
    ls: Seq<(Seq<char>, ListingModel)>,
    walk_errors: Seq<UnreadableModel>,
    files: Seq<Seq<char>>,
)
    ensures
        spec_plan(root, voice, cts, ls, walk_errors, files).voice_incompatible == voice_flags(root, voice, cts, files),
        (voice is None || voice matches Some((_, false))) ==> spec_plan(
            root,
            voice,
            cts,
            ls,
            walk_errors,
            files,
        ).voice_incompatible.len() == 0,
    decreases files.len(),
{
    if files.len() > 0 {
        law_voice_flags_are_exactly_the_flagged_cards(root, voice, cts, ls, walk_errors, files.drop_last());
        let prev = plan_fold(root, voice, cts, ls, walk_errors, files.drop_last()).0;
        let f = files.last();
        assert(plan_fold(root, voice, cts, ls, walk_errors, files).0.voice_incompatible =~= prev.voice_incompatible
            + voice_flag(root, voice, cts, f));
    } else {
        assert(spec_plan(root, voice, cts, ls, walk_errors, files).voice_incompatible =~= voice_flags(
            root,
            voice,
            cts,
            files,
        ));
    }
}

proof fn lemma_voice_leaves_the_fold(
    root: Seq<char>,
    v1: Option<(Set<i64>, bool)>,
    v2: Option<(Set<i64>, bool)>,
    cts: Seq<(Seq<char>, Seq<u8>)>,
    ls: Seq<(Seq<char>, ListingModel)>,
    walk_errors: Seq<UnreadableModel>,
    files: Seq<Seq<char>>,
)
    ensures
        plan_fold(root, v1, cts, ls, walk_errors, files).0.moves == plan_fold(root, v2, cts, ls, walk_errors, files).0.moves,
        plan_fold(root, v1, cts, ls, walk_errors, files).0.skipped == plan_fold(root, v2, cts, ls, walk_errors, files).0.skipped,
        plan_fold(root, v1, cts, ls, walk_errors, files).1 == plan_fold(root, v2, cts, ls, walk_errors, files).1,
    decreases files.len(),
{
    if files.len() > 0 {
        lemma_voice_leaves_the_fold(root, v1, v2, cts, ls, walk_errors, files.drop_last());
    }
}

pub open spec fn strings_model(v: Seq<String>) -> Seq<Seq<char>> {
    Seq::new(v.len(), |i: int| v[i]@)
}

pub open spec fn unreadables_model(v: Seq<Unreadable>) -> Seq<UnreadableModel> {
    Seq::new(v.len(), |i: int| v[i]@)
}

pub open spec fn dir_claims_model(v: Seq<(String, Claims)>) -> DirClaimsModel {
    Seq::new(v.len(), |i: int| (v[i].0@, v[i].1@))
}

fn push_error(p: &mut Plan, f: &str, e: CardError)
    ensures
        final(p)@ == report_error(old(p)@, f@, e@),
{
    let u = Unreadable { path: f.to_owned(), reason: e.reason() };
    match e {
        CardError::Unrecognized(_) => {
            p.unrecognized.push(u);
        },
        _ => {
            p.unreadable.push(u);
        },
    }
    proof {
        let q = report_error(old(p)@, f@, e@);
        assert(p@.unrecognized =~= q.unrecognized);
        assert(p@.unreadable =~= q.unreadable);
        assert(p@.moves =~= q.moves);
        assert(p@.skipped =~= q.skipped);
        assert(p@.voice_incompatible =~= q.voice_incompatible);
    }
}

fn push_voice(p: &mut Plan, f: &str, m: &CardMeta, voice: Option<&VoiceSupport>)
    ensures
        final(p)@ == report_voice(old(p)@, f@, m@, voice_model(voice)),
{
    if let Some(pid) = voice_issue(m, voice) {
        p.voice_incompatible.push(VoiceIssue { path: f.to_owned(), personality: pid });
    }
    proof {
        let q = report_voice(old(p)@, f@, m@, voice_model(voice));
        assert(p@.unrecognized =~= q.unrecognized);
        assert(p@.unreadable =~= q.unreadable);
        assert(p@.moves =~= q.moves);
        assert(p@.skipped =~= q.skipped);
        assert(p@.voice_incompatible =~= q.voice_incompatible);
    }
}

/// Reads the card that the snapshot holds for `f`.
fn read_card_from(contents: &Vec<(String, Vec<u8>)>, f: &str) -> (r: Result<CardMeta, CardError>)
    ensures
        match card_of(contents_model(contents@), f@) {
            Ok(m) => r matches Ok(x) && x@ == m,
            Err(e) => r matches Err(x) && x@ == e,
        },
{
    match lookup_content(contents, f) {
        None => Err(CardError::NotCard),
        Some(b) => parse_card(b),
    }
}

/// The listing the snapshot holds for `dir`.
fn find_listing<'b>(listings: &'b Vec<(String, Listing)>, dir: &str, missing: &'b Listing) -> (r: &'b Listing)
    requires
        missing@ == ListingModel::Missing,
    ensures
        r@ == listing_for(listings_model(listings@), dir@),
{
    let ghost lm = listings_model(listings@);
    assert(lm.skip(0) =~= lm);
    let mut i: usize = 0;
    while i < listings.len()
        invariant
            lm == listings_model(listings@),
            i <= listings@.len(),
            listing_for(lm, dir@) == listing_for(lm.skip(i as int), dir@),
        decreases listings@.len() - i,
    {
        assert(lm.skip(i as int).drop_first() =~= lm.skip(i + 1));
        assert(lm.skip(i as int)[0] == (listings@[i as int].0@, listings@[i as int].1@));
        if str_eq(listings[i].0.as_str(), dir) {
            return &listings[i].1;
        }
        i += 1;
    }
    missing
}

/// The position of `dir` among the claims by directory.
fn find_dir(dcs: &Vec<(String, Claims)>, dir: &str) -> (r: Option<usize>)
    ensures
        match r {
            Some(i) => dir_index(dir_claims_model(dcs@), dir@) == Some(i as int),
            None => dir_index(dir_claims_model(dcs@), dir@) is None,
        },
{
    let ghost m = dir_claims_model(dcs@);
    assert(m.skip(0) =~= m);
    let mut i: usize = 0;
    while i < dcs.len()
        invariant
            m == dir_claims_model(dcs@),
            i <= dcs@.len(),
            dir_index(m, dir@) == match dir_index(m.skip(i as int), dir@) {
                Some(j) => Some(j + i),
                None => None::<int>,
            },
        decreases dcs@.len() - i,
    {
        assert(m.skip(i as int).drop_first() =~= m.skip(i + 1));
        assert(m.skip(i as int)[0] == (dcs@[i as int].0@, dcs@[i as int].1@));
        if str_eq(dcs[i].0.as_str(), dir) {
            return Some(i);
        }
        i += 1;
    }
    None
}

/// Plans one walked file (see `plan_step`).
fn plan_one(
    root: &str,
    f: &str,
    voice: Option<&VoiceSupport>,
    contents: &Vec<(String, Vec<u8>)>,
    listings: &Vec<(String, Listing)>,
    p: &mut Plan,
    dcs: &mut Vec<(String, Claims)>,
)
    ensures
        (final(p)@, dir_claims_model(final(dcs)@)) == plan_step(
            root@,
            voice_model(voice),
            contents_model(contents@),
            listings_model(listings@),
            (old(p)@, dir_claims_model(old(dcs)@)),
            f@,
        ),
{
    if is_in_dest_folder(root, f) {
        if voice.is_some() {
            match read_card_from(contents, f) {
                Ok(meta) => push_voice(p, f, &meta, voice),
                Err(e) => push_error(p, f, e),
            }
        }
        let ghost before = p@;
        p.skipped.push(f.to_owned());
        proof {
            assert(p@.skipped =~= before.skipped.push(f@));
            assert(p@.moves =~= before.moves);
            assert(p@.unrecognized =~= before.unrecognized);
            assert(p@.unreadable =~= before.unreadable);
            assert(p@.voice_incompatible =~= before.voice_incompatible);
        }
        return;
    }
    let meta = match read_card_from(contents, f) {
        Ok(m) => m,
        Err(e) => {
            push_error(p, f, e);
            return;
        },
    };
    let name = match file_name(f) {
        Some(n) => n,
        None => return,
    };
    push_voice(p, f, &meta, voice);
    let dir = destination(root, &meta);
    let missing = Listing::Missing;
    let listing = find_listing(listings, dir.as_str(), &missing);
    let ghost m0 = dir_claims_model(dcs@);
    proof {
        lemma_dir_index(m0, dir@);
    }
    let idx = match find_dir(dcs, dir.as_str()) {
        Some(i) => i,
        None => {
            dcs.push((dir.clone(), Claims::new()));
            assert(dir_claims_model(dcs@) =~= m0.push((dir@, Seq::<(Seq<char>, ClaimModel)>::empty())));
            (dcs.len() - 1) as usize
        },
    };
    let ghost m1 = dir_claims_model(dcs@);
    assert(m1[idx as int] == (dir@, dir_claims(m0, dir@)));
    let (d, mut claims) = dcs.remove(idx);
    let r = resolve_collision(dir.as_str(), name.as_str(), f, &mut claims, listing, contents);
    let ghost before = p@;
    match r {
        Ok((to, collision)) => {
            p.moves.push(Planned { from: f.to_owned(), to, collision });
            proof {
                assert(p@.moves =~= before.moves.push(p@.moves.last()));
                assert(p@.skipped =~= before.skipped);
                assert(p@.unrecognized =~= before.unrecognized);
                assert(p@.unreadable =~= before.unreadable);
                assert(p@.voice_incompatible =~= before.voice_incompatible);
            }
        },
        Err(reason) => {
            p.unreadable.push(Unreadable { path: f.to_owned(), reason });
            proof {
                assert(p@.unreadable =~= before.unreadable.push(p@.unreadable.last()));
                assert(p@.skipped =~= before.skipped);
                assert(p@.unrecognized =~= before.unrecognized);
                assert(p@.moves =~= before.moves);
                assert(p@.voice_incompatible =~= before.voice_incompatible);
            }
        },
    }
    dcs.insert(idx, (d, claims));
    proof {
        assert(dir_claims_model(dcs@) =~= m0.update(idx as int, (dir@, claims@)) || dir_claims_model(dcs@) =~= m0.push((dir@, claims@)));
    }
}

/// Plans where every walked card goes. `files` are the walked PNG files in
/// walk order, `walk_errors` the failures met while walking, `contents` the
/// bytes of every file that could be read (walked files and files already
/// in destination folders), `listings` the listings of the destination
/// folders. Nothing on disk is touched.
pub fn plan(
    root: &str,
    files: &Vec<String>,
    walk_errors: Vec<Unreadable>,
    contents: &Vec<(String, Vec<u8>)>,
    listings: &Vec<(String, Listing)>,
    voice: Option<&VoiceSupport>,
) -> (p: Plan)
    ensures
        p@ == spec_plan(
            root@,
            voice_model(voice),
            contents_model(contents@),
            listings_model(listings@),
            unreadables_model(walk_errors@),
            strings_model(files@),
        ),
{
    let ghost fs = strings_model(files@);
    let ghost we = unreadables_model(walk_errors@);
    let mut p = Plan::default();
    p.unreadable = walk_errors;
    let mut dcs: Vec<(String, Claims)> = Vec::new();
    proof {
        assert(p@ =~= PlanModel { unreadable: we, ..empty_plan() });
        assert(fs.subrange(0, 0) =~= Seq::<Seq<char>>::empty());
        assert(dir_claims_model(dcs@) =~= Seq::<(Seq<char>, Seq<(Seq<char>, ClaimModel)>)>::empty());
    }
    let mut i: usize = 0;
    while i < files.len()
        invariant
            fs == strings_model(files@),
            we == unreadables_model(walk_errors@),
            i <= files@.len(),
            (p@, dir_claims_model(dcs@)) == plan_fold(
                root@,
                voice_model(voice),
                contents_model(contents@),
                listings_model(listings@),
                we,
                fs.subrange(0, i as int),
            ),
        decreases files@.len() - i,
    {
        proof {
            assert(fs.subrange(0, i + 1).drop_last() =~= fs.subrange(0, i as int));
            assert(fs.subrange(0, i + 1).last() == files@[i as int]@);
        }
        plan_one(root, files[i].as_str(), voice, contents, listings, &mut p, &mut dcs);
        i += 1;
    }
    assert(fs.subrange(0, fs.len() as int) =~= fs);
    p
}

// ---------------------------------------------------------------------------
// Applying a plan: the caller moves the files, the library keeps the count.
// ---------------------------------------------------------------------------

/// What happened when the caller tried to carry out one planned move.
pub enum MoveOutcome {
    /// The destination exists although the plan found it free; nothing moved.
    DestinationExists,
    /// The destination path has no parent directory.
    NoParent,
    /// The destination directory could not be created (the error's text).
    CreateDirFailed { dir: String, err: String },
    /// Renaming failed, the copy landed, but the source could not be removed.
    CopiedNotRemoved { err: String },
    /// Neither renaming nor copying worked.
    MoveFailed { err: String },
    /// The card moved.
    Moved,
}

pub enum MoveOutcomeModel {
    DestinationExists,
    NoParent,
    CreateDirFailed { dir: Seq<char>, err: Seq<char> },
    CopiedNotRemoved { err: Seq<char> },
    MoveFailed { err: Seq<char> },
    Moved,
}

impl View for MoveOutcome {
    type V = MoveOutcomeModel;

    open spec fn view(&self) -> MoveOutcomeModel {
        match self {
            MoveOutcome::DestinationExists => MoveOutcomeModel::DestinationExists,
            MoveOutcome::NoParent => MoveOutcomeModel::NoParent,
            MoveOutcome::CreateDirFailed { dir, err } => MoveOutcomeModel::CreateDirFailed { dir: dir@, err: err@ },
            MoveOutcome::CopiedNotRemoved { err } => MoveOutcomeModel::CopiedNotRemoved { err: err@ },
            MoveOutcome::MoveFailed { err } => MoveOutcomeModel::MoveFailed { err: err@ },
            MoveOutcome::Moved => MoveOutcomeModel::Moved,
        }
    }
}

/// The counts and errors of applying a plan.
pub struct ApplyModel {
    pub moved: nat,
    pub already_filed: nat,
    pub renamed: nat,
    pub errors: Seq<Seq<char>>,
}

impl View for ApplyResult {
    type V = ApplyModel;

    open spec fn view(&self) -> ApplyModel {
        ApplyModel {
            moved: self.moved as nat,
            already_filed: self.already_filed as nat,
            renamed: self.renamed as nat,
            errors: Seq::new(self.errors@.len(), |i: int| self.errors@[i]@),
        }
    }
}

/// Whether a planned move asks for a file to be written: only `Vacant`
/// and `Renamed` do. `AlreadyFiled` touches nothing, and `Unresolvable`
/// is an error without touching the filesystem.
pub open spec fn spec_wants_move(c: Collision) -> bool {
    c == Collision::Vacant || c == Collision::Renamed
}

pub fn wants_move(m: &Planned) -> (r: bool)
    ensures
        r == spec_wants_move(m.collision),
{
    m.collision == Collision::Vacant || m.collision == Collision::Renamed
}

/// The error message for a move that could not be carried out.
pub open spec fn outcome_error(from: Seq<char>, to: Seq<char>, o: MoveOutcomeModel) -> Seq<char> {
    match o {
        MoveOutcomeModel::DestinationExists => from + " -> "@ + to
            + ": the destination already exists although the plan found it free; nothing was moved — re-run the dry-run to re-plan"@,
        MoveOutcomeModel::NoParent => to + ": destination has no parent"@,
        MoveOutcomeModel::CreateDirFailed { dir, err } => dir + ": "@ + err,
        MoveOutcomeModel::CopiedNotRemoved { err } => from + " -> "@ + to
            + ": copied successfully but the source file could not be removed ("@ + err + "); delete "@
            + from + " manually to finish the move"@,
        MoveOutcomeModel::MoveFailed { err } => from + " -> "@ + to + ": move failed ("@ + err + ")"@,
        MoveOutcomeModel::Moved => seq![],
    }
}

/// The message for an unresolvable collision.
pub open spec fn unresolvable_message(from: Seq<char>, to: Seq<char>) -> Seq<char> {
    from + ": could not find a free destination name near \""@ + to
        + "\" (every \"name (N)\" slot up to the search cap is taken)"@
}

/// How one planned move changes the tally, given what carrying it out did
/// (`outcome` only matters for a move that asks for a write).
pub open spec fn spec_record(r: ApplyModel, m: PlannedModel, outcome: MoveOutcomeModel) -> ApplyModel {
    match m.collision {
        Collision::AlreadyFiled => ApplyModel { already_filed: r.already_filed + 1, ..r },
        Collision::Unresolvable => ApplyModel { errors: r.errors.push(unresolvable_message(m.from, m.to)), ..r },
        _ => match outcome {
            MoveOutcomeModel::Moved => if m.collision == Collision::Renamed {
                ApplyModel { renamed: r.renamed + 1, ..r }
            } else {
                ApplyModel { moved: r.moved + 1, ..r }
            },
            o => ApplyModel { errors: r.errors.push(outcome_error(m.from, m.to, o)), ..r },
        },
    }
}

/// Records one planned move in the tally.
pub fn record_move(r: &mut ApplyResult, m: &Planned, outcome: &MoveOutcome)
    requires
        old(r).moved < usize::MAX,
        old(r).already_filed < usize::MAX,
        old(r).renamed < usize::MAX,
    ensures
        final(r)@ == spec_record(old(r)@, m@, outcome@),
{
    let ghost before = r@;
    match m.collision {
        Collision::AlreadyFiled => {
            r.already_filed = r.already_filed + 1;
        },
        Collision::Unresolvable => {
            let mut e = m.from.clone();
            e.append(": could not find a free destination name near \"");
            e.append(m.to.as_str());
            e.append("\" (every \"name (N)\" slot up to the search cap is taken)");
            r.errors.push(e);
        },
        _ => {
            match outcome {
                MoveOutcome::Moved => {
                    if m.collision == Collision::Renamed {
                        r.renamed = r.renamed + 1;
                    } else {
                        r.moved = r.moved + 1;
                    }
                },
                MoveOutcome::DestinationExists => {
                    let mut e = m.from.clone();
                    e.append(" -> ");
                    e.append(m.to.as_str());
                    e.append(": the destination already exists although the plan found it free; nothing was moved — re-run the dry-run to re-plan");
                    r.errors.push(e);
                },
                MoveOutcome::NoParent => {
                    let mut e = m.to.clone();
                    e.append(": destination has no parent");
                    r.errors.push(e);
                },
                MoveOutcome::CreateDirFailed { dir, err } => {
                    let mut e = dir.clone();
                    e.append(": ");
                    e.append(err.as_str());
                    r.errors.push(e);
                },
                MoveOutcome::CopiedNotRemoved { err } => {
                    let mut e = m.from.clone();
                    e.append(" -> ");
                    e.append(m.to.as_str());
                    e.append(": copied successfully but the source file could not be removed (");
                    e.append(err.as_str());
                    e.append("); delete ");
                    e.append(m.from.as_str());
                    e.append(" manually to finish the move");
                    r.errors.push(e);
                },
                MoveOutcome::MoveFailed { err } => {
                    let mut e = m.from.clone();
                    e.append(" -> ");
                    e.append(m.to.as_str());
                    e.append(": move failed (");
                    e.append(err.as_str());
                    e.append(")");
                    r.errors.push(e);
                },
            }
        },
    }
    assert(r@.errors =~= spec_record(before, m@, outcome@).errors);
}

// ---------------------------------------------------------------------------
// Carrying out one move: which file-system action comes next.
// ---------------------------------------------------------------------------

/// The next file-system action in carrying out one planned move.
pub enum MoveAction {
    /// Check whether the destination exists: the plan may have gone stale,
    /// and a rename would silently replace what is there.
    CheckDestination,
    /// Create the destination's directory (and the directories above it).
    CreateDir(String),
    /// Rename the source onto the destination.
    Rename,
    /// Copy the source to the destination (renaming fails across volumes).
    Copy,
    /// Remove the source after a copy.
    RemoveSource,
    /// Stop: what the move came to.
    Finish(MoveOutcome),
}

pub enum MoveActionModel {
    CheckDestination,
    CreateDir(Seq<char>),
    Rename,
    Copy,
    RemoveSource,
    Finish(MoveOutcomeModel),
}

impl View for MoveAction {
    type V = MoveActionModel;

    open spec fn view(&self) -> MoveActionModel {
        match self {
            MoveAction::CheckDestination => MoveActionModel::CheckDestination,
            MoveAction::CreateDir(d) => MoveActionModel::CreateDir(d@),
            MoveAction::Rename => MoveActionModel::Rename,
            MoveAction::Copy => MoveActionModel::Copy,
            MoveAction::RemoveSource => MoveActionModel::RemoveSource,
            MoveAction::Finish(o) => MoveActionModel::Finish(o@),
        }
    }
}

/// What the caller saw when it carried out the last action.
pub enum MoveEvent {
    /// Nothing has been done yet for this move.
    Start,
    /// The answer to `CheckDestination`.
    Exists(bool),
    /// The last action succeeded.
    Done,
    /// The last action failed (the error's text).
    Failed(String),
}

pub enum MoveEventModel {
    Start,
    Exists(bool),
    Done,
    Failed(Seq<char>),
}

impl View for MoveEvent {
    type V = MoveEventModel;

    open spec fn view(&self) -> MoveEventModel {
        match self {
            MoveEvent::Start => MoveEventModel::Start,
            MoveEvent::Exists(b) => MoveEventModel::Exists(*b),
            MoveEvent::Done => MoveEventModel::Done,
            MoveEvent::Failed(e) => MoveEventModel::Failed(e@),
        }
    }
}

/// The action after `last`, given what it gave. The destination is checked
/// first; an occupied destination ends the move untouched. Then the
/// directory is created and the source renamed; a failed rename falls back
/// to copy and remove, and a copy whose source cannot be removed is reported
/// as such (the card now exists twice). An event that does not answer
/// `last` leaves it to be done again; a finished move stays finished until
/// the next one starts.
pub open spec fn spec_next_move(to: Seq<char>, last: MoveActionModel, ev: MoveEventModel) -> MoveActionModel {
    match (last, ev) {
        (_, MoveEventModel::Start) => MoveActionModel::CheckDestination,
        (MoveActionModel::CheckDestination, MoveEventModel::Exists(true)) => MoveActionModel::Finish(
            MoveOutcomeModel::DestinationExists,
        ),
        (MoveActionModel::CheckDestination, MoveEventModel::Exists(false)) => match path_parent(to) {
            Some(d) => MoveActionModel::CreateDir(d),
            None => MoveActionModel::Finish(MoveOutcomeModel::NoParent),
        },
        (MoveActionModel::CreateDir(_), MoveEventModel::Done) => MoveActionModel::Rename,
        (MoveActionModel::CreateDir(d), MoveEventModel::Failed(e)) => MoveActionModel::Finish(
            MoveOutcomeModel::CreateDirFailed { dir: d, err: e },
        ),
        (MoveActionModel::Rename, MoveEventModel::Done) => MoveActionModel::Finish(MoveOutcomeModel::Moved),
        (MoveActionModel::Rename, MoveEventModel::Failed(_)) => MoveActionModel::Copy,
        (MoveActionModel::Copy, MoveEventModel::Done) => MoveActionModel::RemoveSource,
        (MoveActionModel::Copy, MoveEventModel::Failed(e)) => MoveActionModel::Finish(
            MoveOutcomeModel::MoveFailed { err: e },
        ),
        (MoveActionModel::RemoveSource, MoveEventModel::Done) => MoveActionModel::Finish(MoveOutcomeModel::Moved),
        (MoveActionModel::RemoveSource, MoveEventModel::Failed(e)) => MoveActionModel::Finish(
            MoveOutcomeModel::CopiedNotRemoved { err: e },
        ),
        (l, _) => l,
    }
}

fn copy_outcome(o: &MoveOutcome) -> (r: MoveOutcome)
    ensures
        r@ == o@,
{
    match o {
        MoveOutcome::DestinationExists => MoveOutcome::DestinationExists,
        MoveOutcome::NoParent => MoveOutcome::NoParent,
        MoveOutcome::CreateDirFailed { dir, err } => MoveOutcome::CreateDirFailed { dir: dir.clone(), err: err.clone() },
        MoveOutcome::CopiedNotRemoved { err } => MoveOutcome::CopiedNotRemoved { err: err.clone() },
        MoveOutcome::MoveFailed { err } => MoveOutcome::MoveFailed { err: err.clone() },
        MoveOutcome::Moved => MoveOutcome::Moved,
    }
}

/// The next action in carrying out the planned move `m`.
pub fn next_move_action(m: &Planned, last: &MoveAction, event: &MoveEvent) -> (a: MoveAction)
    ensures
        a@ == spec_next_move(m.to@, last@, event@),
{
    match (last, event) {
        (_, MoveEvent::Start) => MoveAction::CheckDestination,
        (MoveAction::CheckDestination, MoveEvent::Exists(true)) => MoveAction::Finish(MoveOutcome::DestinationExists),
        (MoveAction::CheckDestination, MoveEvent::Exists(false)) => match parent(m.to.as_str()) {
            Some(d) => MoveAction::CreateDir(d),
            None => MoveAction::Finish(MoveOutcome::NoParent),
        },
        (MoveAction::CreateDir(_), MoveEvent::Done) => MoveAction::Rename,
        (MoveAction::CreateDir(d), MoveEvent::Failed(e)) => MoveAction::Finish(
            MoveOutcome::CreateDirFailed { dir: d.clone(), err: e.clone() },
        ),
        (MoveAction::Rename, MoveEvent::Done) => MoveAction::Finish(MoveOutcome::Moved),
        (MoveAction::Rename, MoveEvent::Failed(_)) => MoveAction::Copy,
        (MoveAction::Copy, MoveEvent::Done) => MoveAction::RemoveSource,
        (MoveAction::Copy, MoveEvent::Failed(e)) => MoveAction::Finish(MoveOutcome::MoveFailed { err: e.clone() }),
        (MoveAction::RemoveSource, MoveEvent::Done) => MoveAction::Finish(MoveOutcome::Moved),
        (MoveAction::RemoveSource, MoveEvent::Failed(e)) => MoveAction::Finish(
            MoveOutcome::CopiedNotRemoved { err: e.clone() },
        ),
        (MoveAction::CheckDestination, _) => MoveAction::CheckDestination,
        (MoveAction::CreateDir(d), _) => MoveAction::CreateDir(d.clone()),
        (MoveAction::Rename, _) => MoveAction::Rename,
        (MoveAction::Copy, _) => MoveAction::Copy,
        (MoveAction::RemoveSource, _) => MoveAction::RemoveSource,
        (MoveAction::Finish(o), _) => MoveAction::Finish(copy_outcome(o)),
    }
}

/// A file is written only onto a destination found free: a rename or a copy
/// comes only after the destination's directory was created, which comes
/// only after the destination was found not to exist; an occupied
/// destination ends the move at once; and a finished move stays finished
/// until the next one starts.
pub proof fn law_writes_only_onto_a_free_destination(to: Seq<char>, last: MoveActionModel, ev: MoveEventModel)
    ensures
        last is CheckDestination && ev == MoveEventModel::Exists(true) ==> spec_next_move(to, last, ev)
            == MoveActionModel::Finish(MoveOutcomeModel::DestinationExists),
        spec_next_move(to, last, ev) is CreateDir ==> last is CreateDir || (last is CheckDestination && ev
            == MoveEventModel::Exists(false)),
        spec_next_move(to, last, ev) is Rename ==> last is Rename || (last is CreateDir && ev is Done),
        spec_next_move(to, last, ev) is Copy ==> last is Copy || (last is Rename && ev is Failed),
        spec_next_move(to, last, ev) is RemoveSource ==> last is RemoveSource || (last is Copy && ev is Done),
        last is Finish && !(ev is Start) ==> spec_next_move(to, last, ev) == last,
{
}

/// The tally after recording every planned move with its outcome.
pub open spec fn spec_apply(moves: Seq<PlannedModel>, outcomes: Seq<MoveOutcomeModel>) -> ApplyModel
    decreases moves.len(),
{
    if moves.len() == 0 {
        ApplyModel { moved: 0, already_filed: 0, renamed: 0, errors: seq![] }
    } else {
        spec_record(
            spec_apply(moves.drop_last(), outcomes),
            moves.last(),
            outcomes[moves.len() - 1],
        )
    }
}

/// Law: applying a plan accounts for every planned move exactly once:
/// moved, renamed, already filed, or reported as an error.
pub proof fn law_every_move_is_counted_once(moves: Seq<PlannedModel>, outcomes: Seq<MoveOutcomeModel>)
    ensures
        ({
            let a = spec_apply(moves, outcomes);
            a.moved + a.renamed + a.already_filed + a.errors.len() == moves.len()
        }),
    decreases moves.len(),
{
    if moves.len() > 0 {
        law_every_move_is_counted_once(moves.drop_last(), outcomes);
    }
}

/// How many planned moves have collision `c`.
pub open spec fn count_collision(moves: Seq<PlannedModel>, c: Collision) -> nat
    decreases moves.len(),
{
    if moves.len() == 0 {
        0
    } else {
        count_collision(moves.drop_last(), c) + if moves.last().collision == c { 1nat } else { 0nat }
    }
}

/// How many planned moves that ask for a write were reported as failing.
pub open spec fn count_failed_writes(moves: Seq<PlannedModel>, outcomes: Seq<MoveOutcomeModel>) -> nat
    decreases moves.len(),
{
    if moves.len() == 0 {
        0
    } else {
        count_failed_writes(moves.drop_last(), outcomes) + if spec_wants_move(moves.last().collision)
            && !(outcomes[moves.len() - 1] is Moved) {
            1nat
        } else {
            0nat
        }
    }
}

/// Law: applying a plan counts each kind of move apart. `already_filed` is
/// the number of `AlreadyFiled` moves; `moved` and `renamed` are the
/// `Vacant` and `Renamed` moves that were carried out, so never more than
/// there are of them; and each error is an `Unresolvable` move or a move
/// whose write failed, one error each.
pub proof fn law_each_kind_of_move_is_counted_apart(moves: Seq<PlannedModel>, outcomes: Seq<MoveOutcomeModel>)
    ensures
        ({
            let a = spec_apply(moves, outcomes);
            &&& a.already_filed == count_collision(moves, Collision::AlreadyFiled)
            &&& a.moved <= count_collision(moves, Collision::Vacant)
            &&& a.renamed <= count_collision(moves, Collision::Renamed)
            &&& a.moved + a.renamed + count_failed_writes(moves, outcomes) == count_collision(moves, Collision::Vacant)
                + count_collision(moves, Collision::Renamed)
            &&& a.errors.len() == count_collision(moves, Collision::Unresolvable) + count_failed_writes(moves, outcomes)
        }),
    decreases moves.len(),
{
    if moves.len() > 0 {
        law_each_kind_of_move_is_counted_apart(moves.drop_last(), outcomes);
    }
}

/// Law: a move that asks for no write is never counted as moved: an
/// `AlreadyFiled` move only adds to `already_filed`, an `Unresolvable` one
/// only to the errors, whatever the caller reports.
pub proof fn law_no_write_without_a_free_name(r: ApplyModel, m: PlannedModel, outcome: MoveOutcomeModel)
    ensures
        !spec_wants_move(m.collision) ==> {
            let a = spec_record(r, m, outcome);
            a.moved == r.moved && a.renamed == r.renamed
        },
{
}

// ---------------------------------------------------------------------------
// Laws of collision resolution.
// ---------------------------------------------------------------------------

proof fn lemma_suffix_search(
    dir: Seq<char>,
    stem: Seq<char>,
    ext: Seq<char>,
    cs: Seq<(Seq<char>, ClaimModel)>,
    l: ListingModel,
    n: nat,
)
    ensures
        suffix_search(dir, stem, ext, cs, l, n) matches Ok(Some(cand)) ==> {
            &&& claim_get(cs, spec_claim_key(cand)) is None
            &&& spec_existing(dir, cand, l) == Ok::<Option<Seq<char>>, Seq<char>>(None)
            &&& exists|m: nat| n <= m < 10000 && cand == candidate_name(stem, ext, m)
        },
        suffix_search(dir, stem, ext, cs, l, n) matches Ok(None) ==> forall|m: nat|
            n <= m < 10000 ==> {
                ||| claim_get(cs, spec_claim_key(#[trigger] candidate_name(stem, ext, m))) is Some
                ||| spec_existing(dir, candidate_name(stem, ext, m), l) matches Ok(Some(_))
            },
    decreases 10000 - n,
{
    if n < 10000 {
        lemma_suffix_search(dir, stem, ext, cs, l, n + 1);
        if let Ok(None) = suffix_search(dir, stem, ext, cs, l, n) {
            assert forall|m: nat| n <= m < 10000 implies {
                ||| claim_get(cs, spec_claim_key(#[trigger] candidate_name(stem, ext, m))) is Some
                ||| spec_existing(dir, candidate_name(stem, ext, m), l) matches Ok(Some(_))
            } by {
                if m > n {
                }
            }
        }
    }
}

/// Whether the suffixed slot `n` is taken: its name is claimed in this pass
/// or already in the directory.
pub open spec fn slot_taken(
    dir: Seq<char>,
    stem: Seq<char>,
    ext: Seq<char>,
    cs: Seq<(Seq<char>, ClaimModel)>,
    l: ListingModel,
    n: nat,
) -> bool {
    ||| claim_get(cs, spec_claim_key(candidate_name(stem, ext, n))) is Some
    ||| spec_existing(dir, candidate_name(stem, ext, n), l) matches Ok(Some(_))
}

proof fn lemma_suffix_search_least(
    dir: Seq<char>,
    stem: Seq<char>,
    ext: Seq<char>,
    cs: Seq<(Seq<char>, ClaimModel)>,
    l: ListingModel,
    n: nat,
)
    ensures
        suffix_search(dir, stem, ext, cs, l, n) matches Ok(Some(cand)) ==> exists|m: nat|
            n <= m < 10000 && cand == candidate_name(stem, ext, m) && !slot_taken(dir, stem, ext, cs, l, m)
                && forall|k: nat| n <= k < m ==> #[trigger] slot_taken(dir, stem, ext, cs, l, k),
    decreases 10000 - n,
{
    if n < 10000 {
        lemma_suffix_search_least(dir, stem, ext, cs, l, n + 1);
        if let Ok(Some(cand)) = suffix_search(dir, stem, ext, cs, l, n) {
            if slot_taken(dir, stem, ext, cs, l, n) {
                let m = choose|m: nat|
                    n + 1 <= m < 10000 && cand == candidate_name(stem, ext, m) && !slot_taken(dir, stem, ext, cs, l, m)
                        && forall|k: nat| n + 1 <= k < m ==> #[trigger] slot_taken(dir, stem, ext, cs, l, k);
                assert forall|k: nat| n <= k < m implies #[trigger] slot_taken(dir, stem, ext, cs, l, k) by {
                    if k > n {
                    }
                }
            } else {
                assert(cand == candidate_name(stem, ext, n));
            }
        }
    }
}

/// `suffixed` picks the least free slot: the name it gives is
/// `stem (m).ext` for the least `m` from 2 below the cap whose name is
/// neither claimed in this pass nor already in the directory; it gives no
/// name only when every such slot is taken.
pub proof fn law_suffixed_picks_the_least_free_slot(
    dir: Seq<char>,
    name: Seq<char>,
    cs: Seq<(Seq<char>, ClaimModel)>,
    l: ListingModel,
)
    ensures
        ({
            let stem = or_empty(path_file_stem(name));
            let ext = or_empty(path_extension(name));
            &&& spec_suffixed(dir, name, cs, l) matches Ok(Some(p)) ==> exists|m: nat|
                2 <= m < 10000 && p == joined(dir, candidate_name(stem, ext, m)) && !slot_taken(
                    dir,
                    stem,
                    ext,
                    cs,
                    l,
                    m,
                ) && forall|k: nat| 2 <= k < m ==> #[trigger] slot_taken(dir, stem, ext, cs, l, k)
            &&& spec_suffixed(dir, name, cs, l) matches Ok(None) ==> forall|k: nat|
                2 <= k < 10000 ==> #[trigger] slot_taken(dir, stem, ext, cs, l, k)
        }),
{
    let stem = or_empty(path_file_stem(name));
    let ext = or_empty(path_extension(name));
    lemma_suffix_search_least(dir, stem, ext, cs, l, 2);
    lemma_suffix_search(dir, stem, ext, cs, l, 2);
}

proof fn lemma_identical_min(
    cs: Seq<(Seq<char>, ClaimModel)>,
    cts: Seq<(Seq<char>, Seq<u8>)>,
    src: Seq<u8>,
)
    ensures
        identical_min(cs, cts, src) matches Some(d) ==> exists|i: int|
            0 <= i < cs.len() && #[trigger] cs[i].1.dest == d && content_of(cts, cs[i].1.source)
                == Some(src),
    decreases cs.len(),
{
    if cs.len() > 0 {
        lemma_identical_min(cs.drop_last(), cts, src);
        if let Some(d0) = identical_min(cs.drop_last(), cts, src) {
            let i0 = choose|i: int|
                0 <= i < cs.drop_last().len() && #[trigger] cs.drop_last()[i].1.dest == d0
                    && content_of(cts, cs.drop_last()[i].1.source) == Some(src);
            assert(cs[i0] == cs.drop_last()[i0]);
        }
        assert(cs.last() == cs[cs.len() - 1]);
    }
}

/// Law: when resolving plans a file to be written (`Vacant` or `Renamed`),
/// the name it takes was claimed by no file earlier in the pass, and the
/// one claim it registers records this source at this destination; every
/// other outcome leaves the claims unchanged. Hence two pending sources
/// bound for one directory are always resolved against each other: they
/// never both take the same name.
pub proof fn law_planned_name_is_fresh(
    dir: Seq<char>,
    name: Seq<char>,
    source: Seq<char>,
    cs: Seq<(Seq<char>, ClaimModel)>,
    l: ListingModel,
    cts: Seq<(Seq<char>, Seq<u8>)>,
)
    ensures
        spec_resolve(dir, name, source, cs, l, cts) matches Ok((d, c, cs2)) ==> {
            &&& (c == Collision::Vacant || c == Collision::Renamed) ==> exists|k: Seq<char>|
                claim_get(cs, k) is None && cs2 == cs.push((k, ClaimModel { dest: d, source }))
            &&& (c == Collision::AlreadyFiled || c == Collision::Unresolvable) ==> cs2 == cs
        },
{
    let key = spec_claim_key(name);
    lemma_claim_index(cs, key);
    lemma_suffix_search(dir, or_empty(path_file_stem(name)), or_empty(path_extension(name)), cs, l, 2);
    if let Ok((d, c, cs2)) = spec_resolve(dir, name, source, cs, l, cts) {
        if c == Collision::Renamed {
            if let Ok(Some(cand)) = spec_suffixed_name(dir, name, cs, l) {
                lemma_claim_index(cs, spec_claim_key(cand));
            }
        }
    }
}

/// Law: a card is reported `AlreadyFiled` only when its bytes are exactly
/// those of a file that already holds the destination: the file on disk
/// there, or a source claimed for it earlier in the pass. Identical content
/// is never filed a second time, and different content never counts as
/// filed.
pub proof fn law_already_filed_means_identical(
    dir: Seq<char>,
    name: Seq<char>,
    source: Seq<char>,
    cs: Seq<(Seq<char>, ClaimModel)>,
    l: ListingModel,
    cts: Seq<(Seq<char>, Seq<u8>)>,
)
    ensures
        spec_resolve(dir, name, source, cs, l, cts) matches Ok((d, c, _)) ==> (c
            == Collision::AlreadyFiled ==> exists|q: Seq<char>|
            spec_same_bytes(cts, source, q) && (q == d || exists|i: int|
                0 <= i < cs.len() && cs[i].1 == ClaimModel { dest: d, source: q })),
{
    let key = spec_claim_key(name);
    lemma_claim_index(cs, key);
    if let Some(b) = content_of(cts, source) {
        lemma_identical_min(cs, cts, b);
    }
    if let Ok((d, c, _)) = spec_resolve(dir, name, source, cs, l, cts) {
        if c == Collision::AlreadyFiled {
            match claim_get(cs, key) {
                Some(cl) => {
                    let i = claim_index(cs, key)->0;
                    if spec_same_bytes(cts, source, cl.source) {
                        assert(cs[i].1 == ClaimModel { dest: d, source: cl.source });
                    } else {
                        let b = content_of(cts, source)->0;
                        let j = choose|j: int|
                            0 <= j < cs.len() && #[trigger] cs[j].1.dest == d && content_of(cts, cs[j].1.source)
                                == Some(b);
                        assert(spec_same_bytes(cts, source, cs[j].1.source));
                        assert(cs[j].1 == ClaimModel { dest: d, source: cs[j].1.source });
                    }
                },
                None => {
                    if let Ok(Some(p)) = spec_existing(dir, name, l) {
                        if !spec_same_bytes(cts, source, p) {
                            let b = content_of(cts, source)->0;
                            let j = choose|j: int|
                                0 <= j < cs.len() && #[trigger] cs[j].1.dest == d && content_of(cts, cs[j].1.source)
                                    == Some(b);
                            assert(spec_same_bytes(cts, source, cs[j].1.source));
                            assert(cs[j].1 == ClaimModel { dest: d, source: cs[j].1.source });
                        }
                    }
                },
            }
        }
    }
}

/// Law: a collision is `Unresolvable` only when every `name (N)` slot from
/// 2 up to the cap is taken, by a claim of this pass or by a file already
/// in the directory; and a `Vacant` outcome takes the plain name, which
/// nothing claimed and nothing on disk holds.
pub proof fn law_unresolvable_only_when_every_slot_is_taken(
    dir: Seq<char>,
    name: Seq<char>,
    source: Seq<char>,
    cs: Seq<(Seq<char>, ClaimModel)>,
    l: ListingModel,
    cts: Seq<(Seq<char>, Seq<u8>)>,
)
    ensures
        spec_resolve(dir, name, source, cs, l, cts) matches Ok((d, c, _)) ==> {
            &&& c == Collision::Unresolvable ==> forall|m: nat|
                2 <= m < 10000 ==> {
                    let cand = #[trigger] candidate_name(
                        or_empty(path_file_stem(name)),
                        or_empty(path_extension(name)),
                        m,
                    );
                    ||| claim_get(cs, spec_claim_key(cand)) is Some
                    ||| spec_existing(dir, cand, l) matches Ok(Some(_))
                }
            &&& c == Collision::Vacant ==> {
                &&& d == joined(dir, name)
                &&& claim_get(cs, spec_claim_key(name)) is None
                &&& spec_existing(dir, name, l) == Ok::<Option<Seq<char>>, Seq<char>>(None)
            }
        },
{
    lemma_suffix_search(dir, or_empty(path_file_stem(name)), or_empty(path_extension(name)), cs, l, 2);
}

// ---------------------------------------------------------------------------
// Laws of the plan.
// ---------------------------------------------------------------------------

/// Whether a plan reports `f` somewhere: skipped, planned to move, or
/// reported as unrecognized or unreadable.
pub open spec fn accounted(p: PlanModel, f: Seq<char>) -> bool {
    ||| p.skipped.contains(f)
    ||| exists|j: int| 0 <= j < p.moves.len() && #[trigger] p.moves[j].from == f
    ||| exists|j: int| 0 <= j < p.unrecognized.len() && #[trigger] p.unrecognized[j].path == f
    ||| exists|j: int| 0 <= j < p.unreadable.len() && #[trigger] p.unreadable[j].path == f
}

/// Whether no planned move starts inside a destination folder.
pub open spec fn moves_outside_dest(root: Seq<char>, p: PlanModel) -> bool {
    forall|j: int| 0 <= j < p.moves.len() ==> !spec_in_dest_folder(root, #[trigger] p.moves[j].from)
}

proof fn lemma_step(
    root: Seq<char>,
    voice: Option<(Set<i64>, bool)>,
    cts: Seq<(Seq<char>, Seq<u8>)>,
    ls: Seq<(Seq<char>, ListingModel)>,
    st: (PlanModel, DirClaimsModel),
    f: Seq<char>,
    g: Seq<char>,
)
    ensures
        accounted(st.0, g) ==> accounted(plan_step(root, voice, cts, ls, st, f).0, g),
        path_file_name(f) is Some || spec_in_dest_folder(root, f) ==> accounted(plan_step(root, voice, cts, ls, st, f).0, f),
        moves_outside_dest(root, st.0) ==> moves_outside_dest(root, plan_step(root, voice, cts, ls, st, f).0),
        plan_step(root, voice, cts, ls, st, f).0.skipped == if spec_in_dest_folder(root, f) {
            st.0.skipped.push(f)
        } else {
            st.0.skipped
        },
{
    let p = st.0;
    let q = plan_step(root, voice, cts, ls, st, f).0;
    if accounted(p, g) {
        if p.skipped.contains(g) {
            let j = choose|j: int| 0 <= j < p.skipped.len() && p.skipped[j] == g;
            assert(q.skipped[j] == g);
        } else if exists|j: int| 0 <= j < p.moves.len() && #[trigger] p.moves[j].from == g {
            let j = choose|j: int| 0 <= j < p.moves.len() && #[trigger] p.moves[j].from == g;
            assert(q.moves[j].from == g);
        } else if exists|j: int| 0 <= j < p.unrecognized.len() && #[trigger] p.unrecognized[j].path == g {
            let j = choose|j: int| 0 <= j < p.unrecognized.len() && #[trigger] p.unrecognized[j].path == g;
            assert(q.unrecognized[j].path == g);
        } else {
            let j = choose|j: int| 0 <= j < p.unreadable.len() && #[trigger] p.unreadable[j].path == g;
            assert(q.unreadable[j].path == g);
        }
    }
    if spec_in_dest_folder(root, f) {
        assert(q.skipped[q.skipped.len() - 1] == f);
    } else if path_file_name(f) is Some {
        match card_of(cts, f) {
            Err(e) => {
                match e {
                    CardErrorModel::Unrecognized(_) => assert(q.unrecognized[q.unrecognized.len() - 1].path == f),
                    _ => assert(q.unreadable[q.unreadable.len() - 1].path == f),
                }
            },
            Ok(m) => {
                let p1 = report_voice(p, f, m, voice);
                let dir = spec_destination(root, m);
                match spec_resolve(dir, path_file_name(f)->0, f, dir_claims(st.1, dir), listing_for(ls, dir), cts) {
                    Ok(_) => assert(q.moves[q.moves.len() - 1].from == f),
                    Err(_) => assert(q.unreadable[q.unreadable.len() - 1].path == f),
                }
            },
        }
    }
    if moves_outside_dest(root, p) {
        assert forall|j: int| 0 <= j < q.moves.len() implies !spec_in_dest_folder(root, #[trigger] q.moves[j].from) by {
            if j < p.moves.len() {
                assert(q.moves[j] == p.moves[j]);
            }
        }
    }
}

/// Law: planning drops nothing and moves nothing already filed. Every
/// walked file that has a file name is reported: skipped, planned to move,
/// or reported unrecognized or unreadable; a file already in a destination
/// folder is skipped (in walk order) and never planned to move.
pub proof fn law_every_walked_file_is_accounted_for(
    root: Seq<char>,
    voice: Option<(Set<i64>, bool)>,
    cts: Seq<(Seq<char>, Seq<u8>)>,
    ls: Seq<(Seq<char>, ListingModel)>,
    walk_errors: Seq<UnreadableModel>,
    files: Seq<Seq<char>>,
)
    ensures
        forall|i: int|
            0 <= i < files.len() && (path_file_name(files[i]) is Some || spec_in_dest_folder(root, files[i]))
                ==> accounted(spec_plan(root, voice, cts, ls, walk_errors, files), #[trigger] files[i]),
        moves_outside_dest(root, spec_plan(root, voice, cts, ls, walk_errors, files)),
        spec_plan(root, voice, cts, ls, walk_errors, files).skipped == files.filter(
            |f: Seq<char>| spec_in_dest_folder(root, f),
        ),
    decreases files.len(),
{
    let p = spec_plan(root, voice, cts, ls, walk_errors, files);
    if files.len() == 0 {
        assert(files.filter(|f: Seq<char>| spec_in_dest_folder(root, f)) =~= Seq::<Seq<char>>::empty()) by {
            reveal_with_fuel(Seq::filter, 1);
        }
    } else {
        let prev = files.drop_last();
        law_every_walked_file_is_accounted_for(root, voice, cts, ls, walk_errors, prev);
        let st = plan_fold(root, voice, cts, ls, walk_errors, prev);
        assert forall|i: int|
            0 <= i < files.len() && (path_file_name(files[i]) is Some || spec_in_dest_folder(root, files[i]))
                implies accounted(p, #[trigger] files[i]) by {
            lemma_step(root, voice, cts, ls, st, files.last(), files[i]);
            if i < files.len() - 1 {
                assert(prev[i] == files[i]);
            }
        }
        lemma_step(root, voice, cts, ls, st, files.last(), files.last());
        assert(files.filter(|f: Seq<char>| spec_in_dest_folder(root, f)) == if spec_in_dest_folder(root, files.last()) {
            prev.filter(|f: Seq<char>| spec_in_dest_folder(root, f)).push(files.last())
        } else {
            prev.filter(|f: Seq<char>| spec_in_dest_folder(root, f))
        }) by {
            reveal_with_fuel(Seq::filter, 1);
            assert(files =~= prev.push(files.last()));
        }
    }
}

/// How many times `g` occurs in `s`.
pub open spec fn occurrences(s: Seq<Seq<char>>, g: Seq<char>) -> nat
    decreases s.len(),
{
    if s.len() == 0 {
        0
    } else {
        occurrences(s.drop_last(), g) + if s.last() == g { 1nat } else { 0nat }
    }
}

proof fn lemma_occurrences_add(a: Seq<Seq<char>>, b: Seq<Seq<char>>, g: Seq<char>)
    ensures
        occurrences(a + b, g) == occurrences(a, g) + occurrences(b, g),
    decreases b.len(),
{
    if b.len() == 0 {
        assert(a + b =~= a);
    } else {
        lemma_occurrences_add(a, b.drop_last(), g);
        assert((a + b).drop_last() =~= a + b.drop_last());
    }
}

/// Every path a plan reports a file under, bucket after bucket: the sources
/// of the moves, the skipped files, the unrecognized ones, the unreadable
/// ones.
pub open spec fn reported_paths(p: PlanModel) -> Seq<Seq<char>> {
    p.moves.map_values(|m: PlannedModel| m.from) + p.skipped + p.unrecognized.map_values(
        |u: UnreadableModel| u.path,
    ) + p.unreadable.map_values(|u: UnreadableModel| u.path)
}

/// How many bucket entries planning gives one walked file: one, except
/// that a file already in a destination folder whose card a voice check
/// could not read is both skipped and reported, and that a readable card
/// outside the destination folders without a file name is passed over.
pub open spec fn entries_for(
    root: Seq<char>,
    voice: Option<(Set<i64>, bool)>,
    cts: Seq<(Seq<char>, Seq<u8>)>,
    f: Seq<char>,
) -> nat {
    if spec_in_dest_folder(root, f) {
        if voice is Some && card_of(cts, f) is Err { 2 } else { 1 }
    } else if card_of(cts, f) is Ok && path_file_name(f) is None {
        0
    } else {
        1
    }
}

/// The entries planning gives a run of walked files under the path `g`.
pub open spec fn walked_entries(
    root: Seq<char>,
    voice: Option<(Set<i64>, bool)>,
    cts: Seq<(Seq<char>, Seq<u8>)>,
    files: Seq<Seq<char>>,
    g: Seq<char>,
) -> nat
    decreases files.len(),
{
    if files.len() == 0 {
        0
    } else {
        walked_entries(root, voice, cts, files.drop_last(), g) + if files.last() == g {
            entries_for(root, voice, cts, g)
        } else {
            0nat
        }
    }
}

proof fn lemma_step_entries(
    root: Seq<char>,
    voice: Option<(Set<i64>, bool)>,
    cts: Seq<(Seq<char>, Seq<u8>)>,
    ls: Seq<(Seq<char>, ListingModel)>,
    st: (PlanModel, DirClaimsModel),
    f: Seq<char>,
    g: Seq<char>,
)
    ensures
        occurrences(reported_paths(plan_step(root, voice, cts, ls, st, f).0), g) == occurrences(
            reported_paths(st.0),
            g,
        ) + if f == g { entries_for(root, voice, cts, f) } else { 0nat },
{
    let p = st.0;
    let q = plan_step(root, voice, cts, ls, st, f).0;
    let a = p.moves.map_values(|m: PlannedModel| m.from);
    let b = p.skipped;
    let c = p.unrecognized.map_values(|u: UnreadableModel| u.path);
    let d = p.unreadable.map_values(|u: UnreadableModel| u.path);
    let a2 = q.moves.map_values(|m: PlannedModel| m.from);
    let b2 = q.skipped;
    let c2 = q.unrecognized.map_values(|u: UnreadableModel| u.path);
    let d2 = q.unreadable.map_values(|u: UnreadableModel| u.path);
    let one = seq![f];
    let hit: nat = if f == g { 1 } else { 0 };
    assert(occurrences(one, g) == hit) by {
        assert(one.drop_last() =~= Seq::<Seq<char>>::empty());
        assert(one.last() == f);
        assert(occurrences(one.drop_last(), g) == 0);
    }
    // Each bucket either keeps its entries or gains `f` at its end.
    assert(a2 =~= a || a2 =~= a + one);
    assert(b2 =~= b || b2 =~= b + one);
    assert(c2 =~= c || c2 =~= c + one);
    assert(d2 =~= d || d2 =~= d + one);
    let gained: nat = (if a2 =~= a { 0nat } else { 1nat }) + (if b2 =~= b { 0nat } else { 1nat }) + (if c2
        =~= c { 0nat } else { 1nat }) + (if d2 =~= d { 0nat } else { 1nat });
    assert(gained == entries_for(root, voice, cts, f)) by {
        if spec_in_dest_folder(root, f) {
            assert(b2 =~= b.push(f));
            assert(!(b2 =~= b));
            assert(a2 =~= a);
            if voice is Some {
                match card_of(cts, f) {
                    Ok(m) => {
                        assert(c2 =~= c);
                        assert(d2 =~= d);
                    },
                    Err(e) => match e {
                        CardErrorModel::Unrecognized(_) => {
                            assert(c2 =~= c.push(f));
                            assert(!(c2 =~= c));
                            assert(d2 =~= d);
                        },
                        _ => {
                            assert(d2 =~= d.push(f));
                            assert(!(d2 =~= d));
                            assert(c2 =~= c);
                        },
                    },
                }
            } else {
                assert(c2 =~= c);
                assert(d2 =~= d);
            }
        } else {
            assert(b2 =~= b);
            match card_of(cts, f) {
                Err(e) => {
                    assert(a2 =~= a);
                    match e {
                        CardErrorModel::Unrecognized(_) => {
                            assert(c2 =~= c.push(f));
                            assert(!(c2 =~= c));
                            assert(d2 =~= d);
                        },
                        _ => {
                            assert(d2 =~= d.push(f));
                            assert(!(d2 =~= d));
                            assert(c2 =~= c);
                        },
                    }
                },
                Ok(m) => match path_file_name(f) {
                    None => {
                        assert(a2 =~= a);
                        assert(c2 =~= c);
                        assert(d2 =~= d);
                    },
                    Some(name) => {
                        assert(c2 =~= c);
                        let dir = spec_destination(root, m);
                        match spec_resolve(dir, name, f, dir_claims(st.1, dir), listing_for(ls, dir), cts) {
                            Ok(_) => {
                                assert(a2 =~= a.push(f));
                                assert(!(a2 =~= a));
                                assert(d2 =~= d);
                            },
                            Err(_) => {
                                assert(a2 =~= a);
                                assert(d2 =~= d.push(f));
                                assert(!(d2 =~= d));
                            },
                        }
                    },
                },
            }
        }
    }
    lemma_occurrences_add(a, one, g);
    lemma_occurrences_add(b, one, g);
    lemma_occurrences_add(c, one, g);
    lemma_occurrences_add(d, one, g);
    lemma_occurrences_add(a + b, c, g);
    lemma_occurrences_add(a, b, g);
    lemma_occurrences_add(a + b + c, d, g);
    lemma_occurrences_add(a2 + b2 + c2, d2, g);
    lemma_occurrences_add(a2 + b2, c2, g);
    lemma_occurrences_add(a2, b2, g);
}

proof fn lemma_fold_entries(
    root: Seq<char>,
    voice: Option<(Set<i64>, bool)>,
    cts: Seq<(Seq<char>, Seq<u8>)>,
    ls: Seq<(Seq<char>, ListingModel)>,
    walk_errors: Seq<UnreadableModel>,
    files: Seq<Seq<char>>,
    g: Seq<char>,
)
    ensures
        occurrences(reported_paths(spec_plan(root, voice, cts, ls, walk_errors, files)), g) == occurrences(
            walk_errors.map_values(|u: UnreadableModel| u.path),
            g,
        ) + walked_entries(root, voice, cts, files, g),
    decreases files.len(),
{
    if files.len() == 0 {
        let p = spec_plan(root, voice, cts, ls, walk_errors, files);
        let e = Seq::<Seq<char>>::empty();
        assert(p.moves.map_values(|m: PlannedModel| m.from) =~= e);
        assert(p.unrecognized.map_values(|u: UnreadableModel| u.path) =~= e);
        assert(reported_paths(p) =~= walk_errors.map_values(|u: UnreadableModel| u.path));
    } else {
        lemma_fold_entries(root, voice, cts, ls, walk_errors, files.drop_last(), g);
        lemma_step_entries(
            root,
            voice,
            cts,
            ls,
            plan_fold(root, voice, cts, ls, walk_errors, files.drop_last()),
            files.last(),
            g,
        );
    }
}

proof fn lemma_walked_entries_distinct(
    root: Seq<char>,
    voice: Option<(Set<i64>, bool)>,
    cts: Seq<(Seq<char>, Seq<u8>)>,
    files: Seq<Seq<char>>,
    g: Seq<char>,
)
    requires
        files.no_duplicates(),
    ensures
        walked_entries(root, voice, cts, files, g) == if files.contains(g) {
            entries_for(root, voice, cts, g)
        } else {
            0nat
        },
    decreases files.len(),
{
    if files.len() > 0 {
        let prev = files.drop_last();
        assert(prev.no_duplicates()) by {
            assert forall|i: int, j: int| 0 <= i < prev.len() && 0 <= j < prev.len() && i != j implies prev[i]
                != prev[j] by {
                assert(prev[i] == files[i] && prev[j] == files[j]);
            }
        }
        lemma_walked_entries_distinct(root, voice, cts, prev, g);
        if files.last() == g {
            assert(!prev.contains(g)) by {
                if prev.contains(g) {
                    let i = choose|i: int| 0 <= i < prev.len() && prev[i] == g;
                    assert(files[i] == files[files.len() - 1]);
                }
            }
            assert(files.contains(g)) by {
                assert(files[files.len() - 1] == g);
            }
        } else {
            assert(files.contains(g) == prev.contains(g)) by {
                if files.contains(g) {
                    let i = choose|i: int| 0 <= i < files.len() && files[i] == g;
                    assert(prev[i] == g);
                }
                if prev.contains(g) {
                    let i = choose|i: int| 0 <= i < prev.len() && prev[i] == g;
                    assert(files[i] == g);
                }
            }
        }
    }
}

/// Law: planning reports each walked file in exactly one bucket, and only
/// walked files. Of distinct walked files (none of them among the walk's
/// own failures), each occurs among the move sources, the skipped, the
/// unrecognized and the unreadable files exactly `entries_for` times: once,
/// except that a file already in a destination folder whose card a voice
/// check could not read is skipped and also reported, and that a readable
/// card outside the destination folders with no file name is passed over.
/// Any other reported path is one of the walk's failures.
pub proof fn law_each_walked_file_lands_in_one_bucket(
    root: Seq<char>,
    voice: Option<(Set<i64>, bool)>,
    cts: Seq<(Seq<char>, Seq<u8>)>,
    ls: Seq<(Seq<char>, ListingModel)>,
    walk_errors: Seq<UnreadableModel>,
    files: Seq<Seq<char>>,
    g: Seq<char>,
)
    requires
        files.no_duplicates(),
        files.contains(g) ==> !walk_errors.map_values(|u: UnreadableModel| u.path).contains(g),
    ensures
        files.contains(g) ==> occurrences(reported_paths(spec_plan(root, voice, cts, ls, walk_errors, files)), g)
            == entries_for(root, voice, cts, g),
        !files.contains(g) ==> occurrences(reported_paths(spec_plan(root, voice, cts, ls, walk_errors, files)), g)
            == occurrences(walk_errors.map_values(|u: UnreadableModel| u.path), g),
{
    lemma_fold_entries(root, voice, cts, ls, walk_errors, files, g);
    lemma_walked_entries_distinct(root, voice, cts, files, g);
    if files.contains(g) {
        lemma_occurrences_absent(walk_errors.map_values(|u: UnreadableModel| u.path), g);
    }
}

proof fn lemma_occurrences_absent(s: Seq<Seq<char>>, g: Seq<char>)
    requires
        !s.contains(g),
    ensures
        occurrences(s, g) == 0,
    decreases s.len(),
{
    if s.len() > 0 {
        assert(!s.drop_last().contains(g)) by {
            if s.drop_last().contains(g) {
                let i = choose|i: int| 0 <= i < s.drop_last().len() && s.drop_last()[i] == g;
                assert(s[i] == g);
            }
        }
        assert(s[s.len() - 1] != g);
        lemma_occurrences_absent(s.drop_last(), g);
    }
}

// ---------------------------------------------------------------------------
// Written moves hold distinct slots.
// ---------------------------------------------------------------------------

proof fn lemma_dir_claims_set(dcs: DirClaimsModel, dir: Seq<char>, cs: Seq<(Seq<char>, ClaimModel)>, d: Seq<char>)
    ensures
        dir_claims(dir_claims_set(dcs, dir, cs), d) == if d == dir { cs } else { dir_claims(dcs, d) },
    decreases dcs.len(),
{
    let n = dir_claims_set(dcs, dir, cs);
    if dcs.len() == 0 {
        assert(n =~= seq![(dir, cs)]);
        assert(n.drop_first() =~= DirClaimsModel::empty());
        assert(n[0] == (dir, cs));
        assert(dir_claims(n.drop_first(), d) == Seq::<(Seq<char>, ClaimModel)>::empty());
    } else if dcs[0].0 == dir {
        assert(dir_index(dcs, dir) == Some(0int));
        assert(n == dcs.update(0, (dir, cs)));
        assert(n.drop_first() =~= dcs.drop_first());
        assert(n[0] == (dir, cs));
    } else {
        let rest = dcs.drop_first();
        lemma_dir_claims_set(rest, dir, cs, d);
        lemma_dir_index(rest, dir);
        match dir_index(rest, dir) {
            Some(i) => {
                assert(n == dcs.update(i + 1, (dir, cs)));
                assert(n.drop_first() =~= rest.update(i, (dir, cs)));
            },
            None => {
                assert(n == dcs.push((dir, cs)));
                assert(n.drop_first() =~= rest.push((dir, cs)));
            },
        }
        assert(n[0] == dcs[0]);
    }
}

proof fn lemma_claim_get_push(cs: Seq<(Seq<char>, ClaimModel)>, k: Seq<char>, c: ClaimModel, k2: Seq<char>)
    ensures
        claim_get(cs.push((k, c)), k2) == if claim_get(cs, k2) is Some {
            claim_get(cs, k2)
        } else if k2 == k {
            Some(c)
        } else {
            None
        },
    decreases cs.len(),
{
    if cs.len() == 0 {
        assert(cs.push((k, c)).drop_first() =~= cs);
    } else {
        lemma_claim_get_push(cs.drop_first(), k, c, k2);
        assert(cs.push((k, c)).drop_first() =~= cs.drop_first().push((k, c)));
    }
}

/// Registering a claim under a key that nothing holds keeps every claim
/// already made and makes the new one.
proof fn lemma_claim_insert_fresh(cs: Seq<(Seq<char>, ClaimModel)>, k: Seq<char>, c: ClaimModel)
    requires
        claim_get(cs, k) is None,
    ensures
        forall|k2: Seq<char>|
            claim_get(cs, k2) is Some ==> #[trigger] claim_get(claim_insert(cs, k, c), k2) == claim_get(cs, k2),
        claim_get(claim_insert(cs, k, c), k) == Some(c),
{
    lemma_claim_index(cs, k);
    assert(claim_insert(cs, k, c) == cs.push((k, c)));
    assert forall|k2: Seq<char>| claim_get(cs, k2) is Some implies #[trigger] claim_get(claim_insert(cs, k, c), k2)
        == claim_get(cs, k2) by {
        lemma_claim_get_push(cs, k, c, k2);
    }
    lemma_claim_get_push(cs, k, c, k);
}

/// A written move holds its slot in the claims of the pass: its destination
/// is its directory joined with a name, and the claim under that name's key
/// in that directory records exactly this move.
pub open spec fn holds_slot(dcs: DirClaimsModel, m: PlannedModel) -> bool {
    exists|d: Seq<char>, n: Seq<char>|
        m.to == joined(d, n) && #[trigger] claim_get(dir_claims(dcs, d), spec_claim_key(n)) == Some(
            ClaimModel { dest: m.to, source: m.from },
        )
}

/// Claims made stay as they were.
pub open spec fn claims_kept(a: DirClaimsModel, b: DirClaimsModel) -> bool {
    forall|d: Seq<char>, k: Seq<char>|
        claim_get(dir_claims(a, d), k) is Some ==> #[trigger] claim_get(dir_claims(b, d), k) == claim_get(
            dir_claims(a, d),
            k,
        )
}

proof fn lemma_step_slots(
    root: Seq<char>,
    voice: Option<(Set<i64>, bool)>,
    cts: Seq<(Seq<char>, Seq<u8>)>,
    ls: Seq<(Seq<char>, ListingModel)>,
    st: (PlanModel, DirClaimsModel),
    f: Seq<char>,
)
    ensures
        claims_kept(st.1, plan_step(root, voice, cts, ls, st, f).1),
        plan_step(root, voice, cts, ls, st, f).0.moves == st.0.moves || ({
            let q = plan_step(root, voice, cts, ls, st, f);
            &&& q.0.moves.len() == st.0.moves.len() + 1
            &&& q.0.moves.drop_last() == st.0.moves
            &&& q.0.moves.last().from == f
            &&& spec_wants_move(q.0.moves.last().collision) ==> holds_slot(q.1, q.0.moves.last())
        }),
{
    let (p, dcs) = st;
    let q = plan_step(root, voice, cts, ls, st, f);
    if !spec_in_dest_folder(root, f) {
        if let Ok(m) = card_of(cts, f) {
            if let Some(name) = path_file_name(f) {
                let dir = spec_destination(root, m);
                let cs = dir_claims(dcs, dir);
                let l = listing_for(ls, dir);
                law_when_each_collision_is_owed(dir, name, f, cs, l, cts);
                match spec_resolve(dir, name, f, cs, l, cts) {
                    Ok((to, c, cs2)) => {
                        assert(q.0.moves.drop_last() =~= p.moves);
                        if c == Collision::Vacant {
                            lemma_claim_insert_fresh(cs, spec_claim_key(name), ClaimModel { dest: to, source: f });
                        } else if c == Collision::Renamed {
                            let cand = choose|cand: Seq<char>|
                                to == joined(dir, cand) && spec_suffixed_name(dir, name, cs, l) == Ok::<
                                    Option<Seq<char>>,
                                    Seq<char>,
                                >(Some(cand)) && cs2 == claim_insert(
                                    cs,
                                    spec_claim_key(cand),
                                    ClaimModel { dest: to, source: f },
                                );
                            lemma_suffix_search(
                                dir,
                                or_empty(path_file_stem(name)),
                                or_empty(path_extension(name)),
                                cs,
                                l,
                                2,
                            );
                            lemma_claim_insert_fresh(cs, spec_claim_key(cand), ClaimModel { dest: to, source: f });
                        }
                        assert forall|d: Seq<char>, k: Seq<char>|
                            claim_get(dir_claims(dcs, d), k) is Some implies #[trigger] claim_get(
                                dir_claims(q.1, d),
                                k,
                            ) == claim_get(dir_claims(dcs, d), k) by {
                            lemma_dir_claims_set(dcs, dir, cs2, d);
                        }
                        if c == Collision::Vacant {
                            lemma_dir_claims_set(dcs, dir, cs2, dir);
                            assert(claim_get(dir_claims(q.1, dir), spec_claim_key(name)) == Some(
                                ClaimModel { dest: to, source: f },
                            ));
                        } else if c == Collision::Renamed {
                            let cand = choose|cand: Seq<char>|
                                to == joined(dir, cand) && spec_suffixed_name(dir, name, cs, l) == Ok::<
                                    Option<Seq<char>>,
                                    Seq<char>,
                                >(Some(cand)) && cs2 == claim_insert(
                                    cs,
                                    spec_claim_key(cand),
                                    ClaimModel { dest: to, source: f },
                                );
                            lemma_dir_claims_set(dcs, dir, cs2, dir);
                            assert(claim_get(dir_claims(q.1, dir), spec_claim_key(cand)) == Some(
                                ClaimModel { dest: to, source: f },
                            ));
                        }
                    },
                    Err(_) => {
                        assert forall|d: Seq<char>, k: Seq<char>|
                            claim_get(dir_claims(dcs, d), k) is Some implies #[trigger] claim_get(
                                dir_claims(q.1, d),
                                k,
                            ) == claim_get(dir_claims(dcs, d), k) by {
                            lemma_dir_claims_set(dcs, dir, cs, d);
                        }
                    },
                }
            }
        }
    }
}

proof fn lemma_fold_slots(
    root: Seq<char>,
    voice: Option<(Set<i64>, bool)>,
    cts: Seq<(Seq<char>, Seq<u8>)>,
    ls: Seq<(Seq<char>, ListingModel)>,
    walk_errors: Seq<UnreadableModel>,
    files: Seq<Seq<char>>,
)
    requires
        files.no_duplicates(),
    ensures
        ({
            let (p, dcs) = plan_fold(root, voice, cts, ls, walk_errors, files);
            &&& forall|i: int|
                0 <= i < p.moves.len() && spec_wants_move(p.moves[i].collision) ==> holds_slot(
                    dcs,
                    #[trigger] p.moves[i],
                )
            &&& forall|i: int| 0 <= i < p.moves.len() ==> files.contains(#[trigger] p.moves[i].from)
            &&& forall|i: int, j: int|
                0 <= i < j < p.moves.len() ==> #[trigger] p.moves[i].from != #[trigger] p.moves[j].from
        }),
    decreases files.len(),
{
    if files.len() > 0 {
        let prev = files.drop_last();
        let f = files.last();
        assert(prev.no_duplicates()) by {
            assert forall|i: int, j: int| 0 <= i < prev.len() && 0 <= j < prev.len() && i != j implies prev[i]
                != prev[j] by {
                assert(prev[i] == files[i] && prev[j] == files[j]);
            }
        }
        lemma_fold_slots(root, voice, cts, ls, walk_errors, prev);
        let st = plan_fold(root, voice, cts, ls, walk_errors, prev);
        lemma_step_slots(root, voice, cts, ls, st, f);
        let (p0, d0) = st;
        let (p, dcs) = plan_fold(root, voice, cts, ls, walk_errors, files);
        assert(!prev.contains(f)) by {
            if prev.contains(f) {
                let i = choose|i: int| 0 <= i < prev.len() && prev[i] == f;
                assert(files[i] == files[files.len() - 1]);
            }
        }
        assert forall|i: int| 0 <= i < p0.moves.len() && spec_wants_move(p0.moves[i].collision) implies holds_slot(
            dcs,
            #[trigger] p0.moves[i],
        ) by {
            let m = p0.moves[i];
            let (d, n) = choose|d: Seq<char>, n: Seq<char>|
                m.to == joined(d, n) && #[trigger] claim_get(dir_claims(d0, d), spec_claim_key(n)) == Some(
                    ClaimModel { dest: m.to, source: m.from },
                );
            assert(claim_get(dir_claims(dcs, d), spec_claim_key(n)) == claim_get(dir_claims(d0, d), spec_claim_key(n)));
        }
        assert forall|i: int| 0 <= i < p.moves.len() implies files.contains(#[trigger] p.moves[i].from) by {
            if i < p0.moves.len() {
                assert(p.moves[i] == p0.moves[i]);
                let j = choose|j: int| 0 <= j < prev.len() && prev[j] == p0.moves[i].from;
                assert(files[j] == prev[j]);
            } else {
                assert(files[files.len() - 1] == f);
            }
        }
        assert forall|i: int| 0 <= i < p.moves.len() && spec_wants_move(p.moves[i].collision) implies holds_slot(
            dcs,
            #[trigger] p.moves[i],
        ) by {
            if i < p0.moves.len() {
                assert(p.moves[i] == p0.moves[i]);
            }
        }
        assert forall|i: int, j: int| 0 <= i < j < p.moves.len() implies #[trigger] p.moves[i].from
            != #[trigger] p.moves[j].from by {
            if j < p0.moves.len() {
                assert(p.moves[i] == p0.moves[i] && p.moves[j] == p0.moves[j]);
            } else {
                assert(p.moves[i] == p0.moves[i]);
                assert(p.moves[j].from == f);
            }
        }
    }
}

/// Law: no two moves of a plan that write a file take the same slot. Of
/// distinct walked files, each `Vacant` or `Renamed` move goes to its
/// directory joined with a name, and holds the claim under that name's
/// case-folded key in that directory, recorded with its own source; moves
/// have distinct sources, so two written moves never share a directory and
/// a case-folded name.
pub proof fn law_written_moves_take_distinct_slots(
    root: Seq<char>,
    voice: Option<(Set<i64>, bool)>,
    cts: Seq<(Seq<char>, Seq<u8>)>,
    ls: Seq<(Seq<char>, ListingModel)>,
    walk_errors: Seq<UnreadableModel>,
    files: Seq<Seq<char>>,
)
    requires
        files.no_duplicates(),
    ensures
        ({
            let (p, dcs) = plan_fold(root, voice, cts, ls, walk_errors, files);
            &&& forall|i: int|
                0 <= i < p.moves.len() && spec_wants_move(p.moves[i].collision) ==> holds_slot(
                    dcs,
                    #[trigger] p.moves[i],
                )
            &&& forall|i: int, j: int, d: Seq<char>, n1: Seq<char>, n2: Seq<char>|
                #![trigger p.moves[i], p.moves[j], claim_get(dir_claims(dcs, d), spec_claim_key(n1)), claim_get(dir_claims(dcs, d), spec_claim_key(n2))]
                0 <= i < p.moves.len() && 0 <= j < p.moves.len() && i != j && spec_wants_move(p.moves[i].collision)
                    && spec_wants_move(p.moves[j].collision) && claim_get(dir_claims(dcs, d), spec_claim_key(n1))
                    == Some(ClaimModel { dest: p.moves[i].to, source: p.moves[i].from }) && claim_get(
                    dir_claims(dcs, d),
                    spec_claim_key(n2),
                ) == Some(ClaimModel { dest: p.moves[j].to, source: p.moves[j].from }) ==> spec_claim_key(n1)
                    != spec_claim_key(n2)
        }),
{
    lemma_fold_slots(root, voice, cts, ls, walk_errors, files);
    let (p, dcs) = plan_fold(root, voice, cts, ls, walk_errors, files);
    assert forall|i: int, j: int, d: Seq<char>, n1: Seq<char>, n2: Seq<char>|
        #![trigger p.moves[i], p.moves[j], claim_get(dir_claims(dcs, d), spec_claim_key(n1)), claim_get(dir_claims(dcs, d), spec_claim_key(n2))]
        0 <= i < p.moves.len() && 0 <= j < p.moves.len() && i != j && spec_wants_move(p.moves[i].collision)
            && spec_wants_move(p.moves[j].collision) && claim_get(dir_claims(dcs, d), spec_claim_key(n1))
            == Some(ClaimModel { dest: p.moves[i].to, source: p.moves[i].from }) && claim_get(
            dir_claims(dcs, d),
            spec_claim_key(n2),
        ) == Some(ClaimModel { dest: p.moves[j].to, source: p.moves[j].from }) implies spec_claim_key(n1)
        != spec_claim_key(n2) by {
        if i < j {
            assert(p.moves[i].from != p.moves[j].from);
        } else {
            assert(p.moves[j].from != p.moves[i].from);
        }
    }
}

} // verus!
