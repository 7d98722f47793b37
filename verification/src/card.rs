//! Structured Koikatsu card metadata: marker -> (game, card type), and the
//! Parameter block's sex / name / personality. Starts from the offset that
//! `png_char_block` computes by walking the PNG chunk chain.
//!
//! Layout of the appended data:
//! `i32 ProductNo`, `str marker`, `str version`, `i32 face length` (that
//! many bytes skipped when positive), `i32 n` + `n` bytes of MessagePack
//! block table `{ lstInfo: [{name, version, pos, size}] }`, `i64 total`;
//! each block sits at `base + pos`, `base` being the offset after `total`.

use vstd::prelude::*;
use crate::msgpack::{
    decode, failure_message, lemma_models_index, models, spec_as_array, spec_as_i64, spec_as_str,
    spec_decode, spec_get, Value, ValueModel, pow256,
};
use crate::text::{debug_quoted, debug_str, from_utf8_lossy, str_eq, utf8_lossy};
use crate::dedup::{png_char_block, spec_png_char_block};

verus! {

#[derive(Debug, Clone, Copy, PartialEq, Eq, Structural)]
pub enum Game {
    Koikatu,
    KoikatsuSunshine,
    HoneyCome,
    Svc,
    Aicomi,
}

/// The folder a game's cards are filed under.
pub open spec fn game_folder(g: Game) -> Seq<char> {
    match g {
        Game::Koikatu => "Koikatu"@,
        Game::KoikatsuSunshine => "KoikatsuSunshine"@,
        Game::HoneyCome => "HoneyCome"@,
        Game::Svc => "SVC"@,
        Game::Aicomi => "Aicomi"@,
    }
}

impl Game {
    pub fn folder(&self) -> (f: &'static str)
        ensures
            f@ == game_folder(*self),
    {
        match self {
            Game::Koikatu => "Koikatu",
            Game::KoikatsuSunshine => "KoikatsuSunshine",
            Game::HoneyCome => "HoneyCome",
            Game::Svc => "SVC",
            Game::Aicomi => "Aicomi",
        }
    }
}

/// Every folder name `organize` may create at the destination root. The
/// exclusion rule compares a path's FIRST segment against exactly these.
pub const DEST_FOLDERS: [&'static str; 5] = ["Koikatu", "KoikatsuSunshine", "HoneyCome", "SVC", "Aicomi"];

#[derive(Debug, Clone, Copy, PartialEq, Eq, Structural)]
pub enum CardType {
    Character,
    Coordinate,
}

pub open spec fn card_type_folder(t: CardType) -> Seq<char> {
    match t {
        CardType::Character => "Character"@,
        CardType::Coordinate => "Coordinate"@,
    }
}

impl CardType {
    pub fn folder(&self) -> (f: &'static str)
        ensures
            f@ == card_type_folder(*self),
    {
        match self {
            CardType::Character => "Character",
            CardType::Coordinate => "Coordinate",
        }
    }
}

#[derive(Debug, Clone, Copy, PartialEq, Eq, Structural)]
pub enum Sex {
    Male,
    Female,
    Unknown,
}

pub open spec fn sex_folder(s: Sex) -> Seq<char> {
    match s {
        Sex::Male => "Male"@,
        Sex::Female => "Female"@,
        Sex::Unknown => "Unknown"@,
    }
}

impl Sex {
    pub fn folder(&self) -> (f: &'static str)
        ensures
            f@ == sex_folder(*self),
    {
        match self {
            Sex::Male => "Male",
            Sex::Female => "Female",
            Sex::Unknown => "Unknown",
        }
    }
}

#[derive(Debug)]
pub struct BlockInfo {
    pub name: String,
    pub version: String,
    pub pos: u64,
    pub size: u64,
}

/// The model of a [`BlockInfo`].
pub struct BlockModel {
    pub name: Seq<char>,
    pub version: Seq<char>,
    pub pos: u64,
    pub size: u64,
}

impl View for BlockInfo {
    type V = BlockModel;

    open spec fn view(&self) -> BlockModel {
        BlockModel { name: self.name@, version: self.version@, pos: self.pos, size: self.size }
    }
}

#[derive(Debug)]
pub struct CardMeta {
    pub game: Game,
    pub card_type: CardType,
    pub sex: Sex,
    pub lastname: String,
    pub firstname: String,
    pub personality: Option<i64>,
    pub blocks: Vec<BlockInfo>,
    /// Absolute file offset the block table's `pos` values are relative to.
    pub base: u64,
}

/// The model of a [`CardMeta`].
pub struct CardModel {
    pub game: Game,
    pub card_type: CardType,
    pub sex: Sex,
    pub lastname: Seq<char>,
    pub firstname: Seq<char>,
    pub personality: Option<i64>,
    pub blocks: Seq<BlockModel>,
    pub base: nat,
}

pub open spec fn block_views(s: Seq<BlockInfo>) -> Seq<BlockModel> {
    Seq::new(s.len(), |i: int| s[i]@)
}

impl View for CardMeta {
    type V = CardModel;

    open spec fn view(&self) -> CardModel {
        CardModel {
            game: self.game,
            card_type: self.card_type,
            sex: self.sex,
            lastname: self.lastname@,
            firstname: self.firstname@,
            personality: self.personality,
            blocks: block_views(self.blocks@),
            base: self.base as nat,
        }
    }
}

#[derive(Debug)]
pub enum CardError {
    /// Not a PNG, or a PNG with no appended Koikatsu block.
    NotCard,
    /// A card of some kind, but its marker is not in the table. Never guessed.
    Unrecognized(String),
    /// Structurally broken past the marker.
    Malformed(String),
}

/// The model of a [`CardError`].
pub enum CardErrorModel {
    NotCard,
    Unrecognized(Seq<char>),
    Malformed(Seq<char>),
}

impl View for CardError {
    type V = CardErrorModel;

    open spec fn view(&self) -> CardErrorModel {
        match self {
            CardError::NotCard => CardErrorModel::NotCard,
            CardError::Unrecognized(m) => CardErrorModel::Unrecognized(m@),
            CardError::Malformed(m) => CardErrorModel::Malformed(m@),
        }
    }
}

/// The human-readable reason for a card error.
pub open spec fn error_reason(e: CardErrorModel) -> Seq<char> {
    match e {
        CardErrorModel::NotCard => "not a card (no appended Koikatsu block)"@,
        CardErrorModel::Unrecognized(m) => "unrecognized marker "@ + debug_str(m),
        CardErrorModel::Malformed(m) => "malformed: "@ + m,
    }
}

impl CardError {
    pub fn reason(&self) -> (r: String)
        ensures
            r@ == error_reason(self@),
    {
        match self {
            CardError::NotCard => "not a card (no appended Koikatsu block)".to_owned(),
            CardError::Unrecognized(m) => {
                let mut r = "unrecognized marker ".to_owned();
                let q = debug_quoted(m.as_str());
                r.append(q.as_str());
                r
            },
            CardError::Malformed(m) => {
                let mut r = "malformed: ".to_owned();
                r.append(m.as_str());
                r
            },
        }
    }
}

/// Marker -> (game, card type). Only markers seen on a real card are
/// listed; anything else is unrecognized rather than guessed.
pub open spec fn spec_classify(m: Seq<char>) -> Option<(Game, CardType)> {
    if m == "【KoiKatuChara】"@ || m == "【KoiKatuCharaS】"@ || m == "【KoiKatuCharaSP】"@ {
        Some((Game::Koikatu, CardType::Character))
    } else if m == "【KoiKatuClothes】"@ {
        Some((Game::Koikatu, CardType::Coordinate))
    } else if m == "【KoiKatuCharaSun】"@ {
        Some((Game::KoikatsuSunshine, CardType::Character))
    } else if m == "【HCChara】"@ || m == "【HCPChara】"@ {
        Some((Game::HoneyCome, CardType::Character))
    } else if m == "【SVChara】"@ {
        Some((Game::Svc, CardType::Character))
    } else if m == "【SVClothes】"@ {
        Some((Game::Svc, CardType::Coordinate))
    } else if m == "【ACChara】"@ {
        Some((Game::Aicomi, CardType::Character))
    } else if m == "【ACClothes】"@ {
        Some((Game::Aicomi, CardType::Coordinate))
    } else {
        None
    }
}

pub fn classify_marker(marker: &str) -> (r: Option<(Game, CardType)>)
    ensures
        r == spec_classify(marker@),
{
    if str_eq(marker, "【KoiKatuChara】") || str_eq(marker, "【KoiKatuCharaS】") || str_eq(
        marker,
        "【KoiKatuCharaSP】",
    ) {
        Some((Game::Koikatu, CardType::Character))
    } else if str_eq(marker, "【KoiKatuClothes】") {
        Some((Game::Koikatu, CardType::Coordinate))
    } else if str_eq(marker, "【KoiKatuCharaSun】") {
        Some((Game::KoikatsuSunshine, CardType::Character))
    } else if str_eq(marker, "【HCChara】") || str_eq(marker, "【HCPChara】") {
        Some((Game::HoneyCome, CardType::Character))
    } else if str_eq(marker, "【SVChara】") {
        Some((Game::Svc, CardType::Character))
    } else if str_eq(marker, "【SVClothes】") {
        Some((Game::Svc, CardType::Coordinate))
    } else if str_eq(marker, "【ACChara】") {
        Some((Game::Aicomi, CardType::Character))
    } else if str_eq(marker, "【ACClothes】") {
        Some((Game::Aicomi, CardType::Coordinate))
    } else {
        None
    }
}

// ---------------------------------------------------------------------------
// The appended block, as a function on bytes.
// ---------------------------------------------------------------------------

/// The end of `n` bytes at `p`, or the message a cursor reports for them.
pub open spec fn span(buf: Seq<u8>, p: nat, n: nat) -> Result<nat, Seq<char>> {
    if p + n > usize::MAX {
        Err("length overflow"@)
    } else if p + n > buf.len() {
        Err("truncated card"@)
    } else {
        Ok(p + n)
    }
}

/// Little-endian unsigned value of a byte sequence.
pub open spec fn le_uint(s: Seq<u8>) -> nat
    decreases s.len(),
{
    if s.len() == 0 {
        0
    } else {
        s[0] as nat + 256 * le_uint(s.drop_first())
    }
}

/// A little-endian two's complement `i32` at `p`.
pub open spec fn read_i32(buf: Seq<u8>, p: nat) -> Result<(i32, nat), Seq<char>> {
    match span(buf, p, 4) {
        Ok(e) => {
            let v = le_uint(buf.subrange(p as int, e as int));
            Ok(((if v < 0x8000_0000 { v as int } else { v - 0x1_0000_0000 }) as i32, e))
        },
        Err(m) => Err(m),
    }
}

/// A little-endian two's complement `i64` at `p`.
pub open spec fn read_i64(buf: Seq<u8>, p: nat) -> Result<(i64, nat), Seq<char>> {
    match span(buf, p, 8) {
        Ok(e) => {
            let v = le_uint(buf.subrange(p as int, e as int));
            Ok(
                (
                    (if v < 0x8000_0000_0000_0000 {
                        v as int
                    } else {
                        v - 0x1_0000_0000_0000_0000
                    }) as i64,
                    e,
                ),
            )
        },
        Err(m) => Err(m),
    }
}

/// `128` to the power `k`.
pub open spec fn pow128(k: nat) -> nat
    decreases k,
{
    if k == 0 {
        1
    } else {
        pow128((k - 1) as nat) * 128
    }
}

/// The rest of a 7-bit encoded length whose first `k` bytes summed to
/// `acc`, starting at `p`: each byte gives 7 more low-to-high bits and a
/// set top bit says another byte follows; a sixth byte is refused.
pub open spec fn read_len7(buf: Seq<u8>, p: nat, k: nat, acc: nat) -> Result<(nat, nat), Seq<char>>
    decreases 5 - k,
{
    match span(buf, p, 1) {
        Err(m) => Err(m),
        Ok(e) => {
            let b = buf[p as int];
            let acc2: nat = acc + (b % 128) as nat * pow128(k);
            if b < 128 {
                Ok((acc2, e))
            } else if k + 1 > 4 {
                Err("bad 7-bit length prefix"@)
            } else {
                read_len7(buf, e, k + 1, acc2)
            }
        },
    }
}

/// A .NET `BinaryReader` string at `p`: 7-bit encoded length, then that
/// many bytes. Gives the raw bytes.
pub open spec fn read_net_string(buf: Seq<u8>, p: nat) -> Result<(Seq<u8>, nat), Seq<char>> {
    match read_len7(buf, p, 0, 0) {
        Err(m) => Err(m),
        Ok((n, q)) => match span(buf, q, n) {
            Err(m) => Err(m),
            Ok(e) => Ok((buf.subrange(q as int, e as int), e)),
        },
    }
}

/// A string field of a map, or the empty string.
pub open spec fn str_or_empty(v: Option<ValueModel>) -> Seq<char> {
    match v {
        Some(x) => match spec_as_str(x) {
            Some(s) => s,
            None => seq![],
        },
        None => seq![],
    }
}

/// An integer field of a map, or `default`.
pub open spec fn i64_or(v: Option<ValueModel>, default: i64) -> i64 {
    match v {
        Some(x) => match spec_as_i64(x) {
            Some(i) => i,
            None => default,
        },
        None => default,
    }
}

/// An integer field of a map, if it is one.
pub open spec fn i64_field(v: Option<ValueModel>) -> Option<i64> {
    match v {
        Some(x) => spec_as_i64(x),
        None => None,
    }
}

/// Whether a block table entry names a block that lies at a non-negative
/// position with a non-negative size.
pub open spec fn entry_kept(item: ValueModel) -> bool {
    i64_or(spec_get(item, "pos"@), -1i64) >= 0 && i64_or(spec_get(item, "size"@), -1i64) >= 0
}

/// The block described by a table entry.
pub open spec fn entry_block(item: ValueModel) -> BlockModel {
    BlockModel {
        name: str_or_empty(spec_get(item, "name"@)),
        version: str_or_empty(spec_get(item, "version"@)),
        pos: i64_or(spec_get(item, "pos"@), -1i64) as u64,
        size: i64_or(spec_get(item, "size"@), -1i64) as u64,
    }
}

/// The blocks listed by table entries, in order, leaving out entries with a
/// missing or negative position or size.
pub open spec fn block_list(items: Seq<ValueModel>) -> Seq<BlockModel>
    decreases items.len(),
{
    if items.len() == 0 {
        seq![]
    } else {
        let prev = block_list(items.drop_last());
        if entry_kept(items.last()) {
            prev.push(entry_block(items.last()))
        } else {
            prev
        }
    }
}

/// The blocks of a decoded block table (`lstInfo`), none if it has no list.
pub open spec fn table_blocks(table: ValueModel) -> Seq<BlockModel> {
    match spec_get(table, "lstInfo"@) {
        Some(l) => match spec_as_array(l) {
            Some(items) => block_list(items),
            None => seq![],
        },
        None => seq![],
    }
}

/// The first block with the given name.
pub open spec fn first_named(blocks: Seq<BlockModel>, name: Seq<char>) -> Option<BlockModel>
    decreases blocks.len(),
{
    if blocks.len() == 0 {
        None
    } else if blocks[0].name == name {
        Some(blocks[0])
    } else {
        first_named(blocks.drop_first(), name)
    }
}

/// Sex, last name, first name and personality read from a Parameter map.
pub open spec fn parameter_fields(p: ValueModel) -> (Sex, Seq<char>, Seq<char>, Option<i64>) {
    (
        match i64_field(spec_get(p, "sex"@)) {
            Some(0) => Sex::Male,
            Some(1) => Sex::Female,
            _ => Sex::Unknown,
        },
        str_or_empty(spec_get(p, "lastname"@)),
        str_or_empty(spec_get(p, "firstname"@)),
        i64_field(spec_get(p, "personality"@)),
    )
}

/// The Parameter fields of a card whose blocks start at `base` in `buf`.
/// Only Character cards carry a Parameter block worth reading; without one
/// the fields stay unknown / empty.
pub open spec fn spec_parameter(
    buf: Seq<u8>,
    base: nat,
    blocks: Seq<BlockModel>,
    t: CardType,
) -> Result<(Sex, Seq<char>, Seq<char>, Option<i64>), CardErrorModel> {
    let none = (Sex::Unknown, Seq::<char>::empty(), Seq::<char>::empty(), None::<i64>);
    if t != CardType::Character {
        Ok(none)
    } else {
        match first_named(blocks, "Parameter"@) {
            None => Ok(none),
            Some(b) => {
                let start = base + b.pos;
                let end = start + b.size;
                if end > buf.len() {
                    Err(CardErrorModel::Malformed("Parameter block runs past end of card"@))
                } else {
                    match spec_decode(buf.subrange(start as int, end as int)) {
                        Err(f) => Err(CardErrorModel::Malformed(failure_message(f))),
                        Ok(p) => Ok(parameter_fields(p)),
                    }
                }
            },
        }
    }
}

/// The card read from its appended block `buf`, which starts at file
/// offset `off`.
#[verifier::opaque]
pub open spec fn spec_card_body(buf: Seq<u8>, off: nat) -> Result<CardModel, CardErrorModel> {
    match read_i32(buf, 0) {
        Err(m) => Err(CardErrorModel::Malformed(m)),
        Ok((_, p1)) => match read_net_string(buf, p1) {
            Err(m) => Err(CardErrorModel::Malformed(m)),
            Ok((mk, p2)) => {
                let marker = utf8_lossy(mk);
                match spec_classify(marker) {
                    None => Err(CardErrorModel::Unrecognized(marker)),
                    Some((game, t)) => match read_net_string(buf, p2) {
                        Err(m) => Err(CardErrorModel::Malformed(m)),
                        Ok((_, p3)) => match read_i32(buf, p3) {
                            Err(m) => Err(CardErrorModel::Malformed(m)),
                            Ok((face, p4)) => match (if face > 0 {
                                span(buf, p4, face as nat)
                            } else {
                                Ok(p4)
                            }) {
                                Err(m) => Err(CardErrorModel::Malformed(m)),
                                Ok(p5) => match read_i32(buf, p5) {
                                    Err(m) => Err(CardErrorModel::Malformed(m)),
                                    Ok((n, p6)) => if n < 0 {
                                        Err(
                                            CardErrorModel::Malformed(
                                                "negative block table length"@,
                                            ),
                                        )
                                    } else {
                                        match span(buf, p6, n as nat) {
                                            Err(m) => Err(CardErrorModel::Malformed(m)),
                                            Ok(p7) => match spec_decode(
                                                buf.subrange(p6 as int, p7 as int),
                                            ) {
                                                Err(f) => Err(
                                                    CardErrorModel::Malformed(failure_message(f)),
                                                ),
                                                Ok(table) => match read_i64(buf, p7) {
                                                    Err(m) => Err(CardErrorModel::Malformed(m)),
                                                    Ok((_, p8)) => {
                                                        let blocks = table_blocks(table);
                                                        match spec_parameter(buf, p8, blocks, t) {
                                                            Err(e) => Err(e),
                                                            Ok((sex, ln, fnm, pers)) => Ok(
                                                                CardModel {
                                                                    game,
                                                                    card_type: t,
                                                                    sex,
                                                                    lastname: ln,
                                                                    firstname: fnm,
                                                                    personality: pers,
                                                                    blocks,
                                                                    base: off + p8,
                                                                },
                                                            ),
                                                        }
                                                    },
                                                },
                                            },
                                        }
                                    },
                                },
                            },
                        },
                    },
                }
            },
        },
    }
}

/// A whole card file: the PNG chunk walk finds the appended block, which
/// must be non-empty, and the block is read from there.
pub open spec fn spec_read_card(data: Seq<u8>) -> Result<CardModel, CardErrorModel> {
    match spec_png_char_block(data) {
        None => Err(CardErrorModel::NotCard),
        Some((off, len)) => if len == 0 {
            Err(CardErrorModel::NotCard)
        } else {
            spec_card_body(data.subrange(off as int, data.len() as int), off)
        },
    }
}

// ---------------------------------------------------------------------------
// The executable reader.
// ---------------------------------------------------------------------------

/// Cursor over the appended block, mirroring .NET BinaryReader primitives.
struct Cur<'a> {
    b: &'a [u8],
    p: usize,
}

impl<'a> Cur<'a> {
    #[verifier::type_invariant]
    spec fn inv(self) -> bool {
        self.p <= self.b@.len()
    }

    spec fn input(self) -> Seq<u8> {
        self.b@
    }

    spec fn at(self) -> nat {
        self.p as nat
    }

    fn take(&mut self, n: usize) -> (r: Result<&'a [u8], String>)
        ensures
            final(self).input() == old(self).input(),
            match span(old(self).input(), old(self).at(), n as nat) {
                Ok(e) => {
                    &&& r matches Ok(s) && s@ == old(self).input().subrange(
                        old(self).at() as int,
                        e as int,
                    )
                    &&& final(self).at() == e
                },
                Err(m) => r matches Err(x) && x@ == m,
            },
    {
        proof {
            use_type_invariant(&*self);
        }
        let end = match self.p.checked_add(n) {
            Some(e) => e,
            None => return Err("length overflow".to_owned()),
        };
        if end > self.b.len() {
            return Err("truncated card".to_owned());
        }
        let b: &'a [u8] = self.b;
        let s = &b[self.p..end];
        self.p = end;
        Ok(s)
    }

    fn le(&mut self, n: usize) -> (r: Result<u64, String>)
        requires
            n <= 8,
        ensures
            final(self).input() == old(self).input(),
            match span(old(self).input(), old(self).at(), n as nat) {
                Ok(e) => {
                    &&& r == Ok::<u64, String>(
                        le_uint(old(self).input().subrange(old(self).at() as int, e as int)) as u64,
                    )
                    &&& le_uint(old(self).input().subrange(old(self).at() as int, e as int))
                        < pow256(n as nat)
                    &&& final(self).at() == e
                },
                Err(m) => r matches Err(x) && x@ == m,
            },
    {
        let s = self.take(n)?;
        let mut acc: u64 = 0;
        let mut i: usize = n;
        proof {
            assert(s@.subrange(n as int, n as int) =~= Seq::<u8>::empty());
        }
        while i > 0
            invariant
                s@.len() == n,
                n <= 8,
                i <= n,
                acc as nat == le_uint(s@.subrange(i as int, n as int)),
                le_uint(s@.subrange(i as int, n as int)) < pow256((n - i) as nat),
            decreases i,
        {
            proof {
                assert(s@.subrange(i - 1, n as int).drop_first() =~= s@.subrange(i as int, n as int));
                crate::msgpack::lemma_pow256((n - i) as nat);
                crate::msgpack::lemma_pow256((n - i + 1) as nat);
            }
            let b = s[i - 1];
            assert(b + 256 * acc < pow256((n - i + 1) as nat)) by (nonlinear_arith)
                requires
                    acc < pow256((n - i) as nat),
                    b < 256,
                    pow256((n - i + 1) as nat) == pow256((n - i) as nat) * 256,
            ;
            acc = b as u64 + 256 * acc;
            i -= 1;
        }
        proof {
            assert(s@.subrange(0, n as int) =~= s@);
        }
        Ok(acc)
    }

    fn i32v(&mut self) -> (r: Result<i32, String>)
        ensures
            final(self).input() == old(self).input(),
            match read_i32(old(self).input(), old(self).at()) {
                Ok((v, e)) => r == Ok::<i32, String>(v) && final(self).at() == e,
                Err(m) => r matches Err(x) && x@ == m,
            },
    {
        let v = self.le(4)?;
        proof {
            crate::msgpack::lemma_pow256(4);
        }
        Ok(if v < 0x8000_0000 { v as i32 } else { (v as i64 - 0x1_0000_0000) as i32 })
    }

    fn i64v(&mut self) -> (r: Result<i64, String>)
        ensures
            final(self).input() == old(self).input(),
            match read_i64(old(self).input(), old(self).at()) {
                Ok((v, e)) => r == Ok::<i64, String>(v) && final(self).at() == e,
                Err(m) => r matches Err(x) && x@ == m,
            },
    {
        let v = self.le(8)?;
        proof {
            crate::msgpack::lemma_pow256(8);
        }
        Ok(if v < 0x8000_0000_0000_0000 {
            v as i64
        } else {
            (v - 0x8000_0000_0000_0000) as i64 + i64::MIN
        })
    }

    /// .NET BinaryReader.ReadString, decoded lossily: card strings are not
    /// guaranteed to be UTF-8.
    fn string(&mut self) -> (r: Result<String, String>)
        ensures
            final(self).input() == old(self).input(),
            match read_net_string(old(self).input(), old(self).at()) {
                Ok((s, e)) => r matches Ok(x) && x@ == utf8_lossy(s) && final(self).at() == e,
                Err(m) => r matches Err(x) && x@ == m,
            },
    {
        match self.string_bytes() {
            Ok(b) => Ok(from_utf8_lossy(b)),
            Err(m) => Err(m),
        }
    }

    /// .NET BinaryReader.ReadString: 7-bit encoded length prefix, then
    /// the bytes.
    fn string_bytes(&mut self) -> (r: Result<&'a [u8], String>)
        ensures
            final(self).input() == old(self).input(),
            match read_net_string(old(self).input(), old(self).at()) {
                Ok((s, e)) => r matches Ok(x) && x@ == s && final(self).at() == e,
                Err(m) => r matches Err(x) && x@ == m,
            },
    {
        let ghost buf = self.input();
        let ghost p0 = self.at();
        let mut n: u64 = 0;
        let mut k: u64 = 0;
        let mut mult: u64 = 1;
        proof {
            reveal_with_fuel(pow128, 6);
        }
        loop
            invariant
                self.input() == buf,
                buf == old(self).input(),
                p0 == old(self).at(),
                k <= 4,
                mult == pow128(k as nat),
                n < pow128(k as nat),
                pow128(k as nat) <= pow128(4),
                pow128(4) == 0x1000_0000,
                pow128(5) == 0x8_0000_0000,
                read_len7(buf, p0, 0, 0) == read_len7(buf, self.at(), k as nat, n as nat),
            decreases 5 - k,
        {
            let b = self.take(1)?[0];
            proof {
                reveal_with_fuel(pow128, 6);
                assert(pow128((k + 1) as nat) == pow128(k as nat) * 128);
            }
            assert((b & 0x7f) == b % 128) by (bit_vector);
            assert(((b & 0x80) == 0) == (b < 128)) by (bit_vector);
            let low: u64 = (b & 0x7F) as u64;
            assert(n + low * mult < pow128((k + 1) as nat)) by (nonlinear_arith)
                requires
                    n < mult,
                    low < 128,
                    pow128((k + 1) as nat) == mult * 128,
            ;
            n = n + low * mult;
            if b & 0x80 == 0 {
                if n > usize::MAX as u64 {
                    return Err("length overflow".to_owned());
                }
                return self.take(n as usize);
            }
            if k + 1 > 4 {
                return Err("bad 7-bit length prefix".to_owned());
            }
            proof {
                if k + 1 < 4 {
                    crate::card::lemma_pow128_mono((k + 1) as nat, 4);
                }
            }
            k = k + 1;
            mult = mult * 128;
        }
    }
}

proof fn lemma_pow128_mono(i: nat, j: nat)
    requires
        i <= j,
    ensures
        pow128(i) <= pow128(j),
    decreases j - i,
{
    if i < j {
        lemma_pow128_mono(i, (j - 1) as nat);
    }
}

fn str_field(v: &Value, key: &str) -> (s: String)
    ensures
        s@ == str_or_empty(spec_get(v.model(), key@)),
{
    match v.get(key) {
        Some(x) => match x.as_str() {
            Some(s) => s.to_owned(),
            None => String::new(),
        },
        None => String::new(),
    }
}

fn int_field(v: &Value, key: &str) -> (r: Option<i64>)
    ensures
        r == i64_field(spec_get(v.model(), key@)),
{
    match v.get(key) {
        Some(x) => x.as_i64(),
        None => None,
    }
}

/// The blocks listed in a decoded block table.
fn blocks_of(table: &Value) -> (r: Vec<BlockInfo>)
    ensures
        block_views(r@) == table_blocks(table.model()),
{
    let mut blocks: Vec<BlockInfo> = Vec::new();
    let list = match table.get("lstInfo") {
        Some(l) => l.as_array(),
        None => None,
    };
    match list {
        None => {
            assert(block_views(blocks@) =~= Seq::<BlockModel>::empty());
        },
        Some(items) => {
            let ghost ms = models(items@);
            proof {
                lemma_models_index(items@);
            }
            let mut i: usize = 0;
            while i < items.len()
                invariant
                    ms == models(items@),
                    ms.len() == items@.len(),
                    forall|j: int| 0 <= j < items@.len() ==> #[trigger] ms[j] == items@[j].model(),
                    i <= items@.len(),
                    block_views(blocks@) == block_list(ms.subrange(0, i as int)),
                decreases items@.len() - i,
            {
                let it = &items[i];
                let name = str_field(it, "name");
                let version = str_field(it, "version");
                let pos = match int_field(it, "pos") {
                    Some(p) => p,
                    None => -1,
                };
                let size = match int_field(it, "size") {
                    Some(s) => s,
                    None => -1,
                };
                proof {
                    assert(ms.subrange(0, i + 1).drop_last() =~= ms.subrange(0, i as int));
                    assert(ms.subrange(0, i + 1).last() == it.model());
                }
                if pos >= 0 && size >= 0 {
                    let ghost before = blocks@;
                    blocks.push(BlockInfo { name, version, pos: pos as u64, size: size as u64 });
                    assert(block_views(blocks@) =~= block_views(before).push(blocks@.last()@));
                }
                i += 1;
            }
            assert(ms.subrange(0, items@.len() as int) =~= ms);
        },
    }
    blocks
}

/// The index of the first block with the given name.
fn find_named(blocks: &Vec<BlockInfo>, name: &str) -> (r: Option<usize>)
    ensures
        match first_named(block_views(blocks@), name@) {
            Some(b) => r matches Some(i) && i < blocks@.len() && blocks@[i as int]@ == b,
            None => r is None,
        },
{
    let ghost bs = block_views(blocks@);
    assert(bs.skip(0) =~= bs);
    let mut i: usize = 0;
    while i < blocks.len()
        invariant
            bs == block_views(blocks@),
            i <= blocks@.len(),
            first_named(bs, name@) == first_named(bs.skip(i as int), name@),
        decreases blocks@.len() - i,
    {
        assert(bs.skip(i as int).drop_first() =~= bs.skip(i + 1));
        assert(bs.skip(i as int)[0] == blocks@[i as int]@);
        if str_eq(blocks[i].name.as_str(), name) {
            return Some(i);
        }
        i += 1;
    }
    None
}

/// Reads the Parameter fields of a Character card (see `spec_parameter`).
fn parameter(buf: &[u8], base: usize, blocks: &Vec<BlockInfo>, t: CardType) -> (r: Result<
    (Sex, String, String, Option<i64>),
    CardError,
>)
    requires
        base <= buf@.len(),
    ensures
        match spec_parameter(buf@, base as nat, block_views(blocks@), t) {
            Ok((sex, ln, fnm, pers)) => r matches Ok((s2, l2, f2, p2)) && s2 == sex && l2@ == ln
                && f2@ == fnm && p2 == pers,
            Err(e) => r matches Err(x) && x@ == e,
        },
{
    if t != CardType::Character {
        return Ok((Sex::Unknown, String::new(), String::new(), None));
    }
    let bi = match find_named(blocks, "Parameter") {
        Some(i) => &blocks[i],
        None => return Ok((Sex::Unknown, String::new(), String::new(), None)),
    };
    let blen = buf.len() as u64;
    assert(blen == buf@.len());
    let start = match (base as u64).checked_add(bi.pos) {
        Some(s) => s,
        None => return Err(CardError::Malformed("Parameter block runs past end of card".to_owned())),
    };
    let end = match start.checked_add(bi.size) {
        Some(e) => e,
        None => return Err(CardError::Malformed("Parameter block runs past end of card".to_owned())),
    };
    if end > buf.len() as u64 {
        return Err(CardError::Malformed("Parameter block runs past end of card".to_owned()));
    }
    let slice = &buf[start as usize..end as usize];
    let p = match decode(slice) {
        Ok(p) => p,
        Err(m) => return Err(CardError::Malformed(m)),
    };
    let sex = match int_field(&p, "sex") {
        Some(0) => Sex::Male,
        Some(1) => Sex::Female,
        _ => Sex::Unknown,
    };
    let lastname = str_field(&p, "lastname");
    let firstname = str_field(&p, "firstname");
    let personality = int_field(&p, "personality");
    Ok((sex, lastname, firstname, personality))
}

/// Reads the appended block `buf`, found at file offset `off`.
fn card_body(buf: &[u8], off: u64) -> (r: Result<CardMeta, CardError>)
    requires
        off + buf@.len() <= usize::MAX,
    ensures
        match spec_card_body(buf@, off as nat) {
            Ok(m) => r matches Ok(x) && x@ == m,
            Err(e) => r matches Err(x) && x@ == e,
        },
{
    reveal(spec_card_body);
    let mut c = Cur { b: buf, p: 0 };
    match c.i32v() {
        Ok(_) => {},
        Err(m) => return Err(CardError::Malformed(m)),
    }
    let marker = match c.string() {
        Ok(s) => s,
        Err(m) => return Err(CardError::Malformed(m)),
    };
    let (game, card_type) = match classify_marker(marker.as_str()) {
        Some(gt) => gt,
        None => return Err(CardError::Unrecognized(marker)),
    };
    match c.string() {
        Ok(_) => {},
        Err(m) => return Err(CardError::Malformed(m)),
    }
    let face = match c.i32v() {
        Ok(f) => f,
        Err(m) => return Err(CardError::Malformed(m)),
    };
    if face > 0 {
        match c.take(face as usize) {
            Ok(_) => {},
            Err(m) => return Err(CardError::Malformed(m)),
        }
    }
    let n = match c.i32v() {
        Ok(n) => n,
        Err(m) => return Err(CardError::Malformed(m)),
    };
    if n < 0 {
        return Err(CardError::Malformed("negative block table length".to_owned()));
    }
    let table_bytes = match c.take(n as usize) {
        Ok(t) => t,
        Err(m) => return Err(CardError::Malformed(m)),
    };
    let table = match decode(table_bytes) {
        Ok(t) => t,
        Err(m) => return Err(CardError::Malformed(m)),
    };
    match c.i64v() {
        Ok(_) => {},
        Err(m) => return Err(CardError::Malformed(m)),
    }
    proof {
        use_type_invariant(&c);
    }
    let p8 = c.p;
    let base = off + p8 as u64;
    let blocks = blocks_of(&table);
    let (sex, lastname, firstname, personality) = match parameter(buf, p8, &blocks, card_type) {
        Ok(f) => f,
        Err(e) => return Err(e),
    };
    Ok(CardMeta { game, card_type, sex, lastname, firstname, personality, blocks, base })
}

/// Reads a card from the bytes of a whole card file.
pub fn parse_card(data: &[u8]) -> (r: Result<CardMeta, CardError>)
    ensures
        match spec_read_card(data@) {
            Ok(m) => r matches Ok(x) && x@ == m,
            Err(e) => r matches Err(x) && x@ == e,
        },
{
    let total = crate::text::slice_len(data);
    let (off, len) = match png_char_block(data) {
        Some(ol) => ol,
        None => return Err(CardError::NotCard),
    };
    if len == 0 {
        return Err(CardError::NotCard);
    }
    let buf = &data[off as usize..total];
    card_body(buf, off)
}

// ---------------------------------------------------------------------------
// Laws of reading a card.
// ---------------------------------------------------------------------------

/// The Parameter fields are read at the Parameter block's own position:
/// when `k` bytes of other blocks are put in front of it (inserted at the
/// start of the blocks, its position growing by `k`), the sex, names and
/// personality read stay the same, and so does any error.
pub proof fn law_parameter_is_read_at_its_position(
    buf: Seq<u8>,
    base: nat,
    blocks: Seq<BlockModel>,
    moved: Seq<BlockModel>,
    ins: Seq<u8>,
    t: CardType,
)
    requires
        base <= buf.len(),
        first_named(blocks, "Parameter"@) is None ==> first_named(moved, "Parameter"@) is None,
        first_named(blocks, "Parameter"@) matches Some(b) ==> b.pos + ins.len() <= u64::MAX && first_named(
            moved,
            "Parameter"@,
        ) == Some(BlockModel { pos: (b.pos + ins.len()) as u64, ..b }),
    ensures
        spec_parameter(buf.take(base as int) + ins + buf.skip(base as int), base, moved, t) == spec_parameter(
            buf,
            base,
            blocks,
            t,
        ),
{
    let buf2 = buf.take(base as int) + ins + buf.skip(base as int);
    let k = ins.len();
    assert(buf2.len() == buf.len() + k);
    if t == CardType::Character {
        if let Some(b) = first_named(blocks, "Parameter"@) {
            let start = base + b.pos;
            let end = start + b.size;
            if end <= buf.len() {
                assert(buf2.subrange(start + k, end + k) =~= buf.subrange(start as int, end as int)) by {
                    assert forall|i: int| 0 <= i < end - start implies buf2.subrange(start + k, end + k)[i]
                        == buf.subrange(start as int, end as int)[i] by {
                        assert(buf2[start + k + i] == buf[start + i]);
                    }
                }
            }
        }
    }
}

/// Two buffers agree on their first `n` bytes.
pub open spec fn agree_before(b0: Seq<u8>, b1: Seq<u8>, n: nat) -> bool {
    n <= b0.len() && n <= b1.len() && b1.subrange(0, n as int) == b0.subrange(0, n as int)
}

/// From byte `s` of `b0` on, `b1` holds the same bytes `f` places later.
pub open spec fn shifted_from(b0: Seq<u8>, b1: Seq<u8>, s: nat, f: nat) -> bool {
    s <= b0.len() && b1.len() == b0.len() + f && b1.skip((s + f) as int) == b0.skip(s as int)
}

proof fn lemma_agree_window(b0: Seq<u8>, b1: Seq<u8>, n: nat, p: nat, e: nat)
    requires
        agree_before(b0, b1, n),
        p <= e <= n,
    ensures
        b1.subrange(p as int, e as int) == b0.subrange(p as int, e as int),
{
    assert forall|i: int| 0 <= i < e - p implies b1.subrange(p as int, e as int)[i] == b0.subrange(
        p as int,
        e as int,
    )[i] by {
        assert(b1.subrange(0, n as int)[p + i] == b0.subrange(0, n as int)[p + i]);
    }
    assert(b1.subrange(p as int, e as int) =~= b0.subrange(p as int, e as int));
}

proof fn lemma_shift_window(b0: Seq<u8>, b1: Seq<u8>, s: nat, f: nat, p: nat, e: nat)
    requires
        shifted_from(b0, b1, s, f),
        s <= p <= e <= b0.len(),
    ensures
        b1.subrange((p + f) as int, (e + f) as int) == b0.subrange(p as int, e as int),
{
    assert forall|i: int| 0 <= i < e - p implies b1.subrange((p + f) as int, (e + f) as int)[i] == b0.subrange(
        p as int,
        e as int,
    )[i] by {
        assert(b1.skip((s + f) as int)[p + i - s] == b0.skip(s as int)[p + i - s]);
    }
    assert(b1.subrange((p + f) as int, (e + f) as int) =~= b0.subrange(p as int, e as int));
}

proof fn lemma_len7_advances(buf: Seq<u8>, p: nat, k: nat, acc: nat)
    ensures
        read_len7(buf, p, k, acc) matches Ok((_, e)) ==> p + 1 <= e <= buf.len(),
    decreases 5 - k,
{
    if let Ok(e1) = span(buf, p, 1) {
        let b = buf[p as int];
        if b >= 128 && k + 1 <= 4 {
            lemma_len7_advances(buf, e1, k + 1, acc + (b % 128) as nat * pow128(k));
        }
    }
}

proof fn lemma_len7_agree(b0: Seq<u8>, b1: Seq<u8>, n: nat, p: nat, k: nat, acc: nat)
    requires
        agree_before(b0, b1, n),
        read_len7(b0, p, k, acc) matches Ok((_, e)) && e <= n,
    ensures
        read_len7(b1, p, k, acc) == read_len7(b0, p, k, acc),
    decreases 5 - k,
{
    lemma_len7_advances(b0, p, k, acc);
    assert(b1[p as int] == b0[p as int]) by {
        assert(b1.subrange(0, n as int)[p as int] == b0.subrange(0, n as int)[p as int]);
    }
    let b = b0[p as int];
    if b >= 128 && k + 1 <= 4 {
        lemma_len7_agree(b0, b1, n, p + 1, k + 1, acc + (b % 128) as nat * pow128(k));
    }
}

proof fn lemma_net_string_advances(buf: Seq<u8>, p: nat)
    ensures
        read_net_string(buf, p) matches Ok((_, e)) ==> p < e <= buf.len(),
{
    lemma_len7_advances(buf, p, 0, 0);
}

proof fn lemma_net_string_agree(b0: Seq<u8>, b1: Seq<u8>, n: nat, p: nat)
    requires
        agree_before(b0, b1, n),
        read_net_string(b0, p) matches Ok((_, e)) && e <= n,
    ensures
        read_net_string(b1, p) == read_net_string(b0, p),
{
    if let Ok((len, q)) = read_len7(b0, p, 0, 0) {
        lemma_len7_agree(b0, b1, n, p, 0, 0);
        if let Ok(e) = span(b0, q, len) {
            lemma_agree_window(b0, b1, n, q, e);
        }
    }
}

proof fn lemma_i32_agree(b0: Seq<u8>, b1: Seq<u8>, n: nat, p: nat)
    requires
        agree_before(b0, b1, n),
        read_i32(b0, p) matches Ok((_, e)) && e <= n,
    ensures
        read_i32(b1, p) == read_i32(b0, p),
{
    lemma_agree_window(b0, b1, n, p, p + 4);
}

proof fn lemma_span_shift(b0: Seq<u8>, b1: Seq<u8>, s: nat, f: nat, p: nat, n: nat)
    requires
        shifted_from(b0, b1, s, f),
        b1.len() <= usize::MAX,
        s <= p,
    ensures
        span(b0, p, n) is Ok <==> span(b1, p + f, n) is Ok,
        span(b0, p, n) matches Ok(e) ==> span(b1, p + f, n) == Ok::<nat, Seq<char>>(e + f),
{
}

proof fn lemma_i32_shift(b0: Seq<u8>, b1: Seq<u8>, s: nat, f: nat, p: nat)
    requires
        shifted_from(b0, b1, s, f),
        b1.len() <= usize::MAX,
        s <= p,
    ensures
        read_i32(b0, p) is Ok <==> read_i32(b1, p + f) is Ok,
        read_i32(b0, p) matches Ok((v, e)) ==> read_i32(b1, p + f) == Ok::<(i32, nat), Seq<char>>((v, e + f)),
{
    lemma_span_shift(b0, b1, s, f, p, 4);
    if p + 4 <= b0.len() {
        lemma_shift_window(b0, b1, s, f, p, p + 4);
    }
}

proof fn lemma_i64_shift(b0: Seq<u8>, b1: Seq<u8>, s: nat, f: nat, p: nat)
    requires
        shifted_from(b0, b1, s, f),
        b1.len() <= usize::MAX,
        s <= p,
    ensures
        read_i64(b0, p) is Ok <==> read_i64(b1, p + f) is Ok,
        read_i64(b0, p) matches Ok((v, e)) ==> read_i64(b1, p + f) == Ok::<(i64, nat), Seq<char>>((v, e + f)),
{
    lemma_span_shift(b0, b1, s, f, p, 8);
    if p + 8 <= b0.len() {
        lemma_shift_window(b0, b1, s, f, p, p + 8);
    }
}

proof fn lemma_parameter_shift(
    b0: Seq<u8>,
    b1: Seq<u8>,
    s: nat,
    f: nat,
    base: nat,
    blocks: Seq<BlockModel>,
    t: CardType,
)
    requires
        shifted_from(b0, b1, s, f),
        s <= base,
    ensures
        spec_parameter(b1, base + f, blocks, t) == spec_parameter(b0, base, blocks, t),
{
    if t == CardType::Character {
        if let Some(b) = first_named(blocks, "Parameter"@) {
            let start: nat = (base + b.pos) as nat;
            let end: nat = (start + b.size) as nat;
            if end <= b0.len() {
                lemma_shift_window(b0, b1, s, f, start, end);
                assert(base + f + b.pos == start + f);
            }
        }
    }
}

/// What a card block reads as from its block table length at `p5` on,
/// once the marker has named the game `g` and the card type `t`.
pub open spec fn card_after_face(
    buf: Seq<u8>,
    p5: nat,
    off: nat,
    g: Game,
    t: CardType,
) -> Result<CardModel, CardErrorModel> {
    match read_i32(buf, p5) {
        Err(m) => Err(CardErrorModel::Malformed(m)),
        Ok((n, p6)) => if n < 0 {
            Err(CardErrorModel::Malformed("negative block table length"@))
        } else {
            match span(buf, p6, n as nat) {
                Err(m) => Err(CardErrorModel::Malformed(m)),
                Ok(p7) => match spec_decode(buf.subrange(p6 as int, p7 as int)) {
                    Err(f) => Err(CardErrorModel::Malformed(failure_message(f))),
                    Ok(table) => match read_i64(buf, p7) {
                        Err(m) => Err(CardErrorModel::Malformed(m)),
                        Ok((_, p8)) => {
                            let blocks = table_blocks(table);
                            match spec_parameter(buf, p8, blocks, t) {
                                Err(e) => Err(e),
                                Ok((sex, ln, fnm, pers)) => Ok(
                                    CardModel {
                                        game: g,
                                        card_type: t,
                                        sex,
                                        lastname: ln,
                                        firstname: fnm,
                                        personality: pers,
                                        blocks,
                                        base: off + p8,
                                    },
                                ),
                            }
                        },
                    },
                },
            }
        },
    }
}

/// What a card block reads as from its face-length field at `p3` on: the
/// field, then the face image it announces, then the rest.
pub open spec fn card_from_face(
    buf: Seq<u8>,
    p3: nat,
    off: nat,
    g: Game,
    t: CardType,
) -> Result<CardModel, CardErrorModel> {
    match read_i32(buf, p3) {
        Err(m) => Err(CardErrorModel::Malformed(m)),
        Ok((face, p4)) => if face > 0 {
            match span(buf, p4, face as nat) {
                Err(m) => Err(CardErrorModel::Malformed(m)),
                Ok(p5) => card_after_face(buf, p5, off, g, t),
            }
        } else {
            card_after_face(buf, p4, off, g, t)
        },
    }
}

proof fn lemma_card_body_from_face(
    buf: Seq<u8>,
    off: nat,
    p1: nat,
    mk: Seq<u8>,
    p2: nat,
    p3: nat,
)
    requires
        read_i32(buf, 0) matches Ok((_, q)) && q == p1,
        read_net_string(buf, p1) == Ok::<(Seq<u8>, nat), Seq<char>>((mk, p2)),
        read_net_string(buf, p2) matches Ok((_, q)) && q == p3,
    ensures
        spec_card_body(buf, off) == match spec_classify(utf8_lossy(mk)) {
            None => Err(CardErrorModel::Unrecognized(utf8_lossy(mk))),
            Some((g, t)) => card_from_face(buf, p3, off, g, t),
        },
{
    reveal(spec_card_body);
}

proof fn lemma_after_face_shift(
    b0: Seq<u8>,
    b1: Seq<u8>,
    s: nat,
    f: nat,
    off: nat,
    g: Game,
    t: CardType,
)
    requires
        shifted_from(b0, b1, s, f),
        b1.len() <= usize::MAX,
    ensures
        card_after_face(b1, s + f, off, g, t) is Ok <==> card_after_face(b0, s, off, g, t) is Ok,
        card_after_face(b0, s, off, g, t) matches Ok(m0) ==> card_after_face(b1, s + f, off, g, t)
            == Ok::<CardModel, CardErrorModel>(CardModel { base: m0.base + f, ..m0 }),
{
    lemma_i32_shift(b0, b1, s, f, s);
    if let Ok((n, p6)) = read_i32(b0, s) {
        if n >= 0 {
            lemma_span_shift(b0, b1, s, f, p6, n as nat);
            if let Ok(p7) = span(b0, p6, n as nat) {
                lemma_shift_window(b0, b1, s, f, p6, p7);
                lemma_i64_shift(b0, b1, s, f, p7);
                if let Ok(table) = spec_decode(b0.subrange(p6 as int, p7 as int)) {
                    if let Ok((_, p8)) = read_i64(b0, p7) {
                        lemma_parameter_shift(b0, b1, s, f, p8, table_blocks(table), t);
                    }
                }
            }
        }
    }
}

/// The face image is skipped: putting a face image of `f > 0` bytes after
/// a face-length field of `f` changes nothing that is read. Take a card
/// block `b0` whose face-length field, at `p3` after the product number,
/// the marker and the version, is 0; and `b1`, the same block with that
/// field saying `f` and `f` bytes of any face image after it. Then `b1`
/// reads as a card exactly when `b0` does, as the same card but for `base`,
/// which moves by `f`.
pub proof fn law_the_face_image_is_skipped(b0: Seq<u8>, b1: Seq<u8>, p3: nat, f: i32, off: nat)
    requires
        read_i32(b0, 0) matches Ok((_, p1)) && read_net_string(b0, p1) matches Ok((_, p2))
            && read_net_string(b0, p2) matches Ok((_, q)) && q == p3,
        read_i32(b0, p3) == Ok::<(i32, nat), Seq<char>>((0i32, p3 + 4)),
        f > 0,
        read_i32(b1, p3) == Ok::<(i32, nat), Seq<char>>((f, p3 + 4)),
        agree_before(b0, b1, p3),
        shifted_from(b0, b1, p3 + 4, f as nat),
        b1.len() <= usize::MAX,
    ensures
        spec_card_body(b1, off) is Ok <==> spec_card_body(b0, off) is Ok,
        spec_card_body(b0, off) matches Ok(m0) ==> spec_card_body(b1, off)
            == Ok::<CardModel, CardErrorModel>(CardModel { base: (m0.base + f) as nat, ..m0 }),
{
    let ff = f as nat;
    let s = p3 + 4;
    let (_, p1) = read_i32(b0, 0)->Ok_0;
    let (mk, p2) = read_net_string(b0, p1)->Ok_0;
    lemma_net_string_advances(b0, p1);
    lemma_net_string_advances(b0, p2);
    lemma_i32_agree(b0, b1, p3, 0);
    lemma_net_string_agree(b0, b1, p3, p1);
    lemma_net_string_agree(b0, b1, p3, p2);
    lemma_card_body_from_face(b0, off, p1, mk, p2, p3);
    lemma_card_body_from_face(b1, off, p1, mk, p2, p3);
    assert(span(b1, s, ff) == Ok::<nat, Seq<char>>(s + ff));
    if let Some((g, t)) = spec_classify(utf8_lossy(mk)) {
        lemma_after_face_shift(b0, b1, s, ff, off, g, t);
    }
}

} // verus!
