//! Minimal MessagePack decoder. Decode-only.
//!
//! `parse_at` is the format, written as a function on bytes; the executable
//! `Reader` is proved to follow it byte for byte, errors included.

use vstd::prelude::*;
use crate::text::{str_eq, from_utf8_lossy, hex_digits, push_hex_byte, utf8_lossy};

verus! {

broadcast use vstd::std_specs::vec::group_vec_axioms;

/// A decoded MessagePack value. Floats are kept as their IEEE-754 bit
/// patterns (`F32` holds the 32 bits, `F64` the 64 bits), exactly as they
/// stand in the input.
#[derive(Debug)]
pub enum Value {
    Nil,
    Bool(bool),
    Int(i64),
    UInt(u64),
    F32(u32),
    F64(u64),
    Str(String),
    Bin(Vec<u8>),
    Array(Vec<Value>),
    Dict(Vec<(Value, Value)>),
}

/// The mathematical model of a [`Value`].
pub enum ValueModel {
    Nil,
    Bool(bool),
    Int(i64),
    UInt(u64),
    F32(u32),
    F64(u64),
    Str(Seq<char>),
    Bin(Seq<u8>),
    Array(Seq<ValueModel>),
    Dict(Seq<(ValueModel, ValueModel)>),
}

impl Value {
    pub open spec fn model(self) -> ValueModel
        decreases self,
    {
        match self {
            Value::Nil => ValueModel::Nil,
            Value::Bool(b) => ValueModel::Bool(b),
            Value::Int(i) => ValueModel::Int(i),
            Value::UInt(u) => ValueModel::UInt(u),
            Value::F32(f) => ValueModel::F32(f),
            Value::F64(f) => ValueModel::F64(f),
            Value::Str(s) => ValueModel::Str(s@),
            Value::Bin(b) => ValueModel::Bin(b@),
            Value::Array(v) => ValueModel::Array(models(v@)),
            Value::Dict(v) => ValueModel::Dict(pair_models(v@)),
        }
    }
}

/// Models of a sequence of values, element by element.
pub open spec fn models(s: Seq<Value>) -> Seq<ValueModel>
    decreases s,
{
    if s.len() == 0 {
        seq![]
    } else {
        models(s.drop_last()).push(s.last().model())
    }
}

/// Models of a sequence of key/value pairs, element by element.
pub open spec fn pair_models(s: Seq<(Value, Value)>) -> Seq<(ValueModel, ValueModel)>
    decreases s,
{
    if s.len() == 0 {
        seq![]
    } else {
        pair_models(s.drop_last()).push((s.last().0.model(), s.last().1.model()))
    }
}

pub proof fn lemma_models_index(s: Seq<Value>)
    ensures
        models(s).len() == s.len(),
        forall|i: int| 0 <= i < s.len() ==> #[trigger] models(s)[i] == s[i].model(),
    decreases s.len(),
{
    if s.len() > 0 {
        lemma_models_index(s.drop_last());
    }
}

pub proof fn lemma_pair_models_index(s: Seq<(Value, Value)>)
    ensures
        pair_models(s).len() == s.len(),
        forall|i: int|
            0 <= i < s.len() ==> #[trigger] pair_models(s)[i] == (s[i].0.model(), s[i].1.model()),
    decreases s.len(),
{
    if s.len() > 0 {
        lemma_pair_models_index(s.drop_last());
    }
}

/// The value under the first key equal to the string `key`, in a map.
pub open spec fn lookup(pairs: Seq<(ValueModel, ValueModel)>, key: Seq<char>) -> Option<ValueModel>
    decreases pairs.len(),
{
    if pairs.len() == 0 {
        None
    } else if pairs[0].0 == ValueModel::Str(key) {
        Some(pairs[0].1)
    } else {
        lookup(pairs.drop_first(), key)
    }
}

/// What `Value::get` gives: the entry for `key` of a map, `None` for anything else.
pub open spec fn spec_get(v: ValueModel, key: Seq<char>) -> Option<ValueModel> {
    match v {
        ValueModel::Dict(pairs) => lookup(pairs, key),
        _ => None,
    }
}

/// What `Value::as_str` gives.
pub open spec fn spec_as_str(v: ValueModel) -> Option<Seq<char>> {
    match v {
        ValueModel::Str(s) => Some(s),
        _ => None,
    }
}

/// What `Value::as_i64` gives: a signed integer, or an unsigned one that fits.
pub open spec fn spec_as_i64(v: ValueModel) -> Option<i64> {
    match v {
        ValueModel::Int(i) => Some(i),
        ValueModel::UInt(u) => if u <= i64::MAX {
            Some(u as i64)
        } else {
            None
        },
        _ => None,
    }
}

/// What `Value::as_array` gives.
pub open spec fn spec_as_array(v: ValueModel) -> Option<Seq<ValueModel>> {
    match v {
        ValueModel::Array(items) => Some(items),
        _ => None,
    }
}

impl Value {
    /// Card blocks are string-keyed maps; look a key up by name.
    pub fn get(&self, key: &str) -> (r: Option<&Value>)
        ensures
            match spec_get(self.model(), key@) {
                Some(m) => r matches Some(x) && x.model() == m,
                None => r is None,
            },
    {
        match self {
            Value::Dict(pairs) => {
                let ghost ms = pair_models(pairs@);
                proof {
                    lemma_pair_models_index(pairs@);
                    assert(ms.skip(0) =~= ms);
                    assert(self.model() == ValueModel::Dict(ms));
                }
                let mut i: usize = 0;
                while i < pairs.len()
                    invariant
                        self.model() == ValueModel::Dict(ms),
                        ms == pair_models(pairs@),
                        ms.len() == pairs@.len(),
                        forall|j: int|
                            0 <= j < pairs@.len() ==> #[trigger] ms[j] == (
                                pairs@[j].0.model(),
                                pairs@[j].1.model(),
                            ),
                        i <= pairs@.len(),
                        lookup(ms, key@) == lookup(ms.skip(i as int), key@),
                    decreases pairs@.len() - i,
                {
                    assert(ms.skip(i as int).drop_first() =~= ms.skip(i + 1));
                    assert(ms.skip(i as int)[0] == ms[i as int]);
                    let hit = match &pairs[i].0 {
                        Value::Str(s) => str_eq(s.as_str(), key),
                        _ => false,
                    };
                    if hit {
                        proof {
                            assert(pairs@[i as int].0.model() == ValueModel::Str(key@));
                            assert(lookup(ms.skip(i as int), key@) == Some(ms[i as int].1));
                        }
                        return Some(&pairs[i].1);
                    }
                    i += 1;
                }
                None
            },
            _ => None,
        }
    }

    pub fn as_str(&self) -> (r: Option<&str>)
        ensures
            match spec_as_str(self.model()) {
                Some(s) => r matches Some(x) && x@ == s,
                None => r is None,
            },
    {
        match self {
            Value::Str(s) => Some(s.as_str()),
            _ => None,
        }
    }

    pub fn as_i64(&self) -> (r: Option<i64>)
        ensures
            r == spec_as_i64(self.model()),
    {
        match self {
            Value::Int(i) => Some(*i),
            Value::UInt(u) => if *u <= 0x7FFF_FFFF_FFFF_FFFF {
                Some(*u as i64)
            } else {
                None
            },
            _ => None,
        }
    }

    pub fn as_array(&self) -> (r: Option<&[Value]>)
        ensures
            match spec_as_array(self.model()) {
                Some(items) => r matches Some(x) && models(x@) == items,
                None => r is None,
            },
    {
        match self {
            Value::Array(v) => Some(v.as_slice()),
            _ => None,
        }
    }
}

/// The message for a type byte that this decoder does not support:
/// `unsupported msgpack byte 0x` and the byte in two upper-case hex digits.
fn unsupported_byte_message(b: u8) -> (s: String)
    ensures
        s@ == "unsupported msgpack byte 0x"@ + hex_digits(b as nat, 2, true),
{
    let mut s = "unsupported msgpack byte 0x".to_owned();
    push_hex_byte(&mut s, b, true);
    s
}

/// Why a decode fails.
pub enum Failure {
    /// A length prefix pushes the end past the largest `usize`.
    Overflow,
    /// The input ends before the value does.
    Truncated,
    /// A type byte that this decoder does not support.
    Unsupported(u8),
}

/// The error message that a decode failure is reported with.
pub open spec fn failure_message(f: Failure) -> Seq<char> {
    match f {
        Failure::Overflow => "length overflow"@,
        Failure::Truncated => "truncated msgpack"@,
        Failure::Unsupported(b) => "unsupported msgpack byte 0x"@ + hex_digits(b as nat, 2, true),
    }
}

/// The end of `n` bytes that start at `p`, or why they are not there.
pub open spec fn span_end(buf: Seq<u8>, p: nat, n: nat) -> Result<nat, Failure> {
    if p + n > usize::MAX {
        Err(Failure::Overflow)
    } else if p + n > buf.len() {
        Err(Failure::Truncated)
    } else {
        Ok(p + n)
    }
}

/// Big-endian unsigned value of a byte sequence.
pub open spec fn be_uint(s: Seq<u8>) -> nat
    decreases s.len(),
{
    if s.len() == 0 {
        0
    } else {
        be_uint(s.drop_last()) * 256 + s.last() as nat
    }
}

/// Two's complement reading of an unsigned value `v` below `2 * half`.
pub open spec fn to_signed(v: nat, half: int) -> int {
    if v < half {
        v as int
    } else {
        v - 2 * half
    }
}

/// A big-endian unsigned integer of `n` bytes at `p`, and the position after it.
pub open spec fn read_be(buf: Seq<u8>, p: nat, n: nat) -> Result<(nat, nat), Failure> {
    match span_end(buf, p, n) {
        Ok(e) => Ok((be_uint(buf.subrange(p as int, e as int)), e)),
        Err(f) => Err(f),
    }
}

/// A string of `n` bytes at `p`, decoded lossily.
pub open spec fn parse_str(buf: Seq<u8>, p: nat, n: nat) -> Result<(ValueModel, nat), Failure> {
    match span_end(buf, p, n) {
        Ok(e) => Ok((ValueModel::Str(utf8_lossy(buf.subrange(p as int, e as int))), e)),
        Err(f) => Err(f),
    }
}

/// A binary blob of `n` bytes at `p`.
pub open spec fn parse_bin(buf: Seq<u8>, p: nat, n: nat) -> Result<(ValueModel, nat), Failure> {
    match span_end(buf, p, n) {
        Ok(e) => Ok((ValueModel::Bin(buf.subrange(p as int, e as int)), e)),
        Err(f) => Err(f),
    }
}

/// A length prefix of `w` bytes at `p`, then a string of that length.
pub open spec fn parse_str_w(buf: Seq<u8>, p: nat, w: nat) -> Result<(ValueModel, nat), Failure> {
    match read_be(buf, p, w) {
        Ok((n, q)) => parse_str(buf, q, n),
        Err(f) => Err(f),
    }
}

/// A length prefix of `w` bytes at `p`, then a blob of that length.
pub open spec fn parse_bin_w(buf: Seq<u8>, p: nat, w: nat) -> Result<(ValueModel, nat), Failure> {
    match read_be(buf, p, w) {
        Ok((n, q)) => parse_bin(buf, q, n),
        Err(f) => Err(f),
    }
}

/// The value that starts at byte `pos` of `buf`, and the position after it.
pub open spec fn parse_at(buf: Seq<u8>, pos: nat) -> Result<(ValueModel, nat), Failure>
    decreases buf.len() - pos, 0int, 0int,
{
    match span_end(buf, pos, 1) {
        Err(f) => Err(f),
        Ok(p) => {
            let c = buf[pos as int];
            if c <= 0x7f {
                Ok((ValueModel::Int(c as i64), p))
            } else if c >= 0xe0 {
                Ok((ValueModel::Int((c - 256) as i64), p))
            } else if c <= 0x8f {
                match parse_pairs(buf, p, (c - 0x80) as nat) {
                    Ok((s, e)) => Ok((ValueModel::Dict(s), e)),
                    Err(f) => Err(f),
                }
            } else if c <= 0x9f {
                match parse_seq(buf, p, (c - 0x90) as nat) {
                    Ok((s, e)) => Ok((ValueModel::Array(s), e)),
                    Err(f) => Err(f),
                }
            } else if c <= 0xbf {
                parse_str(buf, p, (c - 0xa0) as nat)
            } else if c == 0xc0 {
                Ok((ValueModel::Nil, p))
            } else if c == 0xc2 {
                Ok((ValueModel::Bool(false), p))
            } else if c == 0xc3 {
                Ok((ValueModel::Bool(true), p))
            } else if c == 0xc4 {
                parse_bin_w(buf, p, 1)
            } else if c == 0xc5 {
                parse_bin_w(buf, p, 2)
            } else if c == 0xc6 {
                parse_bin_w(buf, p, 4)
            } else if c == 0xca {
                match read_be(buf, p, 4) {
                    Ok((v, e)) => Ok((ValueModel::F32(v as u32), e)),
                    Err(f) => Err(f),
                }
            } else if c == 0xcb {
                match read_be(buf, p, 8) {
                    Ok((v, e)) => Ok((ValueModel::F64(v as u64), e)),
                    Err(f) => Err(f),
                }
            } else if 0xcc <= c <= 0xcf {
                let w: nat = if c == 0xcc { 1 } else if c == 0xcd { 2 } else if c == 0xce { 4 } else { 8 };
                match read_be(buf, p, w) {
                    Ok((v, e)) => Ok((ValueModel::UInt(v as u64), e)),
                    Err(f) => Err(f),
                }
            } else if 0xd0 <= c <= 0xd3 {
                let w: nat = if c == 0xd0 { 1 } else if c == 0xd1 { 2 } else if c == 0xd2 { 4 } else { 8 };
                let half: int = if c == 0xd0 { 0x80 } else if c == 0xd1 { 0x8000 } else if c == 0xd2 {
                    0x8000_0000
                } else {
                    0x8000_0000_0000_0000
                };
                match read_be(buf, p, w) {
                    Ok((v, e)) => Ok((ValueModel::Int(to_signed(v, half) as i64), e)),
                    Err(f) => Err(f),
                }
            } else if c == 0xd9 {
                parse_str_w(buf, p, 1)
            } else if c == 0xda {
                parse_str_w(buf, p, 2)
            } else if c == 0xdb {
                parse_str_w(buf, p, 4)
            } else if c == 0xdc || c == 0xdd {
                match read_be(buf, p, if c == 0xdc { 2 } else { 4 }) {
                    Ok((n, q)) => match parse_seq(buf, q, n) {
                        Ok((s, e)) => Ok((ValueModel::Array(s), e)),
                        Err(f) => Err(f),
                    },
                    Err(f) => Err(f),
                }
            } else if c == 0xde || c == 0xdf {
                match read_be(buf, p, if c == 0xde { 2 } else { 4 }) {
                    Ok((n, q)) => match parse_pairs(buf, q, n) {
                        Ok((s, e)) => Ok((ValueModel::Dict(s), e)),
                        Err(f) => Err(f),
                    },
                    Err(f) => Err(f),
                }
            } else {
                Err(Failure::Unsupported(c))
            }
        },
    }
}

/// `n` values in a row from `pos`. (A value always takes at least one byte,
/// see `lemma_parse_at_advances`, so the guard on `p1` never fires; it only
/// makes the recursion visibly well founded.)
pub open spec fn parse_seq(buf: Seq<u8>, pos: nat, n: nat) -> Result<(Seq<ValueModel>, nat), Failure>
    decreases buf.len() - pos, 1int, n,
{
    if n == 0 {
        Ok((seq![], pos))
    } else {
        match parse_at(buf, pos) {
            Err(f) => Err(f),
            Ok((v, p1)) => if p1 <= pos || p1 > buf.len() {
                Err(Failure::Truncated)
            } else {
                match parse_seq(buf, p1, (n - 1) as nat) {
                    Err(f) => Err(f),
                    Ok((rest, e)) => Ok((seq![v] + rest, e)),
                }
            },
        }
    }
}

/// `n` key/value pairs in a row from `pos` (key first, then value).
pub open spec fn parse_pairs(buf: Seq<u8>, pos: nat, n: nat) -> Result<
    (Seq<(ValueModel, ValueModel)>, nat),
    Failure,
>
    decreases buf.len() - pos, 1int, n,
{
    if n == 0 {
        Ok((seq![], pos))
    } else {
        match parse_at(buf, pos) {
            Err(f) => Err(f),
            Ok((k, p1)) => if p1 <= pos || p1 > buf.len() {
                Err(Failure::Truncated)
            } else {
                match parse_at(buf, p1) {
                    Err(f) => Err(f),
                    Ok((v, p2)) => if p2 <= p1 || p2 > buf.len() {
                        Err(Failure::Truncated)
                    } else {
                        match parse_pairs(buf, p2, (n - 1) as nat) {
                            Err(f) => Err(f),
                            Ok((rest, e)) => Ok((seq![(k, v)] + rest, e)),
                        }
                    },
                }
            },
        }
    }
}

/// What decoding a whole buffer gives: the first value in it.
pub open spec fn spec_decode(buf: Seq<u8>) -> Result<ValueModel, Failure> {
    match parse_at(buf, 0) {
        Ok((v, _)) => Ok(v),
        Err(f) => Err(f),
    }
}

/// A cursor over a byte buffer that decodes one value at a time.
pub struct Reader<'a> {
    buf: &'a [u8],
    pos: usize,
}

impl<'a> Reader<'a> {
    #[verifier::type_invariant]
    spec fn inv(self) -> bool {
        self.pos <= self.buf@.len()
    }

    /// The bytes being decoded.
    pub closed spec fn input(self) -> Seq<u8> {
        self.buf@
    }

    /// The offset of the next unread byte.
    pub closed spec fn position(self) -> nat {
        self.pos as nat
    }

    pub fn new(buf: &'a [u8]) -> (r: Self)
        ensures
            r.input() == buf@,
            r.position() == 0,
    {
        Reader { buf, pos: 0 }
    }

    /// Byte offset of the next unread byte. Lets a caller locate a decoded
    /// field inside the original buffer without re-encoding anything.
    pub fn pos(&self) -> (p: usize)
        ensures
            p == self.position(),
            p <= self.input().len(),
    {
        proof {
            use_type_invariant(self);
        }
        self.pos
    }

    fn take(&mut self, n: usize) -> (r: Result<&'a [u8], String>)
        ensures
            final(self).input() == old(self).input(),
            match span_end(old(self).input(), old(self).position(), n as nat) {
                Ok(e) => {
                    &&& r matches Ok(s) && s@ == old(self).input().subrange(
                        old(self).position() as int,
                        e as int,
                    )
                    &&& final(self).position() == e
                },
                Err(f) => {
                    &&& r matches Err(m) && m@ == failure_message(f)
                    &&& final(self).position() == old(self).position()
                },
            },
    {
        proof {
            use_type_invariant(&*self);
        }
        let end = match self.pos.checked_add(n) {
            Some(e) => e,
            None => return Err("length overflow".to_owned()),
        };
        if end > self.buf.len() {
            return Err("truncated msgpack".to_owned());
        }
        let b: &'a [u8] = self.buf;
        let s = &b[self.pos..end];
        self.pos = end;
        Ok(s)
    }

    fn u8v(&mut self) -> (r: Result<u8, String>)
        ensures
            final(self).input() == old(self).input(),
            match span_end(old(self).input(), old(self).position(), 1) {
                Ok(e) => {
                    &&& r == Ok::<u8, String>(old(self).input()[old(self).position() as int])
                    &&& final(self).position() == e
                },
                Err(f) => {
                    &&& r matches Err(m) && m@ == failure_message(f)
                    &&& final(self).position() == old(self).position()
                },
            },
    {
        let s = self.take(1)?;
        Ok(s[0])
    }

    /// A big-endian unsigned integer of `n` bytes.
    fn be(&mut self, n: usize) -> (r: Result<u64, String>)
        requires
            n <= 8,
        ensures
            final(self).input() == old(self).input(),
            match read_be(old(self).input(), old(self).position(), n as nat) {
                Ok((v, e)) => {
                    &&& r == Ok::<u64, String>(v as u64)
                    &&& v <= u64::MAX
                    &&& (n <= 4 ==> v < 0x1_0000_0000)
                    &&& (n <= 2 ==> v < 0x1_0000)
                    &&& (n <= 1 ==> v < 0x100)
                    &&& final(self).position() == e
                },
                Err(f) => {
                    &&& r matches Err(m) && m@ == failure_message(f)
                    &&& final(self).position() == old(self).position()
                },
            },
    {
        let s = self.take(n)?;
        let mut acc: u64 = 0;
        let mut i: usize = 0;
        while i < s.len()
            invariant
                s@.len() == n,
                n <= 8,
                i <= n,
                acc as nat == be_uint(s@.subrange(0, i as int)),
                be_uint(s@.subrange(0, i as int)) < pow256(i as nat),
            decreases n - i,
        {
            proof {
                assert(s@.subrange(0, i + 1).drop_last() =~= s@.subrange(0, i as int));
                lemma_pow256(i as nat);
                lemma_pow256((i + 1) as nat);
            }
            let b = s[i];
            assert(acc * 256 + b < pow256((i + 1) as nat)) by (nonlinear_arith)
                requires
                    acc < pow256(i as nat),
                    b < 256,
                    pow256((i + 1) as nat) == pow256(i as nat) * 256,
            ;
            acc = acc * 256 + b as u64;
            i += 1;
        }
        proof {
            assert(s@.subrange(0, n as int) =~= s@);
            lemma_pow256(n as nat);
            if n <= 4 {
                lemma_pow256_mono(n as nat, 4);
            }
            if n <= 2 {
                lemma_pow256_mono(n as nat, 2);
            }
            if n <= 1 {
                lemma_pow256_mono(n as nat, 1);
            }
        }
        Ok(acc)
    }

    /// A string of `n` bytes, decoded lossily: card names are not
    /// guaranteed valid UTF-8, so decoding never fails on their content.
    fn string(&mut self, n: usize) -> (r: Result<Value, String>)
        ensures
            final(self).input() == old(self).input(),
            match parse_str(old(self).input(), old(self).position(), n as nat) {
                Ok((v, e)) => {
                    &&& r matches Ok(x) && x.model() == v
                    &&& final(self).position() == e
                },
                Err(f) => {
                    &&& r matches Err(m) && m@ == failure_message(f)
                    &&& final(self).position() == old(self).position()
                },
            },
    {
        let s = self.take(n)?;
        Ok(Value::Str(from_utf8_lossy(s)))
    }

    fn bin(&mut self, n: usize) -> (r: Result<Value, String>)
        ensures
            final(self).input() == old(self).input(),
            match parse_bin(old(self).input(), old(self).position(), n as nat) {
                Ok((v, e)) => {
                    &&& r matches Ok(x) && x.model() == v
                    &&& final(self).position() == e
                },
                Err(f) => {
                    &&& r matches Err(m) && m@ == failure_message(f)
                    &&& final(self).position() == old(self).position()
                },
            },
    {
        let s = self.take(n)?;
        let mut v: Vec<u8> = Vec::new();
        let mut i: usize = 0;
        while i < s.len()
            invariant
                i <= s@.len(),
                v@ == s@.subrange(0, i as int),
            decreases s@.len() - i,
        {
            v.push(s[i]);
            i += 1;
            assert(v@ =~= s@.subrange(0, i as int));
        }
        assert(s@.subrange(0, s@.len() as int) =~= s@);
        Ok(Value::Bin(v))
    }

    fn array(&mut self, n: usize) -> (r: Result<Value, String>)
        ensures
            final(self).input() == old(self).input(),
            final(self).position() >= old(self).position(),
            match parse_seq(old(self).input(), old(self).position(), n as nat) {
                Ok((s, e)) => {
                    &&& r matches Ok(x) && x.model() == ValueModel::Array(s)
                    &&& final(self).position() == e
                },
                Err(f) => r matches Err(m) && m@ == failure_message(f),
            },
        decreases old(self).input().len() - old(self).position(), 1int, n,
    {
        let ghost buf = self.input();
        let ghost p0 = self.position();
        let mut v: Vec<Value> = Vec::new();
        let mut k: usize = 0;
        while k < n
            invariant
                self.input() == buf,
                buf == old(self).input(),
                p0 == old(self).position(),
                k <= n,
                self.position() >= p0,
                parse_seq(buf, p0, n as nat) == match parse_seq(buf, self.position(), (n - k) as nat) {
                    Ok((rest, e)) => Ok((models(v@) + rest, e)),
                    Err(f) => Err(f),
                },
            decreases n - k,
        {
            proof {
                use_type_invariant(&*self);
            }
            let ghost q = self.position();
            let x = self.read()?;
            proof {
                assert(models(v@.push(x)) =~= models(v@).push(x.model())) by {
                    assert(v@.push(x).drop_last() =~= v@);
                }
                assert(models(v@).push(x.model()) + match parse_seq(buf, self.position(), (n - k - 1) as nat) {
                    Ok((rest, e)) => rest,
                    Err(f) => seq![],
                } =~= models(v@) + (seq![x.model()] + match parse_seq(buf, self.position(), (n - k - 1) as nat) {
                    Ok((rest, e)) => rest,
                    Err(f) => seq![],
                }));
            }
            v.push(x);
            k += 1;
        }
        proof {
            assert(models(v@) + seq![] =~= models(v@));
        }
        Ok(Value::Array(v))
    }

    fn map(&mut self, n: usize) -> (r: Result<Value, String>)
        ensures
            final(self).input() == old(self).input(),
            final(self).position() >= old(self).position(),
            match parse_pairs(old(self).input(), old(self).position(), n as nat) {
                Ok((s, e)) => {
                    &&& r matches Ok(x) && x.model() == ValueModel::Dict(s)
                    &&& final(self).position() == e
                },
                Err(f) => r matches Err(m) && m@ == failure_message(f),
            },
        decreases old(self).input().len() - old(self).position(), 1int, n,
    {
        let ghost buf = self.input();
        let ghost p0 = self.position();
        let mut v: Vec<(Value, Value)> = Vec::new();
        let mut k: usize = 0;
        while k < n
            invariant
                self.input() == buf,
                buf == old(self).input(),
                p0 == old(self).position(),
                k <= n,
                self.position() >= p0,
                parse_pairs(buf, p0, n as nat) == match parse_pairs(buf, self.position(), (n - k) as nat) {
                    Ok((rest, e)) => Ok((pair_models(v@) + rest, e)),
                    Err(f) => Err(f),
                },
            decreases n - k,
        {
            proof {
                use_type_invariant(&*self);
            }
            let key = self.read()?;
            let val = self.read()?;
            proof {
                assert(pair_models(v@.push((key, val))) =~= pair_models(v@).push((key.model(), val.model()))) by {
                    assert(v@.push((key, val)).drop_last() =~= v@);
                }
                assert(pair_models(v@).push((key.model(), val.model())) + match parse_pairs(buf, self.position(), (n - k - 1) as nat) {
                    Ok((rest, e)) => rest,
                    Err(f) => seq![],
                } =~= pair_models(v@) + (seq![(key.model(), val.model())] + match parse_pairs(buf, self.position(), (n - k - 1) as nat) {
                    Ok((rest, e)) => rest,
                    Err(f) => seq![],
                }));
            }
            v.push((key, val));
            k += 1;
        }
        proof {
            assert(pair_models(v@) + seq![] =~= pair_models(v@));
        }
        Ok(Value::Dict(v))
    }

    /// Decodes the value at the current position and moves past it.
    pub fn read(&mut self) -> (r: Result<Value, String>)
        ensures
            final(self).input() == old(self).input(),
            final(self).position() >= old(self).position(),
            r is Ok ==> final(self).position() > old(self).position(),
            final(self).position() <= final(self).input().len(),
            match parse_at(old(self).input(), old(self).position()) {
                Ok((v, e)) => {
                    &&& r matches Ok(x) && x.model() == v
                    &&& final(self).position() == e
                },
                Err(f) => r matches Err(m) && m@ == failure_message(f),
            },
        decreases old(self).input().len() - old(self).position(), 0int, 1int,
    {
        proof {
            use_type_invariant(&*self);
        }
        let r = self.read_tagged();
        proof {
            use_type_invariant(&*self);
        }
        r
    }

    fn read_tagged(&mut self) -> (r: Result<Value, String>)
        ensures
            final(self).input() == old(self).input(),
            final(self).position() >= old(self).position(),
            r is Ok ==> final(self).position() > old(self).position(),
            match parse_at(old(self).input(), old(self).position()) {
                Ok((v, e)) => {
                    &&& r matches Ok(x) && x.model() == v
                    &&& final(self).position() == e
                },
                Err(f) => r matches Err(m) && m@ == failure_message(f),
            },
        decreases old(self).input().len() - old(self).position(), 0int, 0int,
    {
        proof {
            use_type_invariant(&*self);
        }
        let c = self.u8v()?;
        if c <= 0x7F {
            Ok(Value::Int(c as i64))
        } else if c >= 0xE0 {
            Ok(Value::Int(c as i64 - 256))
        } else if c <= 0x8F {
            self.map((c - 0x80) as usize)
        } else if c <= 0x9F {
            self.array((c - 0x90) as usize)
        } else if c <= 0xBF {
            self.string((c - 0xA0) as usize)
        } else if c == 0xC0 {
            Ok(Value::Nil)
        } else if c == 0xC2 {
            Ok(Value::Bool(false))
        } else if c == 0xC3 {
            Ok(Value::Bool(true))
        } else if c == 0xC4 {
            let n = self.be(1)?;
            self.bin(n as usize)
        } else if c == 0xC5 {
            let n = self.be(2)?;
            self.bin(n as usize)
        } else if c == 0xC6 {
            let n = self.be(4)?;
            self.bin(n as usize)
        } else if c == 0xCA {
            let v = self.be(4)?;
            Ok(Value::F32(v as u32))
        } else if c == 0xCB {
            let v = self.be(8)?;
            Ok(Value::F64(v))
        } else if c == 0xCC {
            Ok(Value::UInt(self.be(1)?))
        } else if c == 0xCD {
            Ok(Value::UInt(self.be(2)?))
        } else if c == 0xCE {
            Ok(Value::UInt(self.be(4)?))
        } else if c == 0xCF {
            Ok(Value::UInt(self.be(8)?))
        } else if c == 0xD0 {
            let v = self.be(1)?;
            Ok(Value::Int(if v < 0x80 { v as i64 } else { v as i64 - 0x100 }))
        } else if c == 0xD1 {
            let v = self.be(2)?;
            Ok(Value::Int(if v < 0x8000 { v as i64 } else { v as i64 - 0x1_0000 }))
        } else if c == 0xD2 {
            let v = self.be(4)?;
            Ok(Value::Int(if v < 0x8000_0000 { v as i64 } else { v as i64 - 0x1_0000_0000 }))
        } else if c == 0xD3 {
            let v = self.be(8)?;
            Ok(Value::Int(if v < 0x8000_0000_0000_0000 {
                v as i64
            } else {
                (v - 0x8000_0000_0000_0000) as i64 + i64::MIN
            }))
        } else if c == 0xD9 {
            let n = self.be(1)?;
            self.string(n as usize)
        } else if c == 0xDA {
            let n = self.be(2)?;
            self.string(n as usize)
        } else if c == 0xDB {
            let n = self.be(4)?;
            self.string(n as usize)
        } else if c == 0xDC {
            let n = self.be(2)?;
            self.array(n as usize)
        } else if c == 0xDD {
            let n = self.be(4)?;
            self.array(n as usize)
        } else if c == 0xDE {
            let n = self.be(2)?;
            self.map(n as usize)
        } else if c == 0xDF {
            let n = self.be(4)?;
            self.map(n as usize)
        } else {
            Err(unsupported_byte_message(c))
        }
    }
}

/// `256` to the power `i`.
pub open spec fn pow256(i: nat) -> nat
    decreases i,
{
    if i == 0 {
        1
    } else {
        pow256((i - 1) as nat) * 256
    }
}

pub proof fn lemma_pow256(i: nat)
    ensures
        pow256(i + 1) == pow256(i) * 256,
        i <= 8 ==> pow256(i) <= 0x1_0000_0000_0000_0000,
        pow256(1) == 0x100,
        pow256(2) == 0x1_0000,
        pow256(4) == 0x1_0000_0000,
{
    reveal_with_fuel(pow256, 9);
}

pub proof fn lemma_pow256_mono(i: nat, j: nat)
    requires
        i <= j,
    ensures
        pow256(i) <= pow256(j),
    decreases j - i,
{
    if i < j {
        lemma_pow256_mono(i, (j - 1) as nat);
        lemma_pow256((j - 1) as nat);
    }
}

/// Decodes the first value in `buf`.
pub fn decode(buf: &[u8]) -> (r: Result<Value, String>)
    ensures
        match spec_decode(buf@) {
            Ok(v) => r matches Ok(x) && x.model() == v,
            Err(f) => r matches Err(m) && m@ == failure_message(f),
        },
{
    let mut rd = Reader::new(buf);
    rd.read()
}

} // verus!
