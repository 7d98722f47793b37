//! Byte and text helpers shared by the parsers: byte-wise comparison,
//! lossy UTF-8 decoding and the few std formatting calls the library makes.

use vstd::prelude::*;
use vstd::utf8::*;

verus! {

broadcast use vstd::utf8::encode_utf8_decode_utf8;

/// What `String::from_utf8_lossy` gives for a byte sequence.
pub uninterp spec fn utf8_lossy(bytes: Seq<u8>) -> Seq<char>;

/// Calls `String::from_utf8_lossy`. Claimed: the result depends on the bytes
/// alone, and a valid UTF-8 sequence decodes unchanged (as std documents).
/// What an invalid sequence turns into (replacement characters) is left to
/// the name.
#[verifier::external_body]
pub fn from_utf8_lossy(bytes: &[u8]) -> (s: String)
    ensures
        s@ == utf8_lossy(bytes@),
        valid_utf8(bytes@) ==> s@ == decode_utf8(bytes@),
{
    String::from_utf8_lossy(bytes).into_owned()
}

/// Calls `<[u8]>::len`. Claimed besides the length itself: a slice never
/// spans more than `isize::MAX` bytes, which std documents for every slice.
#[verifier::external_body]
pub fn slice_len(b: &[u8]) -> (n: usize)
    ensures
        n == b@.len(),
        n <= isize::MAX,
{
    b.len()
}

/// Calls `str::strip_prefix` with a string pattern. Claimed, as std
/// documents it: when `s` starts with `prefix` the rest of `s` after it,
/// otherwise nothing.
#[verifier::external_body]
pub fn strip_prefix<'a>(s: &'a str, prefix: &str) -> (r: Option<&'a str>)
    ensures
        match r {
            Some(rest) => prefix@.is_prefix_of(s@) && rest@ == s@.skip(prefix@.len() as int),
            None => !prefix@.is_prefix_of(s@),
        },
{
    s.strip_prefix(prefix)
}

/// Byte-wise equality of two slices.
pub fn bytes_eq(a: &[u8], b: &[u8]) -> (r: bool)
    ensures
        r == (a@ == b@),
{
    if a.len() != b.len() {
        return false;
    }
    let mut i: usize = 0;
    while i < a.len()
        invariant
            a@.len() == b@.len(),
            i <= a@.len(),
            forall|j: int| 0 <= j < i ==> a@[j] == b@[j],
        decreases a@.len() - i,
    {
        if a[i] != b[i] {
            return false;
        }
        i += 1;
    }
    assert(a@ =~= b@);
    true
}

/// Equality of two strings, decided on their UTF-8 bytes.
pub fn str_eq(a: &str, b: &str) -> (r: bool)
    ensures
        r == (a@ == b@),
{
    let r = bytes_eq(a.as_bytes(), b.as_bytes());
    proof {
        if r {
            assert(decode_utf8(encode_utf8(a@)) == a@);
            assert(decode_utf8(encode_utf8(b@)) == b@);
        }
    }
    r
}

/// `width` hexadecimal digits of `v` (the low ones), most significant first.
pub open spec fn hex_digits(v: nat, width: nat, upper: bool) -> Seq<char>
    decreases width,
{
    if width == 0 {
        seq![]
    } else {
        hex_digits(v / 16, (width - 1) as nat, upper).push(hex_digit((v % 16) as nat, upper))
    }
}

/// One hexadecimal digit.
pub open spec fn hex_digit(d: nat, upper: bool) -> char {
    if d < 10 {
        ('0' as nat + d) as char
    } else if upper {
        ('A' as nat + d - 10) as char
    } else {
        ('a' as nat + d - 10) as char
    }
}

/// One hexadecimal digit as text.
pub fn hex_digit_str(d: u8, upper: bool) -> (s: &'static str)
    requires
        d < 16,
    ensures
        s@ == seq![hex_digit(d as nat, upper)],
{
    proof {
        reveal_strlit("0");
        reveal_strlit("1");
        reveal_strlit("2");
        reveal_strlit("3");
        reveal_strlit("4");
        reveal_strlit("5");
        reveal_strlit("6");
        reveal_strlit("7");
        reveal_strlit("8");
        reveal_strlit("9");
        reveal_strlit("A");
        reveal_strlit("B");
        reveal_strlit("C");
        reveal_strlit("D");
        reveal_strlit("E");
        reveal_strlit("F");
        reveal_strlit("a");
        reveal_strlit("b");
        reveal_strlit("c");
        reveal_strlit("d");
        reveal_strlit("e");
        reveal_strlit("f");
    }
    match d {
        0 => "0",
        1 => "1",
        2 => "2",
        3 => "3",
        4 => "4",
        5 => "5",
        6 => "6",
        7 => "7",
        8 => "8",
        9 => "9",
        10 => if upper { "A" } else { "a" },
        11 => if upper { "B" } else { "b" },
        12 => if upper { "C" } else { "c" },
        13 => if upper { "D" } else { "d" },
        14 => if upper { "E" } else { "e" },
        _ => if upper { "F" } else { "f" },
    }
}

/// Appends the two hexadecimal digits of a byte to `s`.
pub fn push_hex_byte(s: &mut String, b: u8, upper: bool)
    ensures
        final(s)@ == old(s)@ + hex_digits(b as nat, 2, upper),
{
    s.append(hex_digit_str(b / 16, upper));
    s.append(hex_digit_str(b % 16, upper));
    proof {
        reveal_with_fuel(hex_digits, 3);
        assert(hex_digits(b as nat, 2, upper) =~= seq![hex_digit((b / 16) as nat, upper), hex_digit((b % 16) as nat, upper)]);
    }
}

/// The low `w + 2` hexadecimal digits of `v` are its low `w` digits above
/// the hexadecimal digits of its low byte.
proof fn lemma_hex_split(v: u64, w: nat, upper: bool)
    ensures
        hex_digits(v as nat, w + 2, upper) == hex_digits((v / 256) as nat, w, upper) + hex_digits(
            (v % 256) as nat,
            2,
            upper,
        ),
{
    assert(v / 16 / 16 == v / 256 && (v % 256) / 16 % 16 == (v / 16) % 16 && (v % 256) % 16 == v % 16) by (
    bit_vector);
    reveal_with_fuel(hex_digits, 3);
    assert(hex_digits(v as nat, w + 2, upper) == hex_digits((v / 16) as nat, w + 1, upper).push(
        hex_digit((v % 16) as nat, upper),
    ));
    assert(hex_digits((v / 16) as nat, w + 1, upper) == hex_digits((v / 256) as nat, w, upper).push(
        hex_digit(((v / 16) % 16) as nat, upper),
    ));
    assert(hex_digits((v % 256) as nat, 2, upper) =~= seq![
        hex_digit(((v / 16) % 16) as nat, upper),
        hex_digit((v % 16) as nat, upper),
    ]);
}

/// Appends the low `2 * k` hexadecimal digits of `v`, most significant first.
pub fn push_hex(s: &mut String, v: u64, k: u32, upper: bool)
    ensures
        final(s)@ == old(s)@ + hex_digits(v as nat, (2 * k) as nat, upper),
    decreases k,
{
    if k == 0 {
        assert(hex_digits(v as nat, 0, upper) =~= Seq::<char>::empty());
        assert(old(s)@ + Seq::<char>::empty() =~= old(s)@);
    } else {
        push_hex(s, v / 256, k - 1, upper);
        push_hex_byte(s, (v % 256) as u8, upper);
        proof {
            lemma_hex_split(v, (2 * (k - 1)) as nat, upper);
            assert((2 * (k - 1)) as nat + 2 == (2 * k) as nat);
        }
        assert(final(s)@ =~= old(s)@ + hex_digits(v as nat, (2 * k) as nat, upper));
    }
}

/// How `format!("{:?}", s)` writes a string (quoted, escaped).
pub uninterp spec fn debug_str(s: Seq<char>) -> Seq<char>;

/// Calls `format!("{:?}", s)`: the `Debug` form of a string. Claimed: the
/// result depends on the string alone; how it quotes and escapes is left
/// to the name.
#[verifier::external_body]
pub fn debug_quoted(s: &str) -> (r: String)
    ensures
        r@ == debug_str(s@),
{
    format!("{:?}", s)
}

/// What `str::to_lowercase` gives.
pub uninterp spec fn lowercase(s: Seq<char>) -> Seq<char>;

/// Calls `str::to_lowercase` (full Unicode lower-casing). Claimed: the
/// result depends on the string alone; the case table is left to the name.
#[verifier::external_body]
pub fn to_lowercase(s: &str) -> (r: String)
    ensures
        r@ == lowercase(s@),
{
    s.to_lowercase()
}

/// The decimal digits of `n`, most significant first, without leading zeros.
pub open spec fn decimal(n: nat) -> Seq<char>
    decreases n,
{
    if n < 10 {
        seq![('0' as nat + n) as char]
    } else {
        decimal(n / 10).push(('0' as nat + n % 10) as char)
    }
}

/// Appends the decimal digits of `n`.
pub fn push_decimal(s: &mut String, n: u64)
    ensures
        final(s)@ == old(s)@ + decimal(n as nat),
    decreases n,
{
    if n >= 10 {
        push_decimal(s, n / 10);
    }
    s.append(hex_digit_str((n % 10) as u8, false));
    assert(final(s)@ =~= old(s)@ + decimal(n as nat));
}

/// The decimal digits of `n`, as `u64::to_string` writes them.
pub fn decimal_string(n: u64) -> (r: String)
    ensures
        r@ == decimal(n as nat),
{
    let mut r = String::new();
    push_decimal(&mut r, n);
    assert(r@ =~= decimal(n as nat));
    r
}

/// ASCII lower-casing of one byte.
pub open spec fn ascii_lower(b: u8) -> u8 {
    if 0x41 <= b <= 0x5A {
        (b + 0x20) as u8
    } else {
        b
    }
}

/// Whether two byte sequences are equal after ASCII lower-casing
/// (what `eq_ignore_ascii_case` decides).
pub open spec fn ascii_ci_eq(a: Seq<u8>, b: Seq<u8>) -> bool {
    a.len() == b.len() && forall|i: int| 0 <= i < a.len() ==> ascii_lower(a[i]) == ascii_lower(b[i])
}

/// `str::eq_ignore_ascii_case`: equal lengths, and equal bytes once ASCII
/// letters are lower-cased.
pub fn eq_ignore_ascii_case(a: &str, b: &str) -> (r: bool)
    ensures
        r == ascii_ci_eq(encode_utf8(a@), encode_utf8(b@)),
{
    let x = a.as_bytes();
    let y = b.as_bytes();
    if x.len() != y.len() {
        return false;
    }
    let mut i: usize = 0;
    while i < x.len()
        invariant
            x@ == encode_utf8(a@),
            y@ == encode_utf8(b@),
            x@.len() == y@.len(),
            i <= x@.len(),
            forall|j: int| 0 <= j < i ==> ascii_lower(x@[j]) == ascii_lower(y@[j]),
        decreases x@.len() - i,
    {
        let u = if 0x41 <= x[i] && x[i] <= 0x5A { x[i] + 0x20 } else { x[i] };
        let v = if 0x41 <= y[i] && y[i] <= 0x5A { y[i] + 0x20 } else { y[i] };
        if u != v {
            return false;
        }
        i += 1;
    }
    true
}

/// `a` comes strictly before `b` in byte-wise lexicographic order.
pub open spec fn bytes_lt(a: Seq<u8>, b: Seq<u8>) -> bool
    decreases a.len(),
{
    if a.len() == 0 {
        b.len() > 0
    } else if b.len() == 0 {
        false
    } else if a[0] != b[0] {
        a[0] < b[0]
    } else {
        bytes_lt(a.drop_first(), b.drop_first())
    }
}

/// No byte sequence comes before itself.
pub proof fn lemma_bytes_lt_irreflexive(a: Seq<u8>)
    ensures
        !bytes_lt(a, a),
    decreases a.len(),
{
    if a.len() > 0 {
        lemma_bytes_lt_irreflexive(a.drop_first());
    }
}

/// Byte-wise lexicographic order is transitive.
pub proof fn lemma_bytes_lt_transitive(a: Seq<u8>, b: Seq<u8>, c: Seq<u8>)
    requires
        bytes_lt(a, b),
        bytes_lt(b, c),
    ensures
        bytes_lt(a, c),
    decreases a.len(),
{
    if a.len() > 0 && b.len() > 0 && c.len() > 0 && a[0] == b[0] && b[0] == c[0] {
        lemma_bytes_lt_transitive(a.drop_first(), b.drop_first(), c.drop_first());
    }
}

/// Byte-wise lexicographic `a < b` (the order of `str` and of path
/// components alike).
pub fn bytes_less(a: &[u8], b: &[u8]) -> (r: bool)
    ensures
        r == bytes_lt(a@, b@),
{
    let mut i: usize = 0;
    assert(a@.skip(0) =~= a@);
    assert(b@.skip(0) =~= b@);
    while i < a.len() && i < b.len()
        invariant
            i <= a@.len(),
            i <= b@.len(),
            bytes_lt(a@, b@) == bytes_lt(a@.skip(i as int), b@.skip(i as int)),
        decreases a@.len() - i,
    {
        assert(a@.skip(i as int).drop_first() =~= a@.skip(i + 1));
        assert(b@.skip(i as int).drop_first() =~= b@.skip(i + 1));
        if a[i] != b[i] {
            return a[i] < b[i];
        }
        i += 1;
    }
    i < b.len()
}

} // verus!

