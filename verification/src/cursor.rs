//! The cursor codec: an opaque token for each sort-key value.
//!
//! A token is the lower-case hexadecimal form of a versioned byte string:
//! the version byte, then each part as a tag byte followed by its payload.
//! Integers are stored as eight little-endian bytes of their offset from
//! the smallest `i64`; text is stored as its length in eight little-endian
//! bytes followed by its bytes.

use crate::error::PageError;
use crate::key::{
    conforms, lemma_tie_break_decides, part_before, precedes, KeyPart, Part, SortKeyValue,
};
use vstd::bytes::*;
use vstd::prelude::*;
use vstd::slice::*;
use vstd::string::*;

verus! {

/// The version byte that opens every token this codec produces.
pub const CURSOR_VERSION: u8 = 1;

pub const TAG_NULL: u8 = 0;

pub const TAG_INT: u8 = 1;

pub const TAG_TEXT: u8 = 2;

/// An integer as its distance from the smallest `i64`.
pub open spec fn int_code(x: i64) -> u64 {
    (x + 0x8000_0000_0000_0000) as u64
}

/// The integer at the given distance from the smallest `i64`.
pub open spec fn code_int(u: u64) -> i64 {
    (u - 0x8000_0000_0000_0000) as i64
}

/// The bytes that encode one part.
pub open spec fn part_bytes(p: Part) -> Seq<u8> {
    match p {
        Part::Null => seq![TAG_NULL],
        Part::Int(x) => seq![TAG_INT] + spec_u64_to_le_bytes(int_code(x)),
        Part::Text(t) => seq![TAG_TEXT] + spec_u64_to_le_bytes(t.len() as u64) + t,
    }
}

/// The bytes that encode a run of parts, one after the other.
pub open spec fn parts_bytes(ps: Seq<Part>) -> Seq<u8>
    decreases ps.len(),
{
    if ps.len() == 0 {
        Seq::empty()
    } else {
        part_bytes(ps[0]) + parts_bytes(ps.drop_first())
    }
}

/// The byte string behind the token of a key value.
pub open spec fn payload(ps: Seq<Part>) -> Seq<u8> {
    seq![CURSOR_VERSION] + parts_bytes(ps)
}

/// The lower-case hexadecimal digit of a value below sixteen.
pub open spec fn hex_digit(n: int) -> char {
    if n < 10 {
        (48 + n) as char
    } else {
        (87 + n) as char
    }
}

/// The value of a lower-case hexadecimal digit.
pub open spec fn digit_value(c: char) -> Option<int> {
    let n = c as int;
    if 48 <= n <= 57 {
        Some(n - 48)
    } else if 97 <= n <= 102 {
        Some(n - 87)
    } else {
        None
    }
}

/// Two hexadecimal digits per byte, high digit first.
pub open spec fn hex_of(bytes: Seq<u8>) -> Seq<char> {
    Seq::new(
        2 * bytes.len(),
        |i: int|
            if i % 2 == 0 {
                hex_digit(bytes[i / 2] as int / 16)
            } else {
                hex_digit(bytes[i / 2] as int % 16)
            },
    )
}

/// An even number of lower-case hexadecimal digits.
pub open spec fn is_hex(s: Seq<char>) -> bool {
    &&& s.len() % 2 == 0
    &&& forall|i: int| 0 <= i < s.len() ==> digit_value(#[trigger] s[i]) is Some
}

/// The bytes that a hexadecimal string stands for.
pub open spec fn bytes_of_hex(s: Seq<char>) -> Option<Seq<u8>> {
    if is_hex(s) {
        Some(
            Seq::new(
                (s.len() / 2) as nat,
                |i: int|
                    (16 * digit_value(s[2 * i]).unwrap() + digit_value(s[2 * i + 1]).unwrap()) as u8,
            ),
        )
    } else {
        None
    }
}

/// A sort-key value that the codec can hold: every text is short enough
/// for its length to fit in eight bytes.
pub open spec fn representable(ps: Seq<Part>) -> bool {
    forall|i: int|
        0 <= i < ps.len() ==> (#[trigger] ps[i] matches Part::Text(t) ==> t.len() <= u64::MAX)
}

/// The token of a sort-key value.
pub open spec fn cursor_of(ps: Seq<Part>) -> Seq<char> {
    hex_of(payload(ps))
}

/// The eight bytes at `pos` read as a little-endian number.
pub open spec fn le_u64_at(b: Seq<u8>, pos: int) -> u64 {
    spec_u64_from_le_bytes(b.subrange(pos, pos + 8))
}

/// The part that starts at `pos`, with the position just after it.
pub open spec fn parse_part_at(b: Seq<u8>, pos: int) -> Option<(Part, int)> {
    if pos < 0 || pos >= b.len() {
        None
    } else if b[pos] == TAG_NULL {
        Some((Part::Null, pos + 1))
    } else if b[pos] == TAG_INT {
        if pos + 9 <= b.len() {
            Some((Part::Int(code_int(le_u64_at(b, pos + 1))), pos + 9))
        } else {
            None
        }
    } else if b[pos] == TAG_TEXT {
        if pos + 9 <= b.len() && pos + 9 + le_u64_at(b, pos + 1) <= b.len() {
            let n = le_u64_at(b, pos + 1) as int;
            Some((Part::Text(b.subrange(pos + 9, pos + 9 + n)), pos + 9 + n))
        } else {
            None
        }
    } else {
        None
    }
}

/// The parts that fill `b` from `pos` to its end, if it holds nothing else.
pub open spec fn parse_parts_at(b: Seq<u8>, pos: int) -> Option<Seq<Part>>
    decreases b.len() - pos,
{
    if pos >= b.len() {
        Some(Seq::empty())
    } else {
        match parse_part_at(b, pos) {
            None => None,
            Some((p, next)) => if next <= pos {
                None
            } else {
                match parse_parts_at(b, next) {
                    None => None,
                    Some(rest) => Some(seq![p] + rest),
                }
            },
        }
    }
}

/// The key value behind a byte string: the version must be the current
/// one and the parts must fill the rest exactly.
pub open spec fn parse_payload(b: Seq<u8>) -> Option<Seq<Part>> {
    if b.len() >= 1 && b[0] == CURSOR_VERSION {
        parse_parts_at(b, 1)
    } else {
        None
    }
}

/// The key value that a token stands for, if it is well formed.
pub open spec fn key_of_cursor(s: Seq<char>) -> Option<Seq<Part>> {
    match bytes_of_hex(s) {
        None => None,
        Some(b) => parse_payload(b),
    }
}


proof fn lemma_digit_of_hex_digit(n: int)
    requires
        0 <= n < 16,
    ensures
        digit_value(hex_digit(n)) == Some(n),
{
}

/// Every byte string is read back from its hexadecimal form.
pub proof fn lemma_hex_round_trip(b: Seq<u8>)
    ensures
        bytes_of_hex(hex_of(b)) == Some(b),
{
    let s = hex_of(b);
    assert forall|i: int| 0 <= i < s.len() implies digit_value(#[trigger] s[i]) is Some by {
        lemma_digit_of_hex_digit(b[i / 2] as int / 16);
        lemma_digit_of_hex_digit(b[i / 2] as int % 16);
    }
    assert(is_hex(s));
    let back = bytes_of_hex(s).unwrap();
    assert forall|i: int| 0 <= i < b.len() implies back[i] == b[i] by {
        lemma_digit_of_hex_digit(b[i] as int / 16);
        lemma_digit_of_hex_digit(b[i] as int % 16);
        assert(s[2 * i] == hex_digit(b[i] as int / 16));
        assert(s[2 * i + 1] == hex_digit(b[i] as int % 16));
    }
    assert(back =~= b);
}

proof fn lemma_parse_part(prefix: Seq<u8>, p: Part, rest: Seq<u8>)
    requires
        p matches Part::Text(t) ==> t.len() <= u64::MAX,
    ensures
        parse_part_at(prefix + part_bytes(p) + rest, prefix.len() as int) == Some(
            (p, (prefix.len() + part_bytes(p).len()) as int),
        ),
        part_bytes(p).len() >= 1,
{
    lemma_auto_spec_u64_to_from_le_bytes();
    let b = prefix + part_bytes(p) + rest;
    let pos = prefix.len() as int;
    match p {
        Part::Null => {},
        Part::Int(x) => {
            let le = spec_u64_to_le_bytes(int_code(x));
            assert(b.subrange(pos + 1, pos + 9) =~= le);
        },
        Part::Text(t) => {
            let le = spec_u64_to_le_bytes(t.len() as u64);
            assert(b.subrange(pos + 1, pos + 9) =~= le);
            assert(b.subrange(pos + 9, pos + 9 + t.len()) =~= t);
        },
    }
}

proof fn lemma_parse_parts(prefix: Seq<u8>, ps: Seq<Part>)
    requires
        representable(ps),
    ensures
        parse_parts_at(prefix + parts_bytes(ps), prefix.len() as int) == Some(ps),
    decreases ps.len(),
{
    let b = prefix + parts_bytes(ps);
    let pos = prefix.len() as int;
    if ps.len() == 0 {
        assert(ps =~= Seq::empty());
    } else {
        let p = ps[0];
        let tail = ps.drop_first();
        let grown = prefix + part_bytes(p);
        assert(representable(tail)) by {
            assert forall|i: int| 0 <= i < tail.len() implies (#[trigger] tail[i] matches Part::Text(
                t,
            ) ==> t.len() <= u64::MAX) by {
                assert(tail[i] == ps[i + 1]);
            }
        }
        lemma_parse_part(prefix, p, parts_bytes(tail));
        assert(b =~= prefix + part_bytes(p) + parts_bytes(tail));
        assert(b =~= grown + parts_bytes(tail));
        lemma_parse_parts(grown, tail);
        assert(seq![p] + tail =~= ps);
    }
}

/// Round trip: every representable sort-key value is read back from its
/// token unchanged.
pub proof fn lemma_round_trip(ps: Seq<Part>)
    requires
        representable(ps),
    ensures
        key_of_cursor(cursor_of(ps)) == Some(ps),
{
    lemma_hex_round_trip(payload(ps));
    lemma_parse_parts(seq![CURSOR_VERSION], ps);
}

/// Tokens do not collide: two representable sort-key values with the same
/// token are the same value.
pub proof fn lemma_cursor_injective(a: Seq<Part>, b: Seq<Part>)
    requires
        representable(a),
        representable(b),
        cursor_of(a) == cursor_of(b),
    ensures
        a == b,
{
    lemma_round_trip(a);
    lemma_round_trip(b);
}

proof fn lemma_hex_digit_of_value(c: char)
    requires
        digit_value(c) is Some,
    ensures
        0 <= digit_value(c).unwrap() < 16,
        hex_digit(digit_value(c).unwrap()) == c,
{
}

/// Only what `hex_of` writes is read as hexadecimal: a string that
/// stands for bytes is the hexadecimal form of those bytes.
pub proof fn lemma_hex_is_canonical(s: Seq<char>)
    requires
        bytes_of_hex(s) is Some,
    ensures
        hex_of(bytes_of_hex(s).unwrap()) == s,
{
    let b = bytes_of_hex(s).unwrap();
    let back = hex_of(b);
    assert forall|i: int| 0 <= i < s.len() implies back[i] == s[i] by {
        let k = i / 2;
        lemma_hex_digit_of_value(s[2 * k]);
        lemma_hex_digit_of_value(s[2 * k + 1]);
        let hi = digit_value(s[2 * k]).unwrap();
        let lo = digit_value(s[2 * k + 1]).unwrap();
        assert(b[k] == (16 * hi + lo) as u8);
        assert((16 * hi + lo) / 16 == hi);
        assert((16 * hi + lo) % 16 == lo);
    }
    assert(back =~= s);
}

proof fn lemma_parse_is_canonical(b: Seq<u8>, pos: int)
    requires
        0 <= pos <= b.len(),
        parse_parts_at(b, pos) is Some,
    ensures
        parts_bytes(parse_parts_at(b, pos).unwrap()) == b.subrange(pos, b.len() as int),
        representable(parse_parts_at(b, pos).unwrap()),
    decreases b.len() - pos,
{
    lemma_auto_spec_u64_to_from_le_bytes();
    let ps = parse_parts_at(b, pos).unwrap();
    let n = b.len() as int;
    if pos >= n {
        assert(b.subrange(pos, n) =~= Seq::empty());
    } else {
        let (p, next) = parse_part_at(b, pos).unwrap();
        let rest = parse_parts_at(b, next).unwrap();
        lemma_parse_is_canonical(b, next);
        assert(ps == seq![p] + rest);
        assert(ps[0] == p);
        assert(ps.drop_first() =~= rest);
        assert(part_bytes(p) =~= b.subrange(pos, next)) by {
            match p {
                Part::Null => {},
                Part::Int(x) => {
                    let raw = b.subrange(pos + 1, pos + 9);
                    assert(spec_u64_to_le_bytes(spec_u64_from_le_bytes(raw)) == raw);
                },
                Part::Text(t) => {
                    let raw = b.subrange(pos + 1, pos + 9);
                    assert(spec_u64_to_le_bytes(spec_u64_from_le_bytes(raw)) == raw);
                },
            }
        }
        assert(parts_bytes(ps) =~= b.subrange(pos, n));
        assert forall|i: int| 0 <= i < ps.len() implies (#[trigger] ps[i] matches Part::Text(t)
            ==> t.len() <= u64::MAX) by {
            if i > 0 {
                assert(ps[i] == rest[i - 1]);
            }
        }
    }
}

/// Decoding accepts exactly what encoding produces: a token stands for a
/// key value only if it is the token of that key value.
pub proof fn lemma_decode_is_exact(s: Seq<char>, ps: Seq<Part>)
    ensures
        key_of_cursor(s) == Some(ps) <==> representable(ps) && s == cursor_of(ps),
{
    if key_of_cursor(s) == Some(ps) {
        let b = bytes_of_hex(s).unwrap();
        lemma_hex_is_canonical(s);
        lemma_parse_is_canonical(b, 1);
        assert(b =~= seq![CURSOR_VERSION] + b.subrange(1, b.len() as int));
    }
    if representable(ps) && s == cursor_of(ps) {
        lemma_round_trip(ps);
    }
}

/// Tie-break: two records that agree in every sort field but the last
/// have different tokens, and the key values read back from their tokens
/// are ordered as their tie-break parts are, in that field's direction.
pub proof fn lemma_tie_break_cursors(desc: Seq<bool>, a: Seq<Part>, b: Seq<Part>)
    requires
        desc.len() > 0,
        conforms(desc, a),
        conforms(desc, b),
        representable(a),
        representable(b),
        a.drop_last() == b.drop_last(),
        a.last() != b.last(),
    ensures
        cursor_of(a) != cursor_of(b),
        precedes(desc, key_of_cursor(cursor_of(a)).unwrap(), key_of_cursor(cursor_of(b)).unwrap())
            == part_before(desc.last(), a.last(), b.last()),
        precedes(desc, key_of_cursor(cursor_of(a)).unwrap(), key_of_cursor(cursor_of(b)).unwrap())
            != precedes(
            desc,
            key_of_cursor(cursor_of(b)).unwrap(),
            key_of_cursor(cursor_of(a)).unwrap(),
        ),
{
    lemma_round_trip(a);
    lemma_round_trip(b);
    lemma_tie_break_decides(desc, a, b);
    if cursor_of(a) == cursor_of(b) {
        lemma_cursor_injective(a, b);
    }
}

/// What a key value held in memory contains is always representable.
pub proof fn lemma_key_representable(key: &SortKeyValue)
    ensures
        representable(key@),
{
    assert forall|i: int| 0 <= i < key@.len() implies (#[trigger] key@[i] matches Part::Text(t)
        ==> t.len() <= u64::MAX) by {
        match key.parts@[i] {
            KeyPart::Text(v) => {
                assert(v@.len() == v.len());
            },
            _ => {},
        }
    }
}


proof fn lemma_parts_bytes_push(ps: Seq<Part>, p: Part)
    ensures
        parts_bytes(ps.push(p)) == parts_bytes(ps) + part_bytes(p),
    decreases ps.len(),
{
    if ps.len() == 0 {
        assert(ps.push(p).drop_first() =~= Seq::empty());
        assert(parts_bytes(ps.push(p).drop_first()) =~= Seq::empty());
        assert(parts_bytes(ps.push(p)) =~= parts_bytes(ps) + part_bytes(p));
    } else {
        assert(ps.push(p).drop_first() =~= ps.drop_first().push(p));
        lemma_parts_bytes_push(ps.drop_first(), p);
        assert(parts_bytes(ps.push(p)) =~= parts_bytes(ps) + part_bytes(p));
    }
}

fn int_to_code(x: i64) -> (u: u64)
    ensures
        u == int_code(x),
{
    if x >= 0 {
        (x as u64) + 0x8000_0000_0000_0000u64
    } else {
        (x + i64::MAX + 1) as u64
    }
}

fn code_to_int(u: u64) -> (x: i64)
    ensures
        x == code_int(u),
{
    if u >= 0x8000_0000_0000_0000u64 {
        (u - 0x8000_0000_0000_0000u64) as i64
    } else {
        (u as i64) - i64::MAX - 1
    }
}

fn push_part(out: &mut Vec<u8>, p: &KeyPart)
    ensures
        final(out)@ == old(out)@ + part_bytes(p@),
{
    let ghost start = out@;
    match p {
        KeyPart::Null => {
            out.push(TAG_NULL);
            assert(out@ =~= start + part_bytes(p@));
        },
        KeyPart::Int(x) => {
            out.push(TAG_INT);
            let mut le = u64_to_le_bytes(int_to_code(*x));
            out.append(&mut le);
            assert(out@ =~= start + part_bytes(p@));
        },
        KeyPart::Text(t) => {
            out.push(TAG_TEXT);
            let mut le = u64_to_le_bytes(t.len() as u64);
            out.append(&mut le);
            let ghost head = out@;
            let mut i: usize = 0;
            while i < t.len()
                invariant
                    i <= t.len(),
                    out@ == head + t@.take(i as int),
                decreases t.len() - i,
            {
                out.push(t[i]);
                assert(t@.take(i + 1) =~= t@.take(i as int).push(t@[i as int]));
                assert(out@ =~= head + t@.take(i + 1));
                i += 1;
            }
            assert(t@.take(t.len() as int) =~= t@);
            assert(out@ =~= start + part_bytes(p@));
        },
    }
}

fn hex_str(n: u8) -> (r: &'static str)
    requires
        n < 16,
    ensures
        r@ == seq![hex_digit(n as int)],
{
    proof {
        reveal_strlit("0");
        reveal_strlit("1");
        reveal_strlit("2");
        reveal_strlit("3");
        reveal_strlit("4");
        reveal_strlit("5");
        reveal_strlit("6");
        reveal_strlit("7");
        reveal_strlit("8");
        reveal_strlit("9");
        reveal_strlit("a");
        reveal_strlit("b");
        reveal_strlit("c");
        reveal_strlit("d");
        reveal_strlit("e");
        reveal_strlit("f");
    }
    let r = match n {
        0 => "0",
        1 => "1",
        2 => "2",
        3 => "3",
        4 => "4",
        5 => "5",
        6 => "6",
        7 => "7",
        8 => "8",
        9 => "9",
        10 => "a",
        11 => "b",
        12 => "c",
        13 => "d",
        14 => "e",
        _ => "f",
    };
    assert(r@ =~= seq![hex_digit(n as int)]);
    r
}

/// The lower-case hexadecimal form of a byte string.
pub fn to_hex(bytes: &Vec<u8>) -> (s: String)
    ensures
        s@ == hex_of(bytes@),
{
    let mut s = String::new();
    let mut i: usize = 0;
    while i < bytes.len()
        invariant
            i <= bytes.len(),
            s@ == hex_of(bytes@.take(i as int)),
        decreases bytes.len() - i,
    {
        let b = bytes[i];
        let ghost before = s@;
        s.append(hex_str(b / 16));
        s.append(hex_str(b % 16));
        assert(s@ =~= hex_of(bytes@.take(i + 1))) by {
            let want = hex_of(bytes@.take(i + 1));
            assert(s@.len() == want.len());
            assert forall|k: int| 0 <= k < want.len() implies s@[k] == want[k] by {
                if k < 2 * i {
                    assert(before[k] == hex_of(bytes@.take(i as int))[k]);
                }
            }
        }
        i += 1;
    }
    assert(bytes@.take(bytes.len() as int) =~= bytes@);
    s
}

fn nibble(b: u8) -> (r: Option<u8>)
    ensures
        match digit_value(b as char) {
            Some(v) => r == Some(v as u8),
            None => r is None,
        },
{
    if 48 <= b && b <= 57 {
        Some(b - 48)
    } else if 97 <= b && b <= 102 {
        Some(b - 87)
    } else {
        None
    }
}

/// The bytes behind a string of lower-case hexadecimal digits, or `None`
/// where the string is anything else.
pub fn from_hex(token: &str) -> (r: Option<Vec<u8>>)
    ensures
        match bytes_of_hex(token@) {
            Some(b) => r matches Some(v) && v@ == b,
            None => r is None,
        },
{
    broadcast use is_ascii_spec_bytes;

    if !token.is_ascii() {
        proof {
            let i = choose|i: int| 0 <= i < token@.len() && !('\0' <= #[trigger] token@[i] <= '\u{7f}');
            assert(digit_value(token@[i]) is None);
        }
        return None;
    }
    let tb = token.as_bytes();
    let n = tb.len();
    assert(n == token@.len());
    assert(forall|j: int| 0 <= j < n ==> tb@[j] == token@[j] as u8);
    if n % 2 != 0 {
        return None;
    }
    let mut out: Vec<u8> = Vec::new();
    let mut k: usize = 0;
    while k < n / 2
        invariant
            n == token@.len(),
            n == tb@.len(),
            n % 2 == 0,
            k <= n / 2,
            is_ascii(token),
            forall|j: int| 0 <= j < n ==> tb@[j] == token@[j] as u8,
            out@.len() == k,
            forall|j: int| 0 <= j < 2 * k ==> digit_value(#[trigger] token@[j]) is Some,
            forall|j: int|
                0 <= j < k ==> out@[j] == (16 * digit_value(token@[2 * j]).unwrap() + digit_value(
                    token@[2 * j + 1],
                ).unwrap()) as u8,
        decreases n / 2 - k,
    {
        let hi_byte = tb[2 * k];
        let lo_byte = tb[2 * k + 1];
        assert(hi_byte as char == token@[2 * k as int]);
        assert(lo_byte as char == token@[2 * k + 1]);
        let hi = nibble(hi_byte);
        let lo = nibble(lo_byte);
        match (hi, lo) {
            (Some(h), Some(l)) => {
                out.push(16 * h + l);
                assert forall|j: int| 0 <= j < 2 * (k + 1) implies digit_value(
                    #[trigger] token@[j],
                ) is Some by {
                    if j >= 2 * k {
                        assert(j == 2 * k || j == 2 * k + 1);
                    }
                }
            },
            _ => {
                return None;
            },
        }
        k += 1;
    }
    assert(is_hex(token@));
    assert(out@ =~= bytes_of_hex(token@).unwrap());
    Some(out)
}

/// The parts recognised so far, followed by those still to come.
spec fn continued(done: Seq<Part>, rest: Option<Seq<Part>>) -> Option<Seq<Part>> {
    match rest {
        None => None,
        Some(r) => Some(done + r),
    }
}

fn parse_bytes(bytes: &Vec<u8>) -> (r: Option<SortKeyValue>)
    ensures
        match parse_payload(bytes@) {
            Some(v) => r matches Some(k) && k@ == v,
            None => r is None,
        },
{
    let len = bytes.len();
    if len == 0 || bytes[0] != CURSOR_VERSION {
        return None;
    }
    let mut parts: Vec<KeyPart> = Vec::new();
    let mut pos: usize = 1;
    let ghost mut done: Seq<Part> = Seq::empty();
    assert(continued(done, parse_parts_at(bytes@, 1)) =~= parse_parts_at(bytes@, 1)) by {
        if let Some(r) = parse_parts_at(bytes@, 1) {
            assert(done + r =~= r);
        }
    }
    while pos < len
        invariant
            len == bytes@.len(),
            1 <= pos <= len,
            done.len() == parts@.len(),
            forall|j: int| 0 <= j < done.len() ==> done[j] == parts@[j]@,
            parse_payload(bytes@) == continued(done, parse_parts_at(bytes@, pos as int)),
        decreases len - pos,
    {
        let tag = bytes[pos];
        let ghost here = parse_part_at(bytes@, pos as int);
        let part: KeyPart;
        let next: usize;
        if tag == TAG_NULL {
            part = KeyPart::Null;
            next = pos + 1;
        } else if tag == TAG_INT {
            if len - pos < 9 {
                return None;
            }
            let code = u64_from_le_bytes(slice_subrange(bytes.as_slice(), pos + 1, pos + 9));
            part = KeyPart::Int(code_to_int(code));
            next = pos + 9;
        } else if tag == TAG_TEXT {
            if len - pos < 9 {
                return None;
            }
            let n = u64_from_le_bytes(slice_subrange(bytes.as_slice(), pos + 1, pos + 9));
            if n > (len - pos - 9) as u64 {
                return None;
            }
            let end = pos + 9 + n as usize;
            let text = slice_to_vec(slice_subrange(bytes.as_slice(), pos + 9, end));
            part = KeyPart::Text(text);
            next = end;
        } else {
            return None;
        }
        proof {
            assert(here == Some((part@, next as int)));
            let rest = parse_parts_at(bytes@, next as int);
            if let Some(r) = rest {
                assert(done + (seq![part@] + r) =~= done.push(part@) + r);
            }
            done = done.push(part@);
        }
        parts.push(part);
        pos = next;
    }
    let key = SortKeyValue { parts };
    proof {
        assert(parse_parts_at(bytes@, len as int) == Some(Seq::<Part>::empty()));
        assert(done + Seq::<Part>::empty() =~= done);
        assert(key@ =~= done);
    }
    Some(key)
}

/// The token that stands for `key`.
///
/// Equal key values give equal tokens, distinct key values give distinct
/// tokens, and `decode` reads every token back.
pub fn encode(key: &SortKeyValue) -> (token: String)
    ensures
        token@ == cursor_of(key@),
        key_of_cursor(token@) == Some(key@),
{
    let mut bytes: Vec<u8> = Vec::new();
    bytes.push(CURSOR_VERSION);
    let mut i: usize = 0;
    assert(key@.take(0) =~= Seq::empty());
    assert(bytes@ =~= payload(key@.take(0)));
    while i < key.parts.len()
        invariant
            i <= key.parts.len(),
            bytes@ == payload(key@.take(i as int)),
        decreases key.parts.len() - i,
    {
        push_part(&mut bytes, &key.parts[i]);
        proof {
            lemma_parts_bytes_push(key@.take(i as int), key@[i as int]);
            assert(key@.take(i + 1) =~= key@.take(i as int).push(key@[i as int]));
            assert(bytes@ =~= payload(key@.take(i + 1)));
        }
        i += 1;
    }
    proof {
        assert(key@.take(key.parts.len() as int) =~= key@);
        lemma_key_representable(key);
        lemma_round_trip(key@);
    }
    to_hex(&bytes)
}

/// The key value that `token` stands for.
///
/// Fails with `InvalidCursor` where the token is not a string of
/// lower-case hexadecimal digit pairs, opens with another version byte,
/// holds an unknown tag, ends inside a part, or carries a length that
/// runs past its end. Whether a record with that key value exists plays
/// no part.
pub fn decode(token: &str) -> (r: Result<SortKeyValue, PageError>)
    ensures
        match key_of_cursor(token@) {
            Some(v) => r matches Ok(k) && k@ == v,
            None => r == Err::<SortKeyValue, PageError>(PageError::InvalidCursor),
        },
{
    match from_hex(token) {
        None => Err(PageError::InvalidCursor),
        Some(bytes) => match parse_bytes(&bytes) {
            None => Err(PageError::InvalidCursor),
            Some(key) => Ok(key),
        },
    }
}

} // verus!
