//! The JSON text forms of the wire values: strings, arrays of strings, and
//! the reading of both back from text.
use vstd::prelude::*;

use crate::text::{is_prefix, push_char};

verus! {

/// The lower-case hexadecimal digit of `n`, for `n < 16`.
pub open spec fn hex_digit(n: u32) -> char {
    if n == 0 { '0' }
    else if n == 1 { '1' }
    else if n == 2 { '2' }
    else if n == 3 { '3' }
    else if n == 4 { '4' }
    else if n == 5 { '5' }
    else if n == 6 { '6' }
    else if n == 7 { '7' }
    else if n == 8 { '8' }
    else if n == 9 { '9' }
    else if n == 10 { 'a' }
    else if n == 11 { 'b' }
    else if n == 12 { 'c' }
    else if n == 13 { 'd' }
    else if n == 14 { 'e' }
    else { 'f' }
}

/// The value of a hexadecimal digit of either case.
pub open spec fn hex_value(c: char) -> Option<u32> {
    if '0' <= c && c <= '9' {
        Some((c as u32 - '0' as u32) as u32)
    } else if 'a' <= c && c <= 'f' {
        Some((c as u32 - 'a' as u32 + 10) as u32)
    } else if 'A' <= c && c <= 'F' {
        Some((c as u32 - 'A' as u32 + 10) as u32)
    } else {
        None
    }
}

/// How one character stands inside a JSON string: quote and backslash
/// escaped, control characters by their short escape or as `\u00XX`, any
/// other character as itself.
pub open spec fn escape_char(c: char) -> Seq<char> {
    if c == '"' {
        seq!['\\', '"']
    } else if c == '\\' {
        seq!['\\', '\\']
    } else if c == '\u{8}' {
        seq!['\\', 'b']
    } else if c == '\u{c}' {
        seq!['\\', 'f']
    } else if c == '\n' {
        seq!['\\', 'n']
    } else if c == '\r' {
        seq!['\\', 'r']
    } else if c == '\t' {
        seq!['\\', 't']
    } else if (c as u32) < 32 {
        seq!['\\', 'u', '0', '0', hex_digit((c as u32) / 16), hex_digit((c as u32) % 16)]
    } else {
        seq![c]
    }
}

/// The escaped form of a string's characters.
pub open spec fn escaped(s: Seq<char>) -> Seq<char>
    decreases s.len(),
{
    if s.len() == 0 {
        Seq::empty()
    } else {
        escaped(s.drop_last()) + escape_char(s.last())
    }
}

/// A string as a JSON string literal.
pub open spec fn quoted(s: Seq<char>) -> Seq<char> {
    seq!['"'] + escaped(s) + seq!['"']
}

/// The literals of `items`, separated by commas.
pub open spec fn string_items(items: Seq<Seq<char>>) -> Seq<char>
    decreases items.len(),
{
    if items.len() == 0 {
        Seq::empty()
    } else if items.len() == 1 {
        quoted(items[0])
    } else {
        string_items(items.drop_last()) + seq![','] + quoted(items.last())
    }
}

/// A sequence of strings as a JSON array.
pub open spec fn string_array(items: Seq<Seq<char>>) -> Seq<char> {
    seq!['['] + string_items(items) + seq![']']
}

/// JSON whitespace.
pub open spec fn is_ws(c: char) -> bool {
    c == ' ' || c == '\t' || c == '\n' || c == '\r'
}

/// `t` holds `part` from position `i` on.
pub open spec fn holds_at(t: Seq<char>, i: int, part: Seq<char>) -> bool {
    0 <= i && i + part.len() <= t.len() && t.subrange(i, i + part.len()) == part
}

pub open spec fn string_views(v: Seq<String>) -> Seq<Seq<char>> {
    v.map_values(|s: String| s@)
}

proof fn lemma_escaped_concat(a: Seq<char>, b: Seq<char>)
    ensures
        escaped(a + b) == escaped(a) + escaped(b),
    decreases b.len(),
{
    if b.len() == 0 {
        assert(a + b =~= a);
        assert(escaped(a) + escaped(b) =~= escaped(a));
    } else {
        lemma_escaped_concat(a, b.drop_last());
        assert((a + b).drop_last() =~= a + b.drop_last());
        assert((a + b).last() == b.last());
        assert(escaped(a + b) =~= escaped(a) + escaped(b));
    }
}

/// The escaped form of `v` splits at any character.
proof fn lemma_escaped_split(v: Seq<char>, k: int)
    requires
        0 <= k < v.len(),
    ensures
        escaped(v) == escaped(v.subrange(0, k)) + escape_char(v[k]) + escaped(
            v.subrange(k + 1, v.len() as int),
        ),
        escaped(v.subrange(0, k + 1)) == escaped(v.subrange(0, k)) + escape_char(v[k]),
{
    let a = v.subrange(0, k);
    let b = v.subrange(k + 1, v.len() as int);
    assert(v.subrange(0, k + 1).drop_last() =~= a);
    lemma_escaped_concat(v.subrange(0, k + 1), b);
    assert(v.subrange(0, k + 1) + b =~= v);
}

proof fn lemma_escape_char_facts(c: char)
    ensures
        escape_char(c).len() >= 1,
        escape_char(c)[0] != '"',
        escape_char(c)[0] == '\\' <==> (c == '"' || c == '\\' || (c as u32) < 32),
        escape_char(c)[0] != '\\' ==> escape_char(c) == seq![c],
{
}

proof fn lemma_escaped_len(a: Seq<char>)
    ensures
        escaped(a).len() >= a.len(),
    decreases a.len(),
{
    if a.len() > 0 {
        lemma_escaped_len(a.drop_last());
        lemma_escape_char_facts(a.last());
    }
}

/// The exec form of `hex_digit`.
fn hex_char(n: u32) -> (r: char)
    requires
        n < 16,
    ensures
        r == hex_digit(n),
{
    if n == 0 { '0' }
    else if n == 1 { '1' }
    else if n == 2 { '2' }
    else if n == 3 { '3' }
    else if n == 4 { '4' }
    else if n == 5 { '5' }
    else if n == 6 { '6' }
    else if n == 7 { '7' }
    else if n == 8 { '8' }
    else if n == 9 { '9' }
    else if n == 10 { 'a' }
    else if n == 11 { 'b' }
    else if n == 12 { 'c' }
    else if n == 13 { 'd' }
    else if n == 14 { 'e' }
    else { 'f' }
}

/// Appends the escaped form of `c`.
fn write_escaped_char(out: &mut String, c: char)
    ensures
        final(out)@ == old(out)@ + escape_char(c),
{
    let code = c as u32;
    if c == '"' {
        push_char(out, '\\');
        push_char(out, '"');
    } else if c == '\\' {
        push_char(out, '\\');
        push_char(out, '\\');
    } else if c == '\u{8}' {
        push_char(out, '\\');
        push_char(out, 'b');
    } else if c == '\u{c}' {
        push_char(out, '\\');
        push_char(out, 'f');
    } else if c == '\n' {
        push_char(out, '\\');
        push_char(out, 'n');
    } else if c == '\r' {
        push_char(out, '\\');
        push_char(out, 'r');
    } else if c == '\t' {
        push_char(out, '\\');
        push_char(out, 't');
    } else if code < 32 {
        push_char(out, '\\');
        push_char(out, 'u');
        push_char(out, '0');
        push_char(out, '0');
        push_char(out, hex_char(code / 16));
        push_char(out, hex_char(code % 16));
    } else {
        push_char(out, c);
    }
    assert(final(out)@ =~= old(out)@ + escape_char(c));
}

/// Appends `s` as a JSON string literal.
pub fn write_quoted(out: &mut String, s: &str)
    ensures
        final(out)@ == old(out)@ + quoted(s@),
{
    let ghost start = out@;
    push_char(out, '"');
    let n = s.unicode_len();
    let mut k: usize = 0;
    while k < n
        invariant
            n == s@.len(),
            k <= n,
            out@ == start + seq!['"'] + escaped(s@.subrange(0, k as int)),
        decreases n - k,
    {
        let c = s.get_char(k);
        write_escaped_char(out, c);
        proof {
            lemma_escaped_split(s@, k as int);
        }
        k = k + 1;
    }
    push_char(out, '"');
    assert(s@.subrange(0, n as int) =~= s@);
    assert(out@ =~= start + quoted(s@));
}

/// Appends `items` as a JSON array of strings.
pub fn write_string_array(out: &mut String, items: &Vec<String>)
    ensures
        final(out)@ == old(out)@ + string_array(string_views(items@)),
{
    let ghost start = out@;
    let ghost views = string_views(items@);
    push_char(out, '[');
    let mut k: usize = 0;
    while k < items.len()
        invariant
            k <= items@.len(),
            views == string_views(items@),
            out@ == start + seq!['['] + string_items(views.subrange(0, k as int)),
        decreases items@.len() - k,
    {
        let ghost before = out@;
        if k > 0 {
            push_char(out, ',');
        }
        write_quoted(out, items[k].as_str());
        proof {
            let s = views.subrange(0, k + 1);
            assert(s.drop_last() =~= views.subrange(0, k as int));
            assert(s.last() == items@[k as int]@);
            if k == 0 {
                assert(views.subrange(0, 0) =~= Seq::<Seq<char>>::empty());
                assert(out@ =~= start + seq!['['] + string_items(s));
            } else {
                assert(out@ =~= start + seq!['['] + string_items(s));
            }
        }
        k = k + 1;
    }
    push_char(out, ']');
    assert(views.subrange(0, items@.len() as int) =~= views);
    assert(out@ =~= start + string_array(views));
}

/// The character that a two-character escape `\e` stands for.
pub open spec fn short_escape(e: char) -> Option<char> {
    if e == '"' {
        Some('"')
    } else if e == '\\' {
        Some('\\')
    } else if e == '/' {
        Some('/')
    } else if e == 'b' {
        Some('\u{8}')
    } else if e == 'f' {
        Some('\u{c}')
    } else if e == 'n' {
        Some('\n')
    } else if e == 'r' {
        Some('\r')
    } else if e == 't' {
        Some('\t')
    } else {
        None
    }
}

/// The number that four hexadecimal digits write.
pub open spec fn hex4(u: Seq<char>) -> Option<u32> {
    if u.len() == 4 && hex_value(u[0]) is Some && hex_value(u[1]) is Some && hex_value(u[2]) is Some
        && hex_value(u[3]) is Some {
        Some(
            (hex_value(u[0])->0 * 4096 + hex_value(u[1])->0 * 256 + hex_value(u[2])->0 * 16
                + hex_value(u[3])->0) as u32,
        )
    } else {
        None
    }
}

/// `u` is one unit of a JSON string literal, standing for `c`: the character
/// itself (neither quote, backslash nor control character), a two-character
/// escape, or `\u` and four hexadecimal digits.
#[verifier::opaque]
pub open spec fn denotes(u: Seq<char>, c: char) -> bool {
    ||| u == seq![c] && c != '"' && c != '\\' && (c as u32) >= 32
    ||| u.len() == 2 && u[0] == '\\' && short_escape(u[1]) == Some(c)
    ||| u.len() == 6 && u[0] == '\\' && u[1] == 'u' && hex4(u.subrange(2, 6)) == Some(c as u32)
    ||| u.len() == 12 && u[0] == '\\' && u[1] == 'u' && u[6] == '\\' && u[7] == 'u' && surrogates(
        hex4(u.subrange(2, 6)),
        hex4(u.subrange(8, 12)),
    ) == Some(c as u32)
}

/// The code that a high and a low surrogate stand for together.
pub open spec fn surrogates(hi: Option<u32>, lo: Option<u32>) -> Option<u32> {
    match (hi, lo) {
        (Some(h), Some(l)) => if 0xD800 <= h < 0xDC00 && 0xDC00 <= l < 0xE000 {
            Some((0x10000 + (h - 0xD800) * 0x400 + (l - 0xDC00)) as u32)
        } else {
            None
        },
        _ => None,
    }
}

/// `cuts` splits `x` into units that stand for the characters of `v`, one
/// each.
#[verifier::opaque]
pub open spec fn body_layout(x: Seq<char>, v: Seq<char>, cuts: Seq<int>) -> bool {
    &&& cuts.len() == v.len() + 1
    &&& cuts[0] == 0
    &&& cuts[v.len() as int] == x.len()
    &&& forall|k: int| 0 <= k <= v.len() ==> 0 <= #[trigger] cuts[k] <= x.len()
    &&& forall|k: int| 0 <= k < v.len() ==> #[trigger] cuts[k] < cuts[k + 1]
    &&& forall|k: int|
        0 <= k < v.len() ==> #[trigger] denotes(x.subrange(cuts[k], cuts[k + 1]), v[k])
}

/// `x` is a JSON string literal that stands for `v`.
pub open spec fn string_literal(x: Seq<char>, v: Seq<char>) -> bool {
    &&& x.len() >= 2
    &&& x[0] == '"'
    &&& x[x.len() - 1] == '"'
    &&& exists|cuts: Seq<int>| #[trigger] body_layout(x.subrange(1, x.len() - 1), v, cuts)
}

/// Relies on `char::from_u32`: `Some` exactly for a Unicode scalar value,
/// holding the character of that code.
#[verifier::external_body]
fn char_from_code(code: u32) -> (r: Option<char>)
    ensures
        r is Some <==> (code < 0xD800 || (0xE000 <= code && code <= 0x10FFFF)),
        r matches Some(c) ==> c as u32 == code,
{
    char::from_u32(code)
}

/// The characters of `s`.
pub fn to_chars(s: &str) -> (r: Vec<char>)
    ensures
        r@ == s@,
{
    let n = s.unicode_len();
    let mut out: Vec<char> = Vec::new();
    let mut k: usize = 0;
    while k < n
        invariant
            n == s@.len(),
            k <= n,
            out@ == s@.subrange(0, k as int),
        decreases n - k,
    {
        out.push(s.get_char(k));
        assert(out@ =~= s@.subrange(0, k + 1));
        k = k + 1;
    }
    assert(out@ =~= s@);
    out
}

/// The first position at or after `i` that holds no whitespace.
pub fn skip_ws(t: &Vec<char>, i: usize) -> (j: usize)
    requires
        i <= t@.len(),
    ensures
        i <= j <= t@.len(),
        forall|k: int| i <= k < j ==> is_ws(#[trigger] t@[k]),
        j < t@.len() ==> !is_ws(t@[j as int]),
        (i < t@.len() && !is_ws(t@[i as int])) ==> j == i,
{
    let mut j = i;
    while j < t.len() && (t[j] == ' ' || t[j] == '\t' || t[j] == '\n' || t[j] == '\r')
        invariant
            i <= j <= t@.len(),
            forall|k: int| i <= k < j ==> is_ws(#[trigger] t@[k]),
        decreases t@.len() - j,
    {
        j = j + 1;
    }
    j
}

fn hex_of(c: char) -> (r: Option<u32>)
    ensures
        r == hex_value(c),
{
    if '0' <= c && c <= '9' {
        Some(c as u32 - '0' as u32)
    } else if 'a' <= c && c <= 'f' {
        Some(c as u32 - 'a' as u32 + 10)
    } else if 'A' <= c && c <= 'F' {
        Some(c as u32 - 'A' as u32 + 10)
    } else {
        None
    }
}

proof fn lemma_hex_round_trip(n: u32)
    requires
        n < 16,
    ensures
        hex_value(hex_digit(n)) == Some(n),
{
}

/// The four hexadecimal digits at `i`, as a number.
fn parse_hex4(t: &Vec<char>, i: usize) -> (r: Option<u32>)
    requires
        i <= t@.len(),
    ensures
        (i + 4 <= t@.len() && hex_value(t@[i as int]) is Some && hex_value(t@[i + 1]) is Some
            && hex_value(t@[i + 2]) is Some && hex_value(t@[i + 3]) is Some) ==> r == Some(
            (hex_value(t@[i as int])->0 * 4096 + hex_value(t@[i + 1])->0 * 256 + hex_value(
                t@[i + 2],
            )->0 * 16 + hex_value(t@[i + 3])->0) as u32,
        ),
        r matches Some(v) ==> v < 0x10000 && i + 4 <= t@.len() && hex4(
            t@.subrange(i as int, i + 4),
        ) == Some(v),
{
    if t.len() < 4 || i > t.len() - 4 {
        return None;
    }
    let a = hex_of(t[i]);
    let b = hex_of(t[i + 1]);
    let c = hex_of(t[i + 2]);
    let d = hex_of(t[i + 3]);
    match (a, b, c, d) {
        (Some(a), Some(b), Some(c), Some(d)) => {
            let ghost u = t@.subrange(i as int, i + 4);
            assert(u[0] == t@[i as int] && u[1] == t@[i + 1] && u[2] == t@[i + 2] && u[3] == t@[i
                + 3]);
            Some(a * 4096 + b * 256 + c * 16 + d)
        },
        _ => None,
    }
}

/// The exec form of `short_escape`.
fn short_escape_of(e: char) -> (r: Option<char>)
    ensures
        r == short_escape(e),
{
    if e == '"' {
        Some('"')
    } else if e == '\\' {
        Some('\\')
    } else if e == '/' {
        Some('/')
    } else if e == 'b' {
        Some('\u{8}')
    } else if e == 'f' {
        Some('\u{c}')
    } else if e == 'n' {
        Some('\n')
    } else if e == 'r' {
        Some('\r')
    } else if e == 't' {
        Some('\t')
    } else {
        None
    }
}

proof fn lemma_short_unit(u: Seq<char>, d: char)
    requires
        u.len() == 2,
        u[0] == '\\',
        short_escape(u[1]) == Some(d),
    ensures
        denotes(u, d),
{
    reveal(denotes);
}

proof fn lemma_hex_unit(u: Seq<char>, c: char)
    requires
        u.len() == 6,
        u[0] == '\\',
        u[1] == 'u',
        hex4(u.subrange(2, 6)) == Some(c as u32),
    ensures
        denotes(u, c),
{
    reveal(denotes);
}

proof fn lemma_pair_unit(t: Seq<char>, p: int, h: u32, l: u32, c: char)
    requires
        0 <= p && p + 12 <= t.len(),
        t[p] == '\\',
        t[p + 1] == 'u',
        t[p + 6] == '\\',
        t[p + 7] == 'u',
        hex4(t.subrange(p + 2, p + 6)) == Some(h),
        hex4(t.subrange(p + 8, p + 12)) == Some(l),
        surrogates(Some(h), Some(l)) == Some(c as u32),
    ensures
        denotes(t.subrange(p, p + 12), c),
{
    reveal(denotes);
    let u = t.subrange(p, p + 12);
    assert(u.subrange(2, 6) =~= t.subrange(p + 2, p + 6));
    assert(u.subrange(8, 12) =~= t.subrange(p + 8, p + 12));
    assert(u[0] == t[p] && u[1] == t[p + 1] && u[6] == t[p + 6] && u[7] == t[p + 7]);
}

/// Reads the low half of a surrogate pair whose high half `hi` was read at
/// `p`: the character the pair stands for, and the position after it.
fn parse_pair(t: &Vec<char>, p: usize, hi: u32) -> (r: Option<(char, usize)>)
    requires
        p + 6 <= t@.len(),
        t@[p as int] == '\\',
        t@[p + 1] == 'u',
        hex4(t@.subrange(p + 2, p + 6)) == Some(hi),
        0xD800 <= hi < 0xDC00,
    ensures
        r matches Some((d, q)) ==> q == p + 12 && q <= t@.len() && denotes(
            t@.subrange(p as int, q as int),
            d,
        ),
{
    let n = t.len();
    if n < 12 || p > n - 12 || t[p + 6] != '\\' || t[p + 7] != 'u' {
        return None;
    }
    match parse_hex4(t, p + 8) {
        Some(lo) => {
            if lo < 0xDC00 || lo >= 0xE000 {
                return None;
            }
            let code = 0x10000 + (hi - 0xD800) * 0x400 + (lo - 0xDC00);
            match char_from_code(code) {
                Some(ch) => {
                    proof {
                        assert(surrogates(Some(hi), Some(lo)) == Some(code));
                        lemma_pair_unit(t@, p as int, hi, lo, ch);
                    }
                    Some((ch, p + 12))
                },
                None => None,
            }
        },
        None => None,
    }
}

/// Reads the escape sequence at `p`: the character it stands for and the
/// position after it.
#[verifier::rlimit(40)]
fn parse_escape(t: &Vec<char>, p: usize) -> (r: Option<(char, usize)>)
    requires
        p + 1 < t@.len(),
        t@[p as int] == '\\',
    ensures
        r matches Some((d, q)) ==> p < q <= t@.len() && denotes(t@.subrange(p as int, q as int), d),
        forall|c: char| #[trigger]
            holds_at(t@, p as int, escape_char(c)) && escape_char(c).len() > 1 ==> r == Some(
                (c, (p + escape_char(c).len()) as usize),
            ),
{
    proof {
        assert forall|c: char| #[trigger] holds_at(t@, p as int, escape_char(c)) implies t@[p + 1] == escape_char(c)[1] || escape_char(c).len() <= 1 by {
            if escape_char(c).len() > 1 {
                assert(t@[p + 1] == t@.subrange(p as int, p + escape_char(c).len())[1]);
            }
        }
    }
    let n = t.len();
    assert(p + 2 <= n);
    let e = t[p + 1];
    if let Some(d) = short_escape_of(e) {
        proof {
            let u = t@.subrange(p as int, p + 2);
            assert(u[0] == t@[p as int] && u[1] == t@[p + 1]);
            lemma_short_unit(u, d);
        }
        return Some((d, p + 2));
    }
    if e != 'u' {
        return None;
    }
    proof {
        assert forall|c: char| #[trigger] holds_at(t@, p as int, escape_char(c)) && escape_char(c).len() > 1 implies {
            let x = c as u32;
            &&& x < 32
            &&& p + 6 <= t@.len()
            &&& t@[p + 2] == '0' && t@[p + 3] == '0'
            &&& t@[p + 4] == hex_digit(x / 16)
            &&& t@[p + 5] == hex_digit(x % 16)
        } by {
            let w = t@.subrange(p as int, p + escape_char(c).len());
            assert(t@[p + 2] == w[2]);
            assert(t@[p + 3] == w[3]);
            assert(t@[p + 4] == w[4]);
            assert(t@[p + 5] == w[5]);
        }
    }
    match parse_hex4(t, p + 2) {
        Some(code) => if 0xD800 <= code && code < 0xDC00 {
            proof {
                assert forall|c: char| #[trigger] holds_at(t@, p as int, escape_char(c)) implies escape_char(c).len() <= 1 by {
                    if escape_char(c).len() > 1 {
                        let x = c as u32;
                        lemma_hex_round_trip(x / 16);
                        lemma_hex_round_trip(x % 16);
                        assert(hex_value('0') == Some(0u32));
                        assert(code == (x / 16) * 16 + x % 16);
                    }
                }
            }
            parse_pair(t, p, code)
        } else {
            match char_from_code(code) {
            Some(ch) => {
                proof {
                    assert forall|c: char| #[trigger] holds_at(t@, p as int, escape_char(c)) && escape_char(c).len() > 1 implies ch == c && escape_char(c).len() == 6 by {
                        let x = c as u32;
                        lemma_hex_round_trip(x / 16);
                        lemma_hex_round_trip(x % 16);
                        assert(hex_value('0') == Some(0u32));
                        assert(code == (x / 16) * 16 + x % 16);
                        assert(code == x);
                        assert(ch as u32 == c as u32);
                        assert(escape_char(c).len() == 6);
                        vstd::utf8::char_u32_cast(ch, code);
                        vstd::utf8::char_u32_cast(c, code);
                        assert(ch == c);
                    }
                    let u = t@.subrange(p as int, p + 6);
                    assert(u.subrange(2, 6) =~= t@.subrange(p + 2, p + 6));
                    assert(u[0] == t@[p as int] && u[1] == t@[p + 1]);
                    lemma_hex_unit(u, ch);
                }
                Some((ch, p + 6))
            },
            None => {
                proof {
                    assert forall|c: char| #[trigger] holds_at(t@, p as int, escape_char(c)) implies escape_char(c).len() <= 1 by {
                        if escape_char(c).len() > 1 {
                            let x = c as u32;
                            lemma_hex_round_trip(x / 16);
                            lemma_hex_round_trip(x % 16);
                            assert(code == x);
                        }
                    }
                }
                None
            },
        }},
        None => {
            proof {
                assert forall|c: char| #[trigger] holds_at(t@, p as int, escape_char(c)) implies escape_char(c).len() <= 1 by {
                    if escape_char(c).len() > 1 {
                        let x = c as u32;
                        lemma_hex_round_trip(x / 16);
                        lemma_hex_round_trip(x % 16);
                    }
                }
            }
            None
        },
    }
}

proof fn lemma_layout_empty(x: Seq<char>)
    requires
        x.len() == 0,
    ensures
        body_layout(x, Seq::empty(), seq![0]),
{
    reveal(body_layout);
}

proof fn lemma_layout_push(x: Seq<char>, y: Seq<char>, v: Seq<char>, cuts: Seq<int>, c: char)
    requires
        body_layout(x, v, cuts),
        denotes(y, c),
        y.len() > 0,
    ensures
        body_layout(x + y, v.push(c), cuts.push((x.len() + y.len()) as int)),
{
    reveal(body_layout);
    let x2 = x + y;
    let v2 = v.push(c);
    let c2 = cuts.push((x.len() + y.len()) as int);
    assert forall|k: int| 0 <= k <= v2.len() implies 0 <= #[trigger] c2[k] <= x2.len() by {
        if k <= v.len() {
            assert(c2[k] == cuts[k]);
        }
    }
    assert forall|k: int| 0 <= k < v2.len() implies #[trigger] c2[k] < c2[k + 1] by {
        if k < v.len() {
            assert(c2[k] == cuts[k] && c2[k + 1] == cuts[k + 1]);
        } else {
            assert(c2[k] == cuts[k]);
        }
    }
    assert forall|k: int| 0 <= k < v2.len() implies #[trigger] denotes(x2.subrange(c2[k], c2[k + 1]), v2[k]) by {
        if k < v.len() {
            assert(c2[k] == cuts[k] && c2[k + 1] == cuts[k + 1] && v2[k] == v[k]);
            assert(denotes(x.subrange(cuts[k], cuts[k + 1]), v[k]));
            assert(x2.subrange(c2[k], c2[k + 1]) =~= x.subrange(cuts[k], cuts[k + 1]));
        } else {
            assert(c2[k] == cuts[k]);
            assert(x2.subrange(c2[k], c2[k + 1]) =~= y);
        }
    }
}

/// Reads the JSON string literal at `i`: its value and the position after it.
/// Every literal that `quoted` writes is read back as the string it was
/// written from.
#[verifier::rlimit(60)]
pub fn parse_string(t: &Vec<char>, i: usize) -> (r: Option<(String, usize)>)
    requires
        i <= t@.len(),
    ensures
        r matches Some((s, j)) ==> i < j <= t@.len() && string_literal(
            t@.subrange(i as int, j as int),
            s@,
        ),
        forall|v: Seq<char>| #[trigger]
            holds_at(t@, i as int, quoted(v)) ==> (r matches Some((s, j)) && s@ == v && j == i
                + quoted(v).len()),
{
    proof {
        assert forall|v: Seq<char>| #[trigger] holds_at(t@, i as int, quoted(v)) implies i < t@.len() && t@[i as int] == '"' by {
            assert(t@[i as int] == t@.subrange(i as int, i + quoted(v).len())[0]);
        }
    }
    if i >= t.len() || t[i] != '"' {
        return None;
    }
    let mut out = String::new();
    let mut p = i + 1;
    let ghost mut cuts: Seq<int> = seq![0];
    assert(out@ =~= Seq::<char>::empty());
    proof {
        lemma_layout_empty(t@.subrange(i + 1, p as int));
    }
    loop
        invariant
            i < p <= t@.len(),
            t@[i as int] == '"',
            body_layout(t@.subrange(i + 1, p as int), out@, cuts),
            forall|v: Seq<char>| #[trigger]
                holds_at(t@, i as int, quoted(v)) ==> (out@.len() <= v.len() && out@
                    == v.subrange(0, out@.len() as int) && p == i + 1 + escaped(out@).len()),
        decreases t@.len() - p,
    {
        let ghost k = out@.len() as int;
        proof {
            assert forall|v: Seq<char>| #[trigger] holds_at(t@, i as int, quoted(v)) implies (k
                < v.len() ==> holds_at(t@, p as int, escape_char(v[k]))) && (k == v.len() ==> (p
                < t@.len() && t@[p as int] == '"')) by {
                let w = t@.subrange(i as int, i + quoted(v).len());
                if k < v.len() {
                    lemma_escaped_split(v, k);
                    let e = escape_char(v[k]);
                    let off: int = 1 + escaped(v.subrange(0, k)).len() as int;
                    assert(quoted(v) =~= seq!['"'] + escaped(v.subrange(0, k)) + e + escaped(
                        v.subrange(k + 1, v.len() as int),
                    ) + seq!['"']);
                    assert(quoted(v).subrange(off, off + e.len() as int) =~= e);
                    assert(t@.subrange(p as int, p + e.len()) =~= w.subrange(
                        off,
                        off + e.len() as int,
                    ));
                } else {
                    assert(out@ =~= v);
                    assert(t@[p as int] == w[p - i]);
                }
            }
        }
        if p >= t.len() {
            proof {
                assert forall|v: Seq<char>| !holds_at(t@, i as int, #[trigger] quoted(v)) by {
                    if holds_at(t@, i as int, quoted(v)) && k < v.len() {
                        lemma_escape_char_facts(v[k]);
                    }
                }
            }
            return None;
        }
        let c = t[p];
        if c == '"' {
            proof {
                assert forall|v: Seq<char>| #[trigger] holds_at(t@, i as int, quoted(v)) implies out@
                    == v && p + 1 == i + quoted(v).len() by {
                    if k < v.len() {
                        lemma_escape_char_facts(v[k]);
                        assert(escape_char(v[k])[0] == t@.subrange(p as int, p + escape_char(v[k]).len())[0]);
                    }
                    assert(out@ =~= v);
                }
                let x = t@.subrange(i as int, p + 1);
                assert(x.subrange(1, x.len() - 1) =~= t@.subrange(i + 1, p as int));
                assert(x[0] == t@[i as int] && x[x.len() - 1] == t@[p as int]);
                assert(body_layout(x.subrange(1, x.len() - 1), out@, cuts));
                assert(string_literal(x, out@));
            }
            return Some((out, p + 1));
        }
        proof {
            assert forall|v: Seq<char>| #[trigger] holds_at(t@, i as int, quoted(v)) implies k < v.len() && t@[p as int] == escape_char(v[k])[0] by {
                if k < v.len() {
                    lemma_escape_char_facts(v[k]);
                    assert(escape_char(v[k])[0] == t@.subrange(p as int, p + escape_char(v[k]).len())[0]);
                }
            }
        }
        if c == '\\' {
            if p + 1 >= t.len() {
                proof {
                    assert forall|v: Seq<char>| !holds_at(t@, i as int, #[trigger] quoted(v)) by {
                        if holds_at(t@, i as int, quoted(v)) {
                            lemma_escape_char_facts(v[k]);
                        }
                    }
                }
                return None;
            }
            match parse_escape(t, p) {
                Some((d, q)) => {
                    let ghost old_out = out@;
                    push_char(&mut out, d);
                    proof {
                        lemma_layout_push(t@.subrange(i + 1, p as int), t@.subrange(p as int, q as int), old_out, cuts, d);
                        assert(t@.subrange(i + 1, p as int) + t@.subrange(p as int, q as int) =~= t@.subrange(i + 1, q as int));
                        cuts = cuts.push(q - (i + 1));
                        assert forall|v: Seq<char>| #[trigger] holds_at(t@, i as int, quoted(v)) implies (out@.len() <= v.len() && out@
                            == v.subrange(0, out@.len() as int) && q == i + 1 + escaped(out@).len()) by {
                            lemma_escape_char_facts(v[k]);
                            lemma_escaped_split(v, k);
                            assert(escape_char(v[k]).len() > 1);
                            assert(out@ =~= v.subrange(0, k + 1));
                        }
                    }
                    p = q;
                },
                None => {
                    proof {
                        assert forall|v: Seq<char>| !holds_at(t@, i as int, #[trigger] quoted(v)) by {
                            if holds_at(t@, i as int, quoted(v)) {
                                lemma_escape_char_facts(v[k]);
                                assert(escape_char(v[k]).len() > 1);
                            }
                        }
                    }
                    return None;
                },
            }
        } else if (c as u32) < 32 {
            proof {
                assert forall|v: Seq<char>| !holds_at(t@, i as int, #[trigger] quoted(v)) by {
                    if holds_at(t@, i as int, quoted(v)) {
                        lemma_escape_char_facts(v[k]);
                    }
                }
            }
            return None;
        } else {
            let ghost old_out = out@;
            push_char(&mut out, c);
            proof {
                assert(t@.subrange(p as int, p + 1) =~= seq![c]);
                reveal(denotes);
                lemma_layout_push(t@.subrange(i + 1, p as int), t@.subrange(p as int, p + 1), old_out, cuts, c);
                assert(t@.subrange(i + 1, p as int) + t@.subrange(p as int, p + 1) =~= t@.subrange(i + 1, p + 1));
                cuts = cuts.push(p + 1 - (i + 1));
                assert forall|v: Seq<char>| #[trigger] holds_at(t@, i as int, quoted(v)) implies (out@.len() <= v.len() && out@
                    == v.subrange(0, out@.len() as int) && p + 1 == i + 1 + escaped(out@).len()) by {
                    lemma_escape_char_facts(v[k]);
                    lemma_escaped_split(v, k);
                    assert(out@ =~= v.subrange(0, k + 1));
                }
            }
            p = p + 1;
        }
    }
}

/// Holding `a + b` at `i` is holding `a` at `i` and `b` right after it.
pub proof fn lemma_holds_split(t: Seq<char>, i: int, a: Seq<char>, b: Seq<char>)
    ensures
        holds_at(t, i, a + b) <==> (holds_at(t, i, a) && holds_at(t, i + a.len(), b)),
{
    if holds_at(t, i, a + b) {
        let w = t.subrange(i, i + (a + b).len());
        assert(t.subrange(i, i + a.len()) =~= w.subrange(0, a.len() as int));
        assert(w.subrange(0, a.len() as int) =~= a);
        assert(t.subrange(i + a.len(), i + a.len() + b.len()) =~= w.subrange(
            a.len() as int,
            (a + b).len() as int,
        ));
        assert(w.subrange(a.len() as int, (a + b).len() as int) =~= b);
    }
    if holds_at(t, i, a) && holds_at(t, i + a.len(), b) {
        assert(t.subrange(i, i + (a + b).len()) =~= t.subrange(i, i + a.len()) + t.subrange(
            i + a.len(),
            i + a.len() + b.len(),
        ));
    }
}

/// The separator written before the item at `k`.
pub open spec fn separator(k: int) -> Seq<char> {
    if k == 0 {
        Seq::empty()
    } else {
        seq![',']
    }
}

proof fn lemma_items_step(items: Seq<Seq<char>>, k: int)
    requires
        0 <= k < items.len(),
    ensures
        string_items(items.subrange(0, k + 1)) == string_items(items.subrange(0, k)) + separator(k)
            + quoted(items[k]),
{
    let s = items.subrange(0, k + 1);
    assert(s.drop_last() =~= items.subrange(0, k));
    if k == 0 {
        assert(items.subrange(0, 0) =~= Seq::<Seq<char>>::empty());
        assert(string_items(s) =~= string_items(items.subrange(0, k)) + separator(k) + quoted(
            items[k],
        ));
    }
}

proof fn lemma_items_prefix(items: Seq<Seq<char>>, m: int)
    requires
        0 <= m <= items.len(),
    ensures
        is_prefix(string_items(items.subrange(0, m)), string_items(items)),
    decreases items.len() - m,
{
    if m == items.len() {
        assert(items.subrange(0, m) =~= items);
        assert(string_items(items).subrange(0, string_items(items).len() as int) =~= string_items(items));
    } else {
        lemma_items_prefix(items, m + 1);
        lemma_items_step(items, m);
        let a = string_items(items.subrange(0, m));
        let b = string_items(items.subrange(0, m + 1));
        let n = string_items(items);
        assert(n.subrange(0, a.len() as int) =~= b.subrange(0, a.len() as int));
        assert(b.subrange(0, a.len() as int) =~= a);
    }
}

/// The facts that hold at the item `k` of an array written by `string_array`.
proof fn lemma_array_at(t: Seq<char>, i: int, items: Seq<Seq<char>>, k: int)
    requires
        holds_at(t, i, string_array(items)),
        0 <= k <= items.len(),
    ensures
        k < items.len() ==> holds_at(
            t,
            i + 1 + string_items(items.subrange(0, k)).len(),
            separator(k) + quoted(items[k]),
        ),
        k == items.len() ==> holds_at(
            t,
            i + 1 + string_items(items.subrange(0, k)).len(),
            seq![']'],
        ),
        holds_at(t, i, seq!['[']),
{
    let sn = string_items(items);
    lemma_holds_split(t, i, seq!['['] + sn, seq![']']);
    lemma_holds_split(t, i, seq!['['], sn);
    if k < items.len() {
        lemma_items_prefix(items, k + 1);
        lemma_items_step(items, k);
        let rest = sn.subrange(string_items(items.subrange(0, k + 1)).len() as int, sn.len() as int);
        assert(sn =~= string_items(items.subrange(0, k + 1)) + rest);
        let sk = string_items(items.subrange(0, k));
        assert(sn =~= sk + (separator(k) + quoted(items[k])) + rest);
        lemma_holds_split(t, i + 1, sk + (separator(k) + quoted(items[k])), rest);
        lemma_holds_split(t, i + 1, sk, separator(k) + quoted(items[k]));
    } else {
        assert(items.subrange(0, k) =~= items);
    }
}

/// `t` holds only whitespace from `a` up to `b`.
pub open spec fn ws_between(t: Seq<char>, a: int, b: int) -> bool {
    forall|k: int| a <= k < b ==> is_ws(#[trigger] t[k])
}

/// The items of an array's body, in `t` from `lo` up to `hi`: item `k` is
/// the string literal from `starts[k]` up to `ends[k]`; the items are
/// separated by commas (`commas[k]` precedes item `k`, for `k > 0`) and
/// surrounded by whitespace only.
#[verifier::opaque]
pub open spec fn items_layout(
    t: Seq<char>,
    lo: int,
    hi: int,
    items: Seq<Seq<char>>,
    starts: Seq<int>,
    ends: Seq<int>,
    commas: Seq<int>,
) -> bool {
    let n = items.len() as int;
    &&& 0 <= lo <= hi <= t.len()
    &&& starts.len() == n && ends.len() == n && commas.len() == n
    &&& n == 0 ==> ws_between(t, lo, hi)
    &&& n > 0 ==> lo <= starts[0] && ends[n - 1] <= hi && ws_between(t, lo, starts[0])
        && ws_between(t, ends[n - 1], hi)
    &&& forall|k: int|
        0 <= k < n ==> #[trigger] starts[k] < ends[k] && string_literal(
            t.subrange(starts[k], ends[k]),
            items[k],
        )
    &&& forall|k: int|
        0 < k < n ==> ends[k - 1] <= #[trigger] commas[k] < starts[k] && t[commas[k]] == ','
            && ws_between(t, ends[k - 1], commas[k]) && ws_between(t, commas[k] + 1, starts[k])
}

/// `t` holds, from `i` up to `j`, a JSON array of strings standing for
/// `items`.
pub open spec fn array_at(t: Seq<char>, i: int, j: int, items: Seq<Seq<char>>) -> bool {
    &&& 0 <= i && i + 2 <= j <= t.len()
    &&& t[i] == '['
    &&& t[j - 1] == ']'
    &&& exists|starts: Seq<int>, ends: Seq<int>, commas: Seq<int>|
        #[trigger] items_layout(t, i + 1, j - 1, items, starts, ends, commas)
}

proof fn lemma_items_empty(t: Seq<char>, lo: int)
    requires
        0 <= lo <= t.len(),
    ensures
        items_layout(t, lo, lo, Seq::empty(), Seq::empty(), Seq::empty(), Seq::empty()),
{
    reveal(items_layout);
}

proof fn lemma_items_trailing_ws(
    t: Seq<char>,
    lo: int,
    p: int,
    q: int,
    items: Seq<Seq<char>>,
    starts: Seq<int>,
    ends: Seq<int>,
    commas: Seq<int>,
)
    requires
        items_layout(t, lo, p, items, starts, ends, commas),
        items.len() == 0 ==> p == lo,
        items.len() > 0 ==> ends[items.len() - 1] == p,
        ws_between(t, p, q),
        p <= q <= t.len(),
    ensures
        items_layout(t, lo, q, items, starts, ends, commas),
{
    reveal(items_layout);
}

proof fn lemma_items_push(
    t: Seq<char>,
    lo: int,
    p: int,
    comma: int,
    s: int,
    j: int,
    items: Seq<Seq<char>>,
    starts: Seq<int>,
    ends: Seq<int>,
    commas: Seq<int>,
    item: Seq<char>,
)
    requires
        items_layout(t, lo, p, items, starts, ends, commas),
        items.len() == 0 ==> p == lo && ws_between(t, p, s),
        items.len() > 0 ==> ends[items.len() - 1] == p && p <= comma < s && t[comma] == ','
            && ws_between(t, p, comma) && ws_between(t, comma + 1, s),
        p <= s < j <= t.len(),
        string_literal(t.subrange(s, j), item),
    ensures
        items_layout(
            t,
            lo,
            j,
            items.push(item),
            starts.push(s),
            ends.push(j),
            commas.push(comma),
        ),
{
    reveal(items_layout);
    let n = items.len() as int;
    let i2 = items.push(item);
    let s2 = starts.push(s);
    let e2 = ends.push(j);
    let c2 = commas.push(comma);
    assert forall|k: int| 0 <= k < n + 1 implies #[trigger] s2[k] < e2[k] && string_literal(
        t.subrange(s2[k], e2[k]),
        i2[k],
    ) by {
        if k < n {
            assert(s2[k] == starts[k] && e2[k] == ends[k] && i2[k] == items[k]);
            assert(starts[k] < ends[k]);
        }
    }
    assert forall|k: int| 0 < k < n + 1 implies e2[k - 1] <= #[trigger] c2[k] < s2[k] && t[c2[k]]
        == ',' && ws_between(t, e2[k - 1], c2[k]) && ws_between(t, c2[k] + 1, s2[k]) by {
        if k < n {
            assert(s2[k] == starts[k] && e2[k - 1] == ends[k - 1] && c2[k] == commas[k]);
            assert(commas[k] < starts[k]);
        }
    }
    if n > 0 {
        assert(s2[0] == starts[0]);
        assert(lo <= starts[0]);
        assert(ends[n - 1] <= p);
        assert(starts[0] < ends[0]);
    }
}

/// Reads the JSON array of strings at `i`: its items and the position after
/// it. Every array that `string_array` writes is read back as the items it
/// was written from.
pub fn parse_string_array(t: &Vec<char>, i: usize) -> (r: Option<(Vec<String>, usize)>)
    requires
        i <= t@.len(),
    ensures
        r matches Some((v, j)) ==> i < j <= t@.len() && array_at(
            t@,
            i as int,
            j as int,
            string_views(v@),
        ),
        forall|items: Seq<Seq<char>>| #[trigger]
            holds_at(t@, i as int, string_array(items)) ==> (r matches Some((v, j)) && string_views(
                v@,
            ) == items && j == i + string_array(items).len()),
{
    proof {
        assert forall|items: Seq<Seq<char>>| #[trigger] holds_at(t@, i as int, string_array(items)) implies i < t@.len() && t@[i as int] == '[' by {
            lemma_array_at(t@, i as int, items, 0);
            assert(t@[i as int] == t@.subrange(i as int, i + 1)[0]);
        }
    }
    if i >= t.len() || t[i] != '[' {
        return None;
    }
    let mut out: Vec<String> = Vec::new();
    let mut p = i + 1;
    let ghost mut starts: Seq<int> = Seq::empty();
    let ghost mut ends: Seq<int> = Seq::empty();
    let ghost mut commas: Seq<int> = Seq::empty();
    proof {
        lemma_items_empty(t@, i + 1);
        assert(string_views(out@) =~= Seq::<Seq<char>>::empty());
        assert forall|items: Seq<Seq<char>>| #[trigger] holds_at(t@, i as int, string_array(items)) implies string_views(out@) == items.subrange(0, 0) && p == i + 1 + string_items(items.subrange(0, 0)).len() by {
            assert(items.subrange(0, 0) =~= Seq::<Seq<char>>::empty());
            assert(string_views(out@) =~= Seq::<Seq<char>>::empty());
        }
    }
    loop
        invariant
            i < p <= t@.len(),
            t@[i as int] == '[',
            items_layout(t@, i + 1, p as int, string_views(out@), starts, ends, commas),
            out@.len() == 0 ==> p == i + 1,
            ends.len() == out@.len(),
            out@.len() > 0 ==> ends[out@.len() - 1] == p,
            forall|items: Seq<Seq<char>>| #[trigger]
                holds_at(t@, i as int, string_array(items)) ==> (out@.len() <= items.len()
                    && string_views(out@) == items.subrange(0, out@.len() as int) && p == i + 1
                    + string_items(items.subrange(0, out@.len() as int)).len()),
        decreases t@.len() - p,
    {
        let ghost k = out@.len() as int;
        proof {
            assert forall|items: Seq<Seq<char>>| #[trigger] holds_at(t@, i as int, string_array(items)) implies
                (k < items.len() ==> holds_at(t@, p as int, separator(k) + quoted(items[k])) && p < t@.len() && !is_ws(t@[p as int]) && t@[p as int] != ']' && (k > 0 ==> t@[p as int] == ',') && (k == 0 ==> t@[p as int] == '"'))
                && (k == items.len() ==> p < t@.len() && t@[p as int] == ']') by {
                lemma_array_at(t@, i as int, items, k);
                let pi = p as int;
                if k < items.len() {
                    lemma_holds_split(t@, pi, separator(k), quoted(items[k]));
                    if k > 0 {
                        assert(t@[pi] == t@.subrange(pi, pi + 1)[0]);
                    } else {
                        assert(separator(k) + quoted(items[k]) =~= quoted(items[k]));
                        assert(t@[pi] == t@.subrange(pi, pi + quoted(items[k]).len())[0]);
                    }
                } else {
                    assert(t@[pi] == t@.subrange(pi, pi + 1)[0]);
                }
            }
        }
        let q = skip_ws(t, p);
        if q >= t.len() {
            return None;
        }
        if t[q] == ']' {
            proof {
                assert forall|items: Seq<Seq<char>>| #[trigger] holds_at(t@, i as int, string_array(items)) implies
                    string_views(out@) == items && q + 1 == i + string_array(items).len() by {
                    assert(items.subrange(0, k) =~= items);
                }
                if out@.len() > 0 {
                    reveal(items_layout);
                }
                lemma_items_trailing_ws(t@, i + 1, p as int, q as int, string_views(out@), starts, ends, commas);
                assert(t@[q as int] == ']');
                assert(items_layout(t@, i + 1, (q + 1) - 1, string_views(out@), starts, ends, commas));
            }
            return Some((out, q + 1));
        }
        let mut s = q;
        if out.len() > 0 {
            if t[q] != ',' {
                return None;
            }
            s = skip_ws(t, q + 1);
        }

        proof {
            assert forall|items: Seq<Seq<char>>| #[trigger] holds_at(t@, i as int, string_array(items)) implies
                k < items.len() && s == p + separator(k).len() && holds_at(t@, s as int, quoted(items[k])) by {
                lemma_holds_split(t@, p as int, separator(k), quoted(items[k]));
                if k > 0 {
                    assert(q == p);
                    assert(t@[p + 1] == quoted(items[k])[0]);
                }
            }
        }
        match parse_string(t, s) {
            Some((item, j)) => {
                let ghost before = out@;
                let ghost item_view = item@;
                out.push(item);
                proof {
                    lemma_items_push(t@, i + 1, p as int, q as int, s as int, j as int, string_views(before), starts, ends, commas, item_view);
                    assert(string_views(out@) =~= string_views(before).push(item_view));
                    starts = starts.push(s as int);
                    ends = ends.push(j as int);
                    commas = commas.push(q as int);
                    assert forall|items: Seq<Seq<char>>| #[trigger] holds_at(t@, i as int, string_array(items)) implies
                        (out@.len() <= items.len()
                        && string_views(out@) == items.subrange(0, out@.len() as int) && j == i + 1
                        + string_items(items.subrange(0, out@.len() as int)).len()) by {
                        lemma_items_step(items, k);
                        assert(string_views(out@) =~= items.subrange(0, k + 1));
                        assert(j == s + quoted(items[k]).len());
                    }
                }
                p = j;
            },
            None => {
                return None;
            },
        }
    }
}

/// Whether `s` is one JSON value, as serde_json reads it.
pub uninterp spec fn json_text(s: Seq<char>) -> bool;

/// Relies on `serde_json::from_str` into a `serde_json::Value`: it succeeds
/// exactly on the texts that are one JSON value, whitespace around allowed.
#[verifier::external_body]
fn is_json_text(s: &str) -> (r: bool)
    ensures
        r == json_text(s@),
{
    serde_json::from_str::<serde_json::Value>(s).is_ok()
}

/// The characters of `t` from `a` up to `b`, as a string.
fn chars_between(t: &Vec<char>, a: usize, b: usize) -> (r: String)
    requires
        a <= b <= t@.len(),
    ensures
        r@ == t@.subrange(a as int, b as int),
{
    let mut out = String::new();
    let mut k = a;
    while k < b
        invariant
            a <= k <= b <= t@.len(),
            out@ == t@.subrange(a as int, k as int),
        decreases b - k,
    {
        push_char(&mut out, t[k]);
        assert(out@ =~= t@.subrange(a as int, k + 1));
        k = k + 1;
    }
    out
}

/// Where the JSON value that starts at `i` ends, found by its first
/// character: a string ends after its closing quote, an array or object
/// after its matching bracket, any other value before the next comma,
/// closing bracket or whitespace. Whether the text found is a value is not
/// checked here.
fn value_extent(t: &Vec<char>, i: usize) -> (r: Option<usize>)
    requires
        i <= t@.len(),
    ensures
        r matches Some(j) ==> i < j <= t@.len(),
{
    let n = t.len();
    if i >= n {
        return None;
    }
    let c = t[i];
    if c == '"' {
        match parse_string(t, i) {
            Some((_, j)) => Some(j),
            None => None,
        }
    } else if c == '[' || c == '{' {
        let mut k = i;
        let mut depth: usize = 0;
        while k < n
            invariant
                n == t@.len(),
                i <= k <= n,
                depth <= k - i,
            decreases n - k,
        {
            let d = t[k];
            if d == '"' {
                match parse_string(t, k) {
                    Some((_, j)) => {
                        k = j;
                    },
                    None => {
                        return None;
                    },
                }
            } else {
                if d == '[' || d == '{' {
                    depth = depth + 1;
                } else if d == ']' || d == '}' {
                    if depth <= 1 {
                        return Some(k + 1);
                    }
                    depth = depth - 1;
                }
                k = k + 1;
            }
        }
        None
    } else {
        let mut k = i;
        while k < n && t[k] != ',' && t[k] != '}' && t[k] != ']' && t[k] != ' ' && t[k] != '\t'
            && t[k] != '\n' && t[k] != '\r'
            invariant
                n == t@.len(),
                i <= k <= n,
            decreases n - k,
        {
            k = k + 1;
        }
        if k == i {
            None
        } else {
            Some(k)
        }
    }
}

/// Finds the JSON value that starts at `i` and checks it: the position after
/// it, where the text from `i` up to there is one JSON value.
pub fn skip_value(t: &Vec<char>, i: usize) -> (r: Option<usize>)
    requires
        i <= t@.len(),
    ensures
        r matches Some(j) ==> i < j <= t@.len() && json_text(t@.subrange(i as int, j as int)),
{
    match value_extent(t, i) {
        Some(j) => {
            let text = chars_between(t, i, j);
            if is_json_text(text.as_str()) {
                Some(j)
            } else {
                None
            }
        },
        None => None,
    }
}

} // verus!
