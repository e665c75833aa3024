//! A recursively-defined value type for semi-structured data, with a
//! canonical text-based object-notation serialization.
//!
//! The notation is the classic brace-and-bracket object notation: `null`,
//! `true`/`false`, decimal number literals, double-quoted strings (with the
//! usual backslash escapes, four-hex-digit escapes included), comma-separated
//! sequences in `[...]`, and comma-separated `"key":value` members in
//! `{...}`.  The canonical serialization escapes quotes, backslashes and
//! control characters, so every string is representable.

use vstd::prelude::*;

use crate::Error;

verus! {

/// A semi-structured value.  Numbers are kept as their decimal literal text,
/// so a value survives a parse/serialize cycle without loss.
#[derive(Debug, PartialEq, Eq)]
pub enum Json {
    Null,
    Bool(bool),
    /// A number, held as its decimal literal (e.g. `0.5`, `-3e7`).
    Num(Vec<char>),
    Str(Vec<char>),
    Arr(Vec<Json>),
    Obj(Vec<(Vec<char>, Json)>),
}

/// The mathematical model of a `Json` value.
pub enum JVal {
    Null,
    Bool(bool),
    Num(Seq<char>),
    Str(Seq<char>),
    Arr(Seq<JVal>),
    Obj(Seq<(Seq<char>, JVal)>),
}

impl View for Json {
    type V = JVal;

    open spec fn view(&self) -> JVal
        decreases self, 0int,
    {
        match self {
            Json::Null => JVal::Null,
            Json::Bool(b) => JVal::Bool(*b),
            Json::Num(t) => JVal::Num(t@),
            Json::Str(t) => JVal::Str(t@),
            Json::Arr(items) => JVal::Arr(view_elems(items@)),
            Json::Obj(members) => JVal::Obj(view_members(members@)),
        }
    }
}

/// The models of a sequence of values, element by element.
pub open spec fn view_elems(s: Seq<Json>) -> Seq<JVal>
    decreases s, 1int,
{
    if s.len() == 0 {
        Seq::empty()
    } else {
        view_elems(s.drop_last()).push(s.last()@)
    }
}

/// The models of a sequence of members, member by member.
pub open spec fn view_members(s: Seq<(Vec<char>, Json)>) -> Seq<(Seq<char>, JVal)>
    decreases s, 1int,
{
    if s.len() == 0 {
        Seq::empty()
    } else {
        view_members(s.drop_last()).push((s.last().0@, s.last().1@))
    }
}

/// `view_elems` maps the sequence index by index.
pub proof fn lemma_view_elems(s: Seq<Json>)
    ensures
        view_elems(s).len() == s.len(),
        forall|k: int| 0 <= k < s.len() ==> view_elems(s)[k] == #[trigger] s[k]@,
    decreases s.len(),
{
    if s.len() > 0 {
        lemma_view_elems(s.drop_last());
        assert(view_elems(s) == view_elems(s.drop_last()).push(s.last()@));
        assert forall|k: int| 0 <= k < s.len() implies view_elems(s)[k] == #[trigger] s[k]@ by {
            if k < s.len() - 1 {
                assert(s.drop_last()[k] == s[k]);
                assert(view_elems(s.drop_last())[k] == s.drop_last()[k]@);
                assert(view_elems(s)[k] == view_elems(s.drop_last())[k]);
            } else {
                assert(s.last() == s[k]);
                assert(view_elems(s)[k] == s.last()@);
            }
        }
    }
}

/// A value and its model are the same kind of value.
pub proof fn lemma_view_variant(x: Json)
    ensures
        (x@ is Null) <==> (x is Null),
        (x@ is Bool) <==> (x is Bool),
        (x@ is Num) <==> (x is Num),
        (x@ is Str) <==> (x is Str),
        (x@ is Arr) <==> (x is Arr),
        (x@ is Obj) <==> (x is Obj),
{
    match x {
        Json::Null => {},
        Json::Bool(_) => {},
        Json::Num(_) => {},
        Json::Str(_) => {},
        Json::Arr(_) => {},
        Json::Obj(_) => {},
    }
}

/// `view_members` maps the sequence index by index.
pub proof fn lemma_view_members(s: Seq<(Vec<char>, Json)>)
    ensures
        view_members(s).len() == s.len(),
        forall|k: int| 0 <= k < s.len() ==> view_members(s)[k] == (#[trigger] s[k].0@, s[k].1@),
    decreases s.len(),
{
    if s.len() > 0 {
        lemma_view_members(s.drop_last());
        assert(view_members(s) == view_members(s.drop_last()).push((s.last().0@, s.last().1@)));
        assert forall|k: int| 0 <= k < s.len() implies view_members(s)[k] == (
        #[trigger] s[k].0@,
        s[k].1@,
        ) by {
            if k < s.len() - 1 {
                assert(s.drop_last()[k] == s[k]);
                assert(view_members(s.drop_last())[k] == (s.drop_last()[k].0@, s.drop_last()[k].1@));
                assert(view_members(s)[k] == view_members(s.drop_last())[k]);
            } else {
                assert(s.last() == s[k]);
                assert(view_members(s)[k] == (s.last().0@, s.last().1@));
            }
        }
    }
}

/// The sixteen lowercase hexadecimal digit characters.
pub open spec fn hx(n: int) -> char {
    if n == 0 { '0' } else if n == 1 { '1' } else if n == 2 { '2' } else if n == 3 { '3' }
    else if n == 4 { '4' } else if n == 5 { '5' } else if n == 6 { '6' } else if n == 7 { '7' }
    else if n == 8 { '8' } else if n == 9 { '9' } else if n == 10 { 'a' } else if n == 11 { 'b' }
    else if n == 12 { 'c' } else if n == 13 { 'd' } else if n == 14 { 'e' } else { 'f' }
}

/// The value of a hexadecimal digit character, either case; -1 otherwise.
pub open spec fn hv(c: char) -> int {
    if c == '0' { 0 } else if c == '1' { 1 } else if c == '2' { 2 } else if c == '3' { 3 }
    else if c == '4' { 4 } else if c == '5' { 5 } else if c == '6' { 6 } else if c == '7' { 7 }
    else if c == '8' { 8 } else if c == '9' { 9 }
    else if c == 'a' || c == 'A' { 10 } else if c == 'b' || c == 'B' { 11 }
    else if c == 'c' || c == 'C' { 12 } else if c == 'd' || c == 'D' { 13 }
    else if c == 'e' || c == 'E' { 14 } else if c == 'f' || c == 'F' { 15 } else { -1 }
}

/// The code point of a character.
pub open spec fn code_of(c: char) -> int {
    (c as u32) as int
}

/// The character with the given code point.
pub open spec fn char_of(n: int) -> char {
    choose|c: char| #[trigger] code_of(c) == n
}

/// Two characters with one code point are one character.
proof fn lemma_char_inj(c1: char, c2: char)
    requires
        c1 as u32 == c2 as u32,
    ensures
        c1 == c2,
{
}

/// One character of a serialized string body: quotes and backslashes take a
/// backslash escape, control characters a four-hex-digit escape, every
/// other character stands for itself.
pub open spec fn esc1(c: char) -> Seq<char> {
    if c == '"' {
        seq!['\\', '"']
    } else if c == '\\' {
        seq!['\\', '\\']
    } else if (c as u32) < 0x20 {
        seq!['\\', 'u', '0', '0', hx((c as u32) as int / 16), hx((c as u32) as int % 16)]
    } else {
        seq![c]
    }
}

/// The serialized body of a string: each character escaped in order.
pub open spec fn esc(t: Seq<char>) -> Seq<char>
    decreases t.len(),
{
    if t.len() == 0 {
        Seq::empty()
    } else {
        esc(t.drop_last()) + esc1(t.last())
    }
}

/// The canonical serialization of a value.
pub open spec fn jser(m: JVal) -> Seq<char>
    decreases m, 0int, 0int,
{
    match m {
        JVal::Null => seq!['n', 'u', 'l', 'l'],
        JVal::Bool(b) => if b {
            seq!['t', 'r', 'u', 'e']
        } else {
            seq!['f', 'a', 'l', 's', 'e']
        },
        JVal::Num(t) => t,
        JVal::Str(t) => seq!['"'] + esc(t) + seq!['"'],
        JVal::Arr(es) => seq!['['] + jser_elems(es) + seq![']'],
        JVal::Obj(ms) => seq!['{'] + jser_members(ms) + seq!['}'],
    }
}

/// The serialized, comma-separated elements of a sequence.
pub open spec fn jser_elems(es: Seq<JVal>) -> Seq<char>
    decreases es, 1int, es.len(),
{
    if es.len() == 0 {
        Seq::empty()
    } else if es.len() == 1 {
        jser(es[0])
    } else {
        jser(es[0]) + seq![','] + jser_elems(es.subrange(1, es.len() as int))
    }
}

/// The serialized, comma-separated members of a mapping.
pub open spec fn jser_members(ms: Seq<(Seq<char>, JVal)>) -> Seq<char>
    decreases ms, 1int, ms.len(),
{
    if ms.len() == 0 {
        Seq::empty()
    } else if ms.len() == 1 {
        jser_member(ms[0])
    } else {
        jser_member(ms[0]) + seq![','] + jser_members(ms.subrange(1, ms.len() as int))
    }
}

/// One serialized `"key":value` member.
pub open spec fn jser_member(m: (Seq<char>, JVal)) -> Seq<char>
    decreases m, 0int, 0int,
{
    seq!['"'] + esc(m.0) + seq!['"', ':'] + jser(m.1)
}

} // verus!

verus! {

/// Whitespace of the notation.
pub open spec fn is_ws(c: char) -> bool {
    c == ' ' || c == '\t' || c == '\n' || c == '\r'
}

/// A decimal digit.
pub open spec fn is_digit(c: char) -> bool {
    '0' <= c && c <= '9'
}

/// The first position at or after `i` holding no digit.
pub open spec fn scan_digits(s: Seq<char>, i: int) -> int
    decreases s.len() - i,
{
    if 0 <= i < s.len() && is_digit(s[i]) {
        scan_digits(s, i + 1)
    } else {
        i
    }
}

/// The end of an optional fraction part starting at `i`, if well-formed.
pub open spec fn scan_frac(s: Seq<char>, i: int) -> Option<int> {
    if i < s.len() && s[i] == '.' {
        if i + 1 < s.len() && is_digit(s[i + 1]) {
            Some(scan_digits(s, i + 1))
        } else {
            None
        }
    } else {
        Some(i)
    }
}

/// The end of an optional exponent part starting at `i`, if well-formed.
pub open spec fn scan_exp(s: Seq<char>, i: int) -> Option<int> {
    if i < s.len() && (s[i] == 'e' || s[i] == 'E') {
        let j = if i + 1 < s.len() && (s[i + 1] == '+' || s[i + 1] == '-') {
            i + 2
        } else {
            i + 1
        };
        if j < s.len() && is_digit(s[j]) {
            Some(scan_digits(s, j))
        } else {
            None
        }
    } else {
        Some(i)
    }
}

/// The end of a number literal starting at `i`, if one starts there:
/// an optional minus sign, an integer part without a superfluous leading
/// zero, an optional fraction, an optional exponent.
pub open spec fn scan_number(s: Seq<char>, i: int) -> Option<int> {
    let j0 = if i < s.len() && s[i] == '-' {
        i + 1
    } else {
        i
    };
    if j0 < s.len() && is_digit(s[j0]) {
        let j1 = if s[j0] == '0' {
            j0 + 1
        } else {
            scan_digits(s, j0)
        };
        match scan_frac(s, j1) {
            Option::None => Option::<int>::None,
            Option::Some(j2) => scan_exp(s, j2),
        }
    } else {
        None
    }
}

/// `t` is exactly one number literal.
pub open spec fn is_num_lit(t: Seq<char>) -> bool {
    scan_number(t, 0) == Some(t.len() as int)
}

/// The value can be serialized to valid canonical text: every number holds
/// a number literal.  Every string is representable, control characters
/// taking hex escapes.
pub open spec fn repr_ok(m: JVal) -> bool
    decreases m, 1int,
{
    match m {
        JVal::Null => true,
        JVal::Bool(_) => true,
        JVal::Num(t) => is_num_lit(t),
        JVal::Str(_) => true,
        JVal::Arr(es) => forall|k: int| 0 <= k < es.len() ==> repr_ok(#[trigger] es[k]),
        JVal::Obj(ms) => forall|k: int| 0 <= k < ms.len() ==> member_ok(#[trigger] ms[k]),
    }
}

/// One member the notation can represent: a representable value under any
/// key.
pub open spec fn member_ok(e: (Seq<char>, JVal)) -> bool
    decreases e, 0int,
{
    repr_ok(e.1)
}

} // verus!

verus! {

/// The lowercase hexadecimal digit character for a value below sixteen.
fn hx_char(n: u8) -> (r: char)
    requires
        n < 16,
    ensures
        r == hx(n as int),
{
    if n == 0 { '0' } else if n == 1 { '1' } else if n == 2 { '2' } else if n == 3 { '3' }
    else if n == 4 { '4' } else if n == 5 { '5' } else if n == 6 { '6' } else if n == 7 { '7' }
    else if n == 8 { '8' } else if n == 9 { '9' } else if n == 10 { 'a' } else if n == 11 { 'b' }
    else if n == 12 { 'c' } else if n == 13 { 'd' } else if n == 14 { 'e' } else { 'f' }
}

/// The value of a hexadecimal digit character, if it is one.
fn hex_digit(c: char) -> (r: Option<u8>)
    ensures
        match r {
            Option::Some(n) => n < 16 && hv(c) == n as int,
            Option::None => hv(c) < 0,
        },
{
    if c == '0' { Some(0) } else if c == '1' { Some(1) } else if c == '2' { Some(2) }
    else if c == '3' { Some(3) } else if c == '4' { Some(4) } else if c == '5' { Some(5) }
    else if c == '6' { Some(6) } else if c == '7' { Some(7) } else if c == '8' { Some(8) }
    else if c == '9' { Some(9) } else if c == 'a' || c == 'A' { Some(10) }
    else if c == 'b' || c == 'B' { Some(11) } else if c == 'c' || c == 'C' { Some(12) }
    else if c == 'd' || c == 'D' { Some(13) } else if c == 'e' || c == 'E' { Some(14) }
    else if c == 'f' || c == 'F' { Some(15) } else { None }
}

/// Relies on char::from_u32: it returns a character exactly for code
/// points that are not surrogates and not above the maximum scalar value,
/// and the returned character has exactly the given code.
#[verifier::external_body]
fn char_from_code(n: u32) -> (r: Option<char>)
    ensures
        r matches Some(c) ==> code_of(c) == n as int,
        (n < 0xD800 || (0xE000 <= n && n <= 0x10FFFF)) <==> r is Some,
{
    char::from_u32(n)
}

/// Appends every character of `t` to `out`.
fn push_all(t: &Vec<char>, out: &mut Vec<char>)
    ensures
        final(out)@ == old(out)@ + t@,
{
    let mut i: usize = 0;
    proof {
        assert(out@ =~= old(out)@ + t@.subrange(0, 0));
    }
    while i < t.len()
        invariant
            i <= t@.len(),
            out@ == old(out)@ + t@.subrange(0, i as int),
        decreases t@.len() - i,
    {
        out.push(t[i]);
        proof {
            assert(out@ =~= old(out)@ + t@.subrange(0, i + 1));
        }
        i = i + 1;
    }
    proof {
        assert(t@.subrange(0, t@.len() as int) =~= t@);
    }
}

/// Appends the escaped body of string `t` to `out`.
fn push_esc(t: &Vec<char>, out: &mut Vec<char>)
    ensures
        final(out)@ == old(out)@ + esc(t@),
{
    let mut i: usize = 0;
    proof {
        assert(out@ =~= old(out)@ + esc(t@.subrange(0, 0)));
    }
    while i < t.len()
        invariant
            i <= t@.len(),
            out@ == old(out)@ + esc(t@.subrange(0, i as int)),
        decreases t@.len() - i,
    {
        let c = t[i];
        if c == '"' {
            out.push('\\');
            out.push('"');
        } else if c == '\\' {
            out.push('\\');
            out.push('\\');
        } else if (c as u32) < 0x20 {
            let code = c as u32;
            out.push('\\');
            out.push('u');
            out.push('0');
            out.push('0');
            out.push(hx_char((code / 16) as u8));
            out.push(hx_char((code % 16) as u8));
        } else {
            out.push(c);
        }
        proof {
            let pre = t@.subrange(0, i as int);
            let cur = t@.subrange(0, i + 1);
            assert(cur.drop_last() =~= pre);
            assert(cur.last() == t@[i as int]);
            assert(esc(cur) == esc(pre) + esc1(t@[i as int]));
            assert(out@ =~= old(out)@ + esc(cur));
        }
        i = i + 1;
    }
    proof {
        assert(t@.subrange(0, t@.len() as int) =~= t@);
    }
}

/// Appends the canonical serialization of `v` to `out`.
pub fn ser_into(v: &Json, out: &mut Vec<char>)
    ensures
        final(out)@ == old(out)@ + jser(v@),
    decreases v, 0int, 0int,
{
    match v {
        Json::Null => {
            out.push('n');
            out.push('u');
            out.push('l');
            out.push('l');
            proof {
                assert(out@ =~= old(out)@ + jser(v@));
            }
        },
        Json::Bool(b) => {
            if *b {
                out.push('t');
                out.push('r');
                out.push('u');
                out.push('e');
            } else {
                out.push('f');
                out.push('a');
                out.push('l');
                out.push('s');
                out.push('e');
            }
            proof {
                assert(out@ =~= old(out)@ + jser(v@));
            }
        },
        Json::Num(t) => {
            push_all(t, out);
        },
        Json::Str(t) => {
            out.push('"');
            push_esc(t, out);
            out.push('"');
            proof {
                assert(out@ =~= old(out)@ + jser(v@));
            }
        },
        Json::Arr(items) => {
            out.push('[');
            if items.len() > 0 {
                ser_elems(items, 0, out);
            }
            out.push(']');
            proof {
                lemma_view_elems(items@);
                if items@.len() > 0 {
                    assert(view_elems(items@).subrange(0, items@.len() as int) =~= view_elems(
                        items@,
                    ));
                }
                assert(out@ =~= old(out)@ + jser(v@));
            }
        },
        Json::Obj(members) => {
            out.push('{');
            if members.len() > 0 {
                ser_members(members, 0, out);
            }
            out.push('}');
            proof {
                lemma_view_members(members@);
                if members@.len() > 0 {
                    assert(view_members(members@).subrange(0, members@.len() as int)
                        =~= view_members(members@));
                }
                assert(out@ =~= old(out)@ + jser(v@));
            }
        },
    }
}

/// Appends the serialized elements of `items` from position `from` on,
/// separated by commas.
fn ser_elems(items: &Vec<Json>, from: usize, out: &mut Vec<char>)
    requires
        from < items@.len(),
    ensures
        final(out)@ == old(out)@ + jser_elems(
            view_elems(items@).subrange(from as int, items@.len() as int),
        ),
    decreases items, 1int, items@.len() - from,
{
    proof {
        lemma_view_elems(items@);
    }
    let n = items.len();
    ser_into(&items[from], out);
    let ghost tail = view_elems(items@).subrange(from as int, items@.len() as int);
    if from + 1 < n {
        out.push(',');
        ser_elems(items, from + 1, out);
        proof {
            assert(tail.subrange(1, tail.len() as int) =~= view_elems(items@).subrange(
                from + 1,
                items@.len() as int,
            ));
            assert(tail[0] == items@[from as int]@);
            assert(jser_elems(tail) == jser(tail[0]) + seq![','] + jser_elems(
                tail.subrange(1, tail.len() as int),
            ));
            assert(out@ =~= old(out)@ + jser_elems(tail));
        }
    } else {
        proof {
            assert(tail.len() == 1);
            assert(tail[0] == items@[from as int]@);
            assert(jser_elems(tail) == jser(tail[0]));
            assert(out@ =~= old(out)@ + jser_elems(tail));
        }
    }
}

/// Appends the serialized members of `members` from position `from` on,
/// separated by commas.
fn ser_members(members: &Vec<(Vec<char>, Json)>, from: usize, out: &mut Vec<char>)
    requires
        from < members@.len(),
    ensures
        final(out)@ == old(out)@ + jser_members(
            view_members(members@).subrange(from as int, members@.len() as int),
        ),
    decreases members, 1int, members@.len() - from,
{
    let n = members.len();
    proof {
        lemma_view_members(members@);
    }
    out.push('"');
    push_esc(&members[from].0, out);
    out.push('"');
    out.push(':');
    ser_into(&members[from].1, out);
    let ghost tail = view_members(members@).subrange(from as int, members@.len() as int);
    proof {
        assert(tail[0] == (members@[from as int].0@, members@[from as int].1@));
        assert(jser_member(tail[0]) == seq!['"'] + esc(members@[from as int].0@) + seq!['"', ':']
            + jser(members@[from as int].1@));
    }
    if from + 1 < n {
        out.push(',');
        ser_members(members, from + 1, out);
        proof {
            assert(tail.subrange(1, tail.len() as int) =~= view_members(members@).subrange(
                from + 1,
                members@.len() as int,
            ));
            assert(jser_members(tail) == jser_member(tail[0]) + seq![','] + jser_members(
                tail.subrange(1, tail.len() as int),
            ));
            assert(out@ =~= old(out)@ + jser_members(tail));
        }
    } else {
        proof {
            assert(tail.len() == 1);
            assert(jser_members(tail) == jser_member(tail[0]));
            assert(out@ =~= old(out)@ + jser_members(tail));
        }
    }
}

/// The canonical serialization of `v`, as text.
pub fn to_text(v: &Json) -> (out: Vec<char>)
    ensures
        out@ == jser(v@),
{
    let mut out: Vec<char> = Vec::new();
    ser_into(v, &mut out);
    proof {
        assert(out@ =~= jser(v@));
    }
    out
}

} // verus!

verus! {

/// The first position at or after `i` holding no whitespace.
pub open spec fn skip_ws(s: Seq<char>, i: int) -> int
    decreases s.len() - i,
{
    if 0 <= i < s.len() && is_ws(s[i]) {
        skip_ws(s, i + 1)
    } else {
        i
    }
}

/// What a backslash escape in a string stands for, if it is one.
pub open spec fn unescape1(c: char) -> Option<char> {
    if c == '"' {
        Some('"')
    } else if c == '\\' {
        Some('\\')
    } else if c == '/' {
        Some('/')
    } else if c == 'b' {
        Some('\u{0008}')
    } else if c == 'f' {
        Some('\u{000C}')
    } else if c == 'n' {
        Some('\n')
    } else if c == 'r' {
        Some('\r')
    } else if c == 't' {
        Some('\t')
    } else {
        None
    }
}

/// Parses a string body starting at `i` (just after the opening quote):
/// the decoded content and the position after the closing quote.
pub open spec fn scan_string(s: Seq<char>, i: int) -> Option<(Seq<char>, int)>
    decreases s.len() - i,
{
    if 0 <= i < s.len() {
        let c = s[i];
        if c == '"' {
            Some((Seq::empty(), i + 1))
        } else if c == '\\' {
            if i + 1 < s.len() && s[i + 1] == 'u' {
                if i + 6 <= s.len() && hv(s[i + 2]) >= 0 && hv(s[i + 3]) >= 0 && hv(s[i + 4]) >= 0
                    && hv(s[i + 5]) >= 0 {
                    let code = hv(s[i + 2]) * 4096 + hv(s[i + 3]) * 256 + hv(s[i + 4]) * 16 + hv(
                        s[i + 5],
                    );
                    if 0xD800 <= code < 0xE000 {
                        None
                    } else {
                        match scan_string(s, i + 6) {
                            Option::None => Option::<(Seq<char>, int)>::None,
                            Option::Some(te) => Some((seq![char_of(code)] + te.0, te.1)),
                        }
                    }
                } else {
                    None
                }
            } else if i + 1 < s.len() {
                match unescape1(s[i + 1]) {
                    Option::None => Option::<(Seq<char>, int)>::None,
                    Option::Some(d) => match scan_string(s, i + 2) {
                        Option::None => Option::<(Seq<char>, int)>::None,
                        Option::Some(te) => Some((seq![d] + te.0, te.1)),
                    },
                }
            } else {
                None
            }
        } else if (c as u32) < 0x20 {
            None
        } else {
            match scan_string(s, i + 1) {
                Option::None => Option::<(Seq<char>, int)>::None,
                Option::Some(te) => Some((seq![c] + te.0, te.1)),
            }
        }
    } else {
        None
    }
}

/// Parses one value starting exactly at `i`: the value and the position
/// just after it.
pub open spec fn sparse_value(s: Seq<char>, i: int) -> Option<(JVal, int)>
    decreases s.len() - i, 0int,
{
    if 0 <= i < s.len() {
        let c = s[i];
        if c == 'n' {
            if i + 4 <= s.len() && s[i + 1] == 'u' && s[i + 2] == 'l' && s[i + 3] == 'l' {
                Some((JVal::Null, i + 4))
            } else {
                None
            }
        } else if c == 't' {
            if i + 4 <= s.len() && s[i + 1] == 'r' && s[i + 2] == 'u' && s[i + 3] == 'e' {
                Some((JVal::Bool(true), i + 4))
            } else {
                None
            }
        } else if c == 'f' {
            if i + 5 <= s.len() && s[i + 1] == 'a' && s[i + 2] == 'l' && s[i + 3] == 's' && s[i + 4]
                == 'e' {
                Some((JVal::Bool(false), i + 5))
            } else {
                None
            }
        } else if c == '"' {
            match scan_string(s, i + 1) {
                Option::None => Option::<(JVal, int)>::None,
                Option::Some(te) => Some((JVal::Str(te.0), te.1)),
            }
        } else if c == '-' || is_digit(c) {
            match scan_number(s, i) {
                Option::None => Option::<(JVal, int)>::None,
                Option::Some(j) => Some((JVal::Num(s.subrange(i, j)), j)),
            }
        } else if c == '[' {
            let j = skip_ws(s, i + 1);
            if j < s.len() && s[j] == ']' {
                Some((JVal::Arr(Seq::empty()), j + 1))
            } else if i < j && j <= s.len() {
                match sparse_elems(s, j) {
                    Option::None => Option::<(JVal, int)>::None,
                    Option::Some(ese) => Some((JVal::Arr(ese.0), ese.1)),
                }
            } else {
                None
            }
        } else if c == '{' {
            let j = skip_ws(s, i + 1);
            if j < s.len() && s[j] == '}' {
                Some((JVal::Obj(Seq::empty()), j + 1))
            } else if i < j && j <= s.len() {
                match sparse_members(s, j) {
                    Option::None => Option::<(JVal, int)>::None,
                    Option::Some(mse) => Some((JVal::Obj(mse.0), mse.1)),
                }
            } else {
                None
            }
        } else {
            None
        }
    } else {
        None
    }
}

/// Parses the elements of a non-empty sequence, the first starting exactly
/// at `i`, up to and including the closing bracket.
pub open spec fn sparse_elems(s: Seq<char>, i: int) -> Option<(Seq<JVal>, int)>
    decreases s.len() - i, 1int,
{
    match sparse_value(s, i) {
        Option::None => Option::<(Seq<JVal>, int)>::None,
        Option::Some(vj) => {
            let k = skip_ws(s, vj.1);
            if k < s.len() && s[k] == ']' {
                Some((seq![vj.0], k + 1))
            } else if k < s.len() && s[k] == ',' {
                let m = skip_ws(s, k + 1);
                if i < m && m <= s.len() {
                    match sparse_elems(s, m) {
                        Option::None => Option::<(Seq<JVal>, int)>::None,
                        Option::Some(ese) => Some((seq![vj.0] + ese.0, ese.1)),
                    }
                } else {
                    None
                }
            } else {
                None
            }
        },
    }
}

/// Parses the members of a non-empty mapping, the first key starting
/// exactly at `i`, up to and including the closing brace.
pub open spec fn sparse_members(s: Seq<char>, i: int) -> Option<(Seq<(Seq<char>, JVal)>, int)>
    decreases s.len() - i, 1int,
{
    if 0 <= i < s.len() && s[i] == '"' {
        match scan_string(s, i + 1) {
            Option::None => Option::<(Seq<(Seq<char>, JVal)>, int)>::None,
            Option::Some(ke) => {
                let k = skip_ws(s, ke.1);
                if k < s.len() && s[k] == ':' {
                    let m = skip_ws(s, k + 1);
                    if i < m && m <= s.len() {
                        match sparse_value(s, m) {
                            Option::None => Option::<(Seq<(Seq<char>, JVal)>, int)>::None,
                            Option::Some(vj) => {
                                let k2 = skip_ws(s, vj.1);
                                if k2 < s.len() && s[k2] == '}' {
                                    Some((seq![(ke.0, vj.0)], k2 + 1))
                                } else if k2 < s.len() && s[k2] == ',' {
                                    let m2 = skip_ws(s, k2 + 1);
                                    if i < m2 && m2 <= s.len() {
                                        match sparse_members(s, m2) {
                                            Option::None => Option::<
                                                (Seq<(Seq<char>, JVal)>, int),
                                            >::None,
                                            Option::Some(mse) => Some(
                                                (seq![(ke.0, vj.0)] + mse.0, mse.1),
                                            ),
                                        }
                                    } else {
                                        None
                                    }
                                } else {
                                    None
                                }
                            },
                        }
                    } else {
                        None
                    }
                } else {
                    None
                }
            },
        }
    } else {
        None
    }
}

/// Parses a whole document: one value, surrounded by whitespace only.
pub open spec fn sparse_doc(s: Seq<char>) -> Option<JVal> {
    let i = skip_ws(s, 0);
    if 0 <= i <= s.len() {
        match sparse_value(s, i) {
            Option::None => Option::<JVal>::None,
            Option::Some(vj) => if skip_ws(s, vj.1) == s.len() {
                Some(vj.0)
            } else {
                None
            },
        }
    } else {
        None
    }
}

} // verus!

verus! {

/// The first position at or after `i` holding no whitespace, executably.
fn ws_end(s: &Vec<char>, i: usize) -> (j: usize)
    requires
        i <= s@.len(),
    ensures
        j as int == skip_ws(s@, i as int),
        i <= j <= s@.len(),
{
    let mut j = i;
    while j < s.len() && (s[j] == ' ' || s[j] == '\t' || s[j] == '\n' || s[j] == '\r')
        invariant
            i <= j <= s@.len(),
            skip_ws(s@, i as int) == skip_ws(s@, j as int),
        decreases s@.len() - j,
    {
        j = j + 1;
    }
    j
}

/// The first position at or after `i` holding no digit, executably.
fn digits_end(s: &Vec<char>, i: usize) -> (j: usize)
    requires
        i <= s@.len(),
    ensures
        j as int == scan_digits(s@, i as int),
        i <= j <= s@.len(),
{
    let mut j = i;
    while j < s.len() && s[j] >= '0' && s[j] <= '9'
        invariant
            i <= j <= s@.len(),
            scan_digits(s@, i as int) == scan_digits(s@, j as int),
        decreases s@.len() - j,
    {
        j = j + 1;
    }
    j
}

/// The characters of `s` from `a` (inclusive) to `b` (exclusive).
fn copy_range(s: &Vec<char>, a: usize, b: usize) -> (t: Vec<char>)
    requires
        a <= b <= s@.len(),
    ensures
        t@ == s@.subrange(a as int, b as int),
{
    let mut t: Vec<char> = Vec::new();
    let mut k = a;
    proof {
        assert(t@ =~= s@.subrange(a as int, a as int));
    }
    while k < b
        invariant
            a <= k <= b <= s@.len(),
            t@ == s@.subrange(a as int, k as int),
        decreases b - k,
    {
        t.push(s[k]);
        proof {
            assert(t@ =~= s@.subrange(a as int, k + 1));
        }
        k = k + 1;
    }
    t
}

/// Decodes one escape character, executably.
fn esc_char(c: char) -> (r: Option<char>)
    ensures
        r == unescape1(c),
{
    if c == '"' {
        Some('"')
    } else if c == '\\' {
        Some('\\')
    } else if c == '/' {
        Some('/')
    } else if c == 'b' {
        Some('\u{0008}')
    } else if c == 'f' {
        Some('\u{000C}')
    } else if c == 'n' {
        Some('\n')
    } else if c == 'r' {
        Some('\r')
    } else if c == 't' {
        Some('\t')
    } else {
        None
    }
}

/// Parses a string body starting at `i`, just after the opening quote.
fn p_string(s: &Vec<char>, i: usize) -> (r: Result<(Vec<char>, usize), Error>)
    requires
        i <= s@.len(),
    ensures
        match r {
            Result::Ok(te) => scan_string(s@, i as int) == Some((te.0@, te.1 as int)) && i < te.1
                <= s@.len(),
            Result::Err(e) => scan_string(s@, i as int) is None && e is Parse,
        },
{
    let mut acc: Vec<char> = Vec::new();
    let mut j = i;
    proof {
        assert forall|t: Seq<char>, e: int|
            scan_string(s@, j as int) == Some((t, e)) implies scan_string(s@, i as int) == Some(
            (acc@ + t, e),
        ) by {
            assert(acc@ + t =~= t);
        }
    }
    loop
        invariant
            i <= j <= s@.len(),
            forall|t: Seq<char>, e: int|
                scan_string(s@, j as int) == Some((t, e)) ==> scan_string(s@, i as int) == Some(
                    (acc@ + t, e),
                ),
            scan_string(s@, j as int) is None ==> scan_string(s@, i as int) is None,
        decreases s@.len() - j,
    {
        if j >= s.len() {
            return Err(Error::Parse);
        }
        let c = s[j];
        if c == '"' {
            proof {
                assert(scan_string(s@, j as int) == Some((Seq::<char>::empty(), j + 1)));
                assert(acc@ + Seq::<char>::empty() =~= acc@);
            }
            return Ok((acc, j + 1));
        } else if c == '\\' {
            if j + 1 >= s.len() {
                return Err(Error::Parse);
            }
            if s[j + 1] == 'u' {
                let n = s.len();
                if n - j < 6 {
                    return Err(Error::Parse);
                }
                let h1 = hex_digit(s[j + 2]);
                let h2 = hex_digit(s[j + 3]);
                let h3 = hex_digit(s[j + 4]);
                let h4 = hex_digit(s[j + 5]);
                let (n1, n2, n3, n4) = match (h1, h2, h3, h4) {
                    (Option::Some(a), Option::Some(b), Option::Some(cc), Option::Some(dd)) => (
                        a,
                        b,
                        cc,
                        dd,
                    ),
                    _ => {
                        return Err(Error::Parse);
                    },
                };
                let code: u32 = (n1 as u32) * 4096 + (n2 as u32) * 256 + (n3 as u32) * 16 + (
                n4 as u32);
                if 0xD800 <= code && code < 0xE000 {
                    return Err(Error::Parse);
                }
                let ch = match char_from_code(code) {
                    Option::Some(ch) => ch,
                    Option::None => {
                        proof {
                            assert(false);
                        }
                        return Err(Error::Parse);
                    },
                };
                proof {
                    let ghost cd = code as int;
                    assert(code_of(ch) == cd);
                    assert(exists|cc: char| code_of(cc) == cd) by {
                        assert(code_of(ch) == cd);
                    }
                    assert(code_of(char_of(cd)) == cd);
                    assert(char_of(cd) as u32 == ch as u32);
                    lemma_char_inj(char_of(cd), ch);
                    assert(char_of(cd) == ch);
                    let ghost accv = acc@;
                    assert forall|t: Seq<char>, e: int|
                        scan_string(s@, j + 6) == Some((t, e)) implies scan_string(
                        s@,
                        i as int,
                    ) == Some((accv.push(ch) + t, e)) by {
                        assert(hv(s@[j + 2]) == n1 as int && hv(s@[j + 3]) == n2 as int && hv(
                            s@[j + 4],
                        ) == n3 as int && hv(s@[j + 5]) == n4 as int);
                        assert(scan_string(s@, j as int) == Some((seq![ch] + t, e)));
                        assert(accv + (seq![ch] + t) =~= accv.push(ch) + t);
                    }
                }
                acc.push(ch);
                j = j + 6;
                continue;
            }
            match esc_char(s[j + 1]) {
                Option::None => {
                    return Err(Error::Parse);
                },
                Option::Some(d) => {
                    proof {
                        let ghost accv = acc@;
                        assert forall|t: Seq<char>, e: int|
                            scan_string(s@, j + 2) == Some((t, e)) implies scan_string(
                            s@,
                            i as int,
                        ) == Some((accv.push(d) + t, e)) by {
                            assert(scan_string(s@, j as int) == Some((seq![d] + t, e)));
                            assert(accv + (seq![d] + t) =~= accv.push(d) + t);
                        }
                    }
                    acc.push(d);
                    j = j + 2;
                },
            }
        } else if (c as u32) < 0x20 {
            return Err(Error::Parse);
        } else {
            proof {
                let ghost accv = acc@;
                assert forall|t: Seq<char>, e: int| scan_string(s@, j + 1) == Some((t, e)) implies
                    scan_string(s@, i as int) == Some((accv.push(c) + t, e)) by {
                    assert(scan_string(s@, j as int) == Some((seq![c] + t, e)));
                    assert(accv + (seq![c] + t) =~= accv.push(c) + t);
                }
            }
            acc.push(c);
            j = j + 1;
        }
    }
}

/// Parses a number literal starting at `i`: its text and its end.
fn p_number(s: &Vec<char>, i: usize) -> (r: Result<(Vec<char>, usize), Error>)
    requires
        i <= s@.len(),
    ensures
        match r {
            Result::Ok(te) => scan_number(s@, i as int) == Some(te.1 as int) && te.0@
                == s@.subrange(i as int, te.1 as int) && i < te.1 <= s@.len(),
            Result::Err(e) => scan_number(s@, i as int) is None && e is Parse,
        },
{
    let j0 = if i < s.len() && s[i] == '-' {
        i + 1
    } else {
        i
    };
    if !(j0 < s.len() && s[j0] >= '0' && s[j0] <= '9') {
        return Err(Error::Parse);
    }
    let j1 = if s[j0] == '0' {
        j0 + 1
    } else {
        digits_end(s, j0 + 1)
    };
    proof {
        assert(scan_digits(s@, j0 as int) == scan_digits(s@, j0 + 1));
    }
    let j2 = if j1 < s.len() && s[j1] == '.' {
        if j1 + 1 < s.len() && s[j1 + 1] >= '0' && s[j1 + 1] <= '9' {
            digits_end(s, j1 + 1)
        } else {
            return Err(Error::Parse);
        }
    } else {
        j1
    };
    proof {
        assert(scan_frac(s@, j1 as int) == Some(j2 as int));
    }
    let j = if j2 < s.len() && (s[j2] == 'e' || s[j2] == 'E') {
        let j3 = if j2 + 1 < s.len() && (s[j2 + 1] == '+' || s[j2 + 1] == '-') {
            j2 + 2
        } else {
            j2 + 1
        };
        if j3 < s.len() && s[j3] >= '0' && s[j3] <= '9' {
            digits_end(s, j3)
        } else {
            return Err(Error::Parse);
        }
    } else {
        j2
    };
    proof {
        assert(scan_exp(s@, j2 as int) == Some(j as int));
        assert(scan_number(s@, i as int) == Some(j as int));
    }
    let t = copy_range(s, i, j);
    Ok((t, j))
}

} // verus!

verus! {

/// Parses one value starting exactly at `i`.
fn p_value(s: &Vec<char>, i: usize) -> (r: Result<(Json, usize), Error>)
    requires
        i <= s@.len(),
    ensures
        match r {
            Result::Ok(vj) => sparse_value(s@, i as int) == Some((vj.0@, vj.1 as int)) && i < vj.1
                <= s@.len(),
            Result::Err(e) => sparse_value(s@, i as int) is None && e is Parse,
        },
    decreases s@.len() - i, 0int,
{
    let n = s.len();
    if i >= n {
        return Err(Error::Parse);
    }
    let c = s[i];
    if c == 'n' {
        if n - i >= 4 && s[i + 1] == 'u' && s[i + 2] == 'l' && s[i + 3] == 'l' {
            Ok((Json::Null, i + 4))
        } else {
            Err(Error::Parse)
        }
    } else if c == 't' {
        if n - i >= 4 && s[i + 1] == 'r' && s[i + 2] == 'u' && s[i + 3] == 'e' {
            Ok((Json::Bool(true), i + 4))
        } else {
            Err(Error::Parse)
        }
    } else if c == 'f' {
        if n - i >= 5 && s[i + 1] == 'a' && s[i + 2] == 'l' && s[i + 3] == 's' && s[i + 4] == 'e' {
            Ok((Json::Bool(false), i + 5))
        } else {
            Err(Error::Parse)
        }
    } else if c == '"' {
        match p_string(s, i + 1) {
            Result::Ok(te) => Ok((Json::Str(te.0), te.1)),
            Result::Err(e) => Err(e),
        }
    } else if c == '-' || (c >= '0' && c <= '9') {
        match p_number(s, i) {
            Result::Ok(te) => Ok((Json::Num(te.0), te.1)),
            Result::Err(e) => Err(e),
        }
    } else if c == '[' {
        let j = ws_end(s, i + 1);
        if j < n && s[j] == ']' {
            let es: Vec<Json> = Vec::new();
            proof {
                assert(view_elems(es@) =~= Seq::<JVal>::empty());
            }
            Ok((Json::Arr(es), j + 1))
        } else {
            match p_elems(s, j) {
                Result::Ok(ej) => Ok((Json::Arr(ej.0), ej.1)),
                Result::Err(e) => Err(e),
            }
        }
    } else if c == '{' {
        let j = ws_end(s, i + 1);
        if j < n && s[j] == '}' {
            let ms: Vec<(Vec<char>, Json)> = Vec::new();
            proof {
                assert(view_members(ms@) =~= Seq::<(Seq<char>, JVal)>::empty());
            }
            Ok((Json::Obj(ms), j + 1))
        } else {
            match p_members(s, j) {
                Result::Ok(mj) => Ok((Json::Obj(mj.0), mj.1)),
                Result::Err(e) => Err(e),
            }
        }
    } else {
        Err(Error::Parse)
    }
}

/// Parses the elements of a non-empty sequence, the first starting exactly
/// at `i`, up to and including the closing bracket.
fn p_elems(s: &Vec<char>, i: usize) -> (r: Result<(Vec<Json>, usize), Error>)
    requires
        i <= s@.len(),
    ensures
        match r {
            Result::Ok(ej) => sparse_elems(s@, i as int) == Some((view_elems(ej.0@), ej.1 as int))
                && i < ej.1 <= s@.len(),
            Result::Err(e) => sparse_elems(s@, i as int) is None && e is Parse,
        },
    decreases s@.len() - i, 1int,
{
    let (v, j) = match p_value(s, i) {
        Result::Ok(vj) => vj,
        Result::Err(e) => {
            return Err(e);
        },
    };
    let k = ws_end(s, j);
    if k < s.len() && s[k] == ']' {
        let mut es: Vec<Json> = Vec::new();
        es.push(v);
        proof {
            lemma_view_elems(es@);
            assert(view_elems(es@) =~= seq![v@]);
        }
        Ok((es, k + 1))
    } else if k < s.len() && s[k] == ',' {
        let m = ws_end(s, k + 1);
        proof {
            assert(i < m && m <= s@.len());
        }
        match p_elems(s, m) {
            Result::Ok(ej) => {
                let (mut es, e) = ej;
                let ghost rest = es@;
                es.insert(0, v);
                proof {
                    assert(es@ == rest.insert(0, v));
                    rest.insert_ensures(0, v);
                    lemma_view_elems(es@);
                    lemma_view_elems(rest);
                    assert forall|q: int| 0 <= q < es@.len() implies view_elems(es@)[q] == (
                    seq![v@] + view_elems(rest))[q] by {
                        assert(view_elems(es@)[q] == es@[q]@);
                        if q == 0 {
                            assert(es@[0] == v);
                            assert((seq![v@] + view_elems(rest))[0] == v@);
                        } else {
                            assert(es@[q] == rest[q - 1]);
                            assert(view_elems(rest)[q - 1] == rest[q - 1]@);
                            assert((seq![v@] + view_elems(rest))[q] == view_elems(rest)[q - 1]);
                        }
                    }
                    assert(view_elems(es@) =~= seq![v@] + view_elems(rest));
                }
                Ok((es, e))
            },
            Result::Err(e) => Err(e),
        }
    } else {
        Err(Error::Parse)
    }
}

/// Parses the members of a non-empty mapping, the first key starting
/// exactly at `i`, up to and including the closing brace.
fn p_members(s: &Vec<char>, i: usize) -> (r: Result<(Vec<(Vec<char>, Json)>, usize), Error>)
    requires
        i <= s@.len(),
    ensures
        match r {
            Result::Ok(mj) => sparse_members(s@, i as int) == Some(
                (view_members(mj.0@), mj.1 as int),
            ) && i < mj.1 <= s@.len(),
            Result::Err(e) => sparse_members(s@, i as int) is None && e is Parse,
        },
    decreases s@.len() - i, 1int,
{
    if !(i < s.len() && s[i] == '"') {
        return Err(Error::Parse);
    }
    let (key, j) = match p_string(s, i + 1) {
        Result::Ok(te) => te,
        Result::Err(e) => {
            return Err(e);
        },
    };
    let k = ws_end(s, j);
    if !(k < s.len() && s[k] == ':') {
        return Err(Error::Parse);
    }
    let m = ws_end(s, k + 1);
    proof {
        assert(i < m && m <= s@.len());
    }
    let (v, j2) = match p_value(s, m) {
        Result::Ok(vj) => vj,
        Result::Err(e) => {
            return Err(e);
        },
    };
    let k2 = ws_end(s, j2);
    if k2 < s.len() && s[k2] == '}' {
        let mut ms: Vec<(Vec<char>, Json)> = Vec::new();
        ms.push((key, v));
        proof {
            lemma_view_members(ms@);
            assert(view_members(ms@) =~= seq![(key@, v@)]);
        }
        Ok((ms, k2 + 1))
    } else if k2 < s.len() && s[k2] == ',' {
        let m2 = ws_end(s, k2 + 1);
        proof {
            assert(i < m2 && m2 <= s@.len());
        }
        match p_members(s, m2) {
            Result::Ok(mj) => {
                let (mut ms, e) = mj;
                let ghost rest = ms@;
                ms.insert(0, (key, v));
                proof {
                    assert(ms@ == rest.insert(0, (key, v)));
                    rest.insert_ensures(0, (key, v));
                    lemma_view_members(ms@);
                    lemma_view_members(rest);
                    assert forall|q: int| 0 <= q < ms@.len() implies view_members(ms@)[q] == (
                    seq![(key@, v@)] + view_members(rest))[q] by {
                        assert(view_members(ms@)[q] == (ms@[q].0@, ms@[q].1@));
                        if q == 0 {
                            assert(ms@[0] == (key, v));
                            assert((seq![(key@, v@)] + view_members(rest))[0] == (key@, v@));
                        } else {
                            assert(ms@[q] == rest[q - 1]);
                            assert(view_members(rest)[q - 1] == (rest[q - 1].0@, rest[q - 1].1@));
                            assert((seq![(key@, v@)] + view_members(rest))[q] == view_members(
                                rest,
                            )[q - 1]);
                        }
                    }
                    assert(view_members(ms@) =~= seq![(key@, v@)] + view_members(rest));
                }
                Ok((ms, e))
            },
            Result::Err(e) => Err(e),
        }
    } else {
        Err(Error::Parse)
    }
}

/// Parses a whole document: one value surrounded by whitespace only.
/// Succeeds exactly where the grammar (`sparse_doc`) has a value, and
/// returns exactly that value.
pub fn parse_text(s: &Vec<char>) -> (r: Result<Json, Error>)
    ensures
        match r {
            Result::Ok(v) => sparse_doc(s@) == Some(v@),
            Result::Err(e) => sparse_doc(s@) is None && e is Parse,
        },
{
    let i = ws_end(s, 0);
    match p_value(s, i) {
        Result::Ok(vj) => {
            let (v, j) = vj;
            let k = ws_end(s, j);
            if k == s.len() {
                Ok(v)
            } else {
                Err(Error::Parse)
            }
        },
        Result::Err(_) => Err(Error::Parse),
    }
}

} // verus!

verus! {

/// Whether `t` is exactly one number literal, executably.
pub fn check_num_lit(t: &Vec<char>) -> (b: bool)
    ensures
        b == is_num_lit(t@),
{
    match p_number(t, 0) {
        Result::Ok(te) => te.1 == t.len(),
        Result::Err(_) => false,
    }
}

/// Whether every value can be represented in the canonical notation.
pub fn check_repr(v: &Json) -> (b: bool)
    ensures
        b == repr_ok(v@),
    decreases v, 0int, 0int,
{
    match v {
        Json::Null => {
            proof {
                assert(repr_ok(v@));
            }
            true
        },
        Json::Bool(_) => {
            proof {
                assert(repr_ok(v@));
            }
            true
        },
        Json::Num(t) => {
            let b = check_num_lit(t);
            proof {
                assert(v@ == JVal::Num(t@));
                assert(b == repr_ok(v@));
            }
            b
        },
        Json::Str(t) => {
            proof {
                assert(v@ == JVal::Str(t@));
                assert(repr_ok(v@));
            }
            true
        },
        Json::Arr(items) => {
            proof {
                lemma_view_elems(items@);
                assert(v@ == JVal::Arr(view_elems(items@)));
            }
            let b = check_repr_elems(items, 0);
            proof {
                let ghost es = view_elems(items@);
                assert(v@->Arr_0 == es);
                if b {
                    assert forall|k: int| 0 <= k < (v@->Arr_0).len() implies repr_ok(
                        #[trigger] (v@->Arr_0)[k],
                    ) by {
                        assert((v@->Arr_0)[k] == es[k]);
                        assert(repr_ok(view_elems(items@)[k]));
                    }
                    assert(repr_ok(v@));
                } else {
                    if repr_ok(v@) {
                        assert forall|x: int|
                            0 <= x < items@.len() implies repr_ok(
                            #[trigger] view_elems(items@)[x],
                        ) by {
                            assert((v@->Arr_0)[x] == es[x]);
                            assert(repr_ok((v@->Arr_0)[x]));
                        }
                        assert(false);
                    }
                }
                assert(b == repr_ok(v@));
            }
            b
        },
        Json::Obj(members) => {
            proof {
                lemma_view_members(members@);
                assert(v@ == JVal::Obj(view_members(members@)));
            }
            let b = check_repr_members(members, 0);
            proof {
                let ghost ms = view_members(members@);
                assert(v@->Obj_0 == ms);
                if b {
                    assert forall|k: int| 0 <= k < (v@->Obj_0).len() implies member_ok(
                        #[trigger] (v@->Obj_0)[k],
                    ) by {
                        assert((v@->Obj_0)[k] == ms[k]);
                        assert(member_ok(view_members(members@)[k]));
                    }
                    assert(repr_ok(v@));
                } else {
                    if repr_ok(v@) {
                        assert forall|x: int|
                            0 <= x < members@.len() implies member_ok(
                            #[trigger] view_members(members@)[x],
                        ) by {
                            assert((v@->Obj_0)[x] == ms[x]);
                            assert(member_ok((v@->Obj_0)[x]));
                        }
                        assert(false);
                    }
                }
                assert(b == repr_ok(v@));
            }
            b
        },
    }
}

/// Whether the elements from `from` on can all be represented.
fn check_repr_elems(items: &Vec<Json>, from: usize) -> (b: bool)
    ensures
        b == (forall|x: int|
            from <= x < items@.len() ==> repr_ok(#[trigger] view_elems(items@)[x])),
    decreases items, 2int, items@.len() - from,
{
    proof {
        lemma_view_elems(items@);
    }
    if from >= items.len() {
        true
    } else {
        let h = check_repr(&items[from]);
        proof {
            assert(view_elems(items@)[from as int] == items@[from as int]@);
        }
        if !h {
            false
        } else {
            check_repr_elems(items, from + 1)
        }
    }
}

/// Whether the members from `from` on can all be represented: every key
/// free of control characters, every value representable.
fn check_repr_members(members: &Vec<(Vec<char>, Json)>, from: usize) -> (b: bool)
    ensures
        b == (forall|x: int|
            from <= x < members@.len() ==> member_ok(#[trigger] view_members(members@)[x])),
    decreases members, 2int, members@.len() - from,
{
    proof {
        lemma_view_members(members@);
    }
    if from >= members.len() {
        true
    } else {
        let okv = check_repr(&members[from].1);
        proof {
            assert(view_members(members@)[from as int] == (
            members@[from as int].0@,
            members@[from as int].1@,
            ));
        }
        if !okv {
            proof {
                assert(!member_ok(view_members(members@)[from as int]));
            }
            false
        } else {
            let rest = check_repr_members(members, from + 1);
            proof {
                assert(member_ok(view_members(members@)[from as int]));
            }
            rest
        }
    }
}

} // verus!

verus! {

/// The escaped body decomposes at the front: first the first character's
/// escape, then the rest.
proof fn lemma_esc_front(t: Seq<char>)
    requires
        t.len() > 0,
    ensures
        esc(t) == esc1(t[0]) + esc(t.subrange(1, t.len() as int)),
    decreases t.len(),
{
    let t2 = t.subrange(1, t.len() as int);
    if t.len() == 1 {
        assert(t.drop_last() =~= Seq::<char>::empty());
        assert(t2 =~= Seq::<char>::empty());
        assert(esc(t) =~= esc1(t[0]) + esc(t2));
    } else {
        let dl = t.drop_last();
        lemma_esc_front(dl);
        assert(dl[0] == t[0]);
        assert(t2.drop_last() =~= dl.subrange(1, dl.len() as int));
        assert(t2.last() == t.last());
        assert(esc(t2) == esc(t2.drop_last()) + esc1(t2.last()));
        assert(esc(t) =~= esc1(t[0]) + esc(t2));
    }
}

/// Scanning the escaped body of a representable string, followed by the
/// closing quote, decodes exactly the string.
proof fn lemma_scan_esc(s: Seq<char>, i: int, t: Seq<char>)
    requires
        0 <= i,
        i + esc(t).len() + 1 <= s.len(),
        s.subrange(i, i + esc(t).len()) == esc(t),
        s[i + esc(t).len()] == '"',
    ensures
        scan_string(s, i) == Some((t, i + esc(t).len() + 1)),
    decreases t.len(),
{
    if t.len() == 0 {
        assert(esc(t) =~= Seq::<char>::empty());
        assert(s[i] == '"');
    } else {
        lemma_esc_front(t);
        let c = t[0];
        let t2 = t.subrange(1, t.len() as int);
        let e1 = esc1(c);
        let i2 = i + e1.len();
        assert forall|q: int| 0 <= q < e1.len() implies s[i + q] == e1[q] by {
            assert(s.subrange(i, i + esc(t).len())[q] == s[i + q]);
            assert((e1 + esc(t2))[q] == e1[q]);
        }
        assert(s.subrange(i2, i2 + esc(t2).len()) =~= esc(t2)) by {
            assert forall|q: int| 0 <= q < esc(t2).len() implies s.subrange(
                i2,
                i2 + esc(t2).len(),
            )[q] == esc(t2)[q] by {
                assert(s.subrange(i, i + esc(t).len())[e1.len() + q] == s[i2 + q]);
                assert((e1 + esc(t2))[e1.len() + q] == esc(t2)[q]);
            }
        }
        lemma_scan_esc(s, i2, t2);
        if c == '"' {
            assert(e1 == seq!['\\', '"']);
            assert(s[i + 0] == e1[0] && s[i + 1] == e1[1]);
            assert(s[i] == '\\' && s[i + 1] == '"');
            assert(unescape1(s[i + 1]) == Some('"'));
            assert(seq![c] + t2 =~= t);
        } else if c == '\\' {
            assert(e1 == seq!['\\', '\\']);
            assert(s[i + 0] == e1[0] && s[i + 1] == e1[1]);
            assert(s[i] == '\\' && s[i + 1] == '\\');
            assert(unescape1(s[i + 1]) == Some('\\'));
            assert(seq![c] + t2 =~= t);
        } else if (c as u32) < 0x20 {
            let cu = (c as u32) as int;
            let hi = cu / 16;
            let lo = cu % 16;
            assert(0 <= hi < 2 && 0 <= lo < 16 && 16 * hi + lo == cu);
            assert(e1 == seq!['\\', 'u', '0', '0', hx(hi), hx(lo)]);
            assert(s[i + 0] == e1[0] && s[i + 1] == e1[1] && s[i + 2] == e1[2] && s[i + 3] == e1[3]
                && s[i + 4] == e1[4] && s[i + 5] == e1[5]);
            assert(s[i] == '\\' && s[i + 1] == 'u');
            assert(hv(s[i + 2]) == 0 && hv(s[i + 3]) == 0);
            assert(hv(hx(hi)) == hi);
            assert(hv(hx(lo)) == lo);
            assert(hv(s[i + 2]) * 4096 + hv(s[i + 3]) * 256 + hv(s[i + 4]) * 16 + hv(s[i + 5])
                == cu);
            assert(code_of(c) == cu);
            assert(exists|cc: char| code_of(cc) == cu) by {
                assert(code_of(c) == cu);
            }
            assert(code_of(char_of(cu)) == cu);
            assert(char_of(cu) as u32 == c as u32);
            lemma_char_inj(char_of(cu), c);
            assert(char_of(cu) == c);
            assert(seq![c] + t2 =~= t);
        } else {
            assert(e1 == seq![c]);
            assert(s[i + 0] == e1[0]);
            assert(s[i] == c);
            assert(seq![c] + t2 =~= t);
        }
    }
}


} // verus!

verus! {

/// A character that could continue a number literal.
pub open spec fn num_cont(c: char) -> bool {
    is_digit(c) || c == '.' || c == 'e' || c == 'E' || c == '+' || c == '-'
}

/// Scanning digits inside an embedded slice equals scanning the slice,
/// provided no digit follows the slice.
proof fn lemma_scan_digits_embed(s: Seq<char>, i: int, t: Seq<char>, a: int)
    requires
        0 <= i,
        0 <= a <= t.len(),
        i + t.len() <= s.len(),
        s.subrange(i, i + t.len()) == t,
        i + t.len() == s.len() || !is_digit(s[i + t.len()]),
    ensures
        a <= scan_digits(t, a) <= t.len(),
        scan_digits(s, i + a) == i + scan_digits(t, a),
    decreases t.len() - a,
{
    if a < t.len() {
        assert(s.subrange(i, i + t.len())[a] == s[i + a]);
        assert(s[i + a] == t[a]);
        if is_digit(t[a]) {
            lemma_scan_digits_embed(s, i, t, a + 1);
        }
    }
}

/// Scanning a number at the start of an embedded literal ends exactly at
/// the literal's end, provided what follows could not continue a number.
proof fn lemma_scan_number_embed(s: Seq<char>, i: int, t: Seq<char>)
    requires
        0 <= i,
        is_num_lit(t),
        i + t.len() <= s.len(),
        s.subrange(i, i + t.len()) == t,
        i + t.len() == s.len() || !num_cont(s[i + t.len()]),
    ensures
        scan_number(s, i) == Some(i + t.len()),
{
    assert forall|x: int| 0 <= x < t.len() implies s[i + x] == t[x] by {
        assert(s.subrange(i, i + t.len())[x] == s[i + x]);
    }
    let j0t = if 0 < t.len() && t[0] == '-' {
        1int
    } else {
        0int
    };
    assert(j0t < t.len() && is_digit(t[j0t]));
    assert(s[i + 0] == t[0]);
    assert(s[i + j0t] == t[j0t]);
    let j1t = if t[j0t] == '0' {
        j0t + 1
    } else {
        scan_digits(t, j0t)
    };
    lemma_scan_digits_embed(s, i, t, j0t);
    assert(j1t <= t.len());
    let j2t = choose|j: int| scan_frac(t, j1t) == Some(j);
    assert(scan_frac(t, j1t) == Some(j2t));
    if j1t < t.len() {
        assert(s[i + j1t] == t[j1t]);
    }
    if j1t < t.len() && t[j1t] == '.' {
        assert(j1t + 1 < t.len() && is_digit(t[j1t + 1]));
        assert(s[i + (j1t + 1)] == t[j1t + 1]);
        lemma_scan_digits_embed(s, i, t, j1t + 1);
        assert(scan_frac(s, i + j1t) == Some(i + j2t));
    } else {
        assert(scan_frac(s, i + j1t) == Some(i + j2t));
    }
    assert(j2t <= t.len());
    assert(scan_exp(t, j2t) == Some(t.len() as int));
    if j2t < t.len() && (t[j2t] == 'e' || t[j2t] == 'E') {
        assert(s[i + j2t] == t[j2t]);
        let j3t = if j2t + 1 < t.len() && (t[j2t + 1] == '+' || t[j2t + 1] == '-') {
            j2t + 2
        } else {
            j2t + 1
        };
        assert(j3t < t.len() && is_digit(t[j3t]));
        if j2t + 1 < t.len() {
            assert(s[i + (j2t + 1)] == t[j2t + 1]);
        }
        assert(s[i + j3t] == t[j3t]);
        lemma_scan_digits_embed(s, i, t, j3t);
        assert(scan_exp(s, i + j2t) == Some(i + t.len()));
    } else {
        if j2t < t.len() {
            assert(s[i + j2t] == t[j2t]);
        }
        assert(scan_exp(s, i + j2t) == Some(i + t.len()));
    }
    assert(scan_number(s, i) == Some(i + t.len()));
}


} // verus!

verus! {

/// The first character of a serialized value: never whitespace, never a
/// closing bracket or brace, never a comma.
proof fn lemma_jser_head(m: JVal)
    requires
        repr_ok(m),
    ensures
        jser(m).len() > 0,
        !is_ws(jser(m)[0]),
        jser(m)[0] != ']',
        jser(m)[0] != '}',
        jser(m)[0] != ',',
    decreases m,
{
    match m {
        JVal::Null => {},
        JVal::Bool(b) => {},
        JVal::Num(t) => {
            assert(scan_number(t, 0) == Some(t.len() as int));
            assert(0 < t.len());
            assert(t[0] == '-' || is_digit(t[0]));
            assert(jser(m) == t);
        },
        JVal::Str(t) => {
            assert(jser(m)[0] == '"');
        },
        JVal::Arr(es) => {
            assert(jser(m)[0] == '[');
        },
        JVal::Obj(ms) => {
            assert(jser(m)[0] == '{');
        },
    }
}

/// Parsing an embedded serialized value starting at `i` yields exactly
/// that value and stops exactly at its end.
proof fn lemma_rt_value(s: Seq<char>, i: int, m: JVal)
    requires
        repr_ok(m),
        0 <= i,
        i + jser(m).len() <= s.len(),
        s.subrange(i, i + jser(m).len() as int) == jser(m),
        i + jser(m).len() == s.len() || !num_cont(s[i + jser(m).len() as int]),
    ensures
        sparse_value(s, i) == Some((m, i + jser(m).len() as int)),
    decreases m, 0int,
{
    let n = jser(m).len() as int;
    assert forall|x: int| 0 <= x < n implies s[i + x] == jser(m)[x] by {
        assert(s.subrange(i, i + n)[x] == s[i + x]);
    }
    assert(n > 0) by {
        lemma_jser_head(m);
    }
    assert(s[i + 0] == jser(m)[0]);
    assert(s[i] == jser(m)[0]);
    match m {
        JVal::Null => {
            assert(s[i + 1] == 'u' && s[i + 2] == 'l' && s[i + 3] == 'l');
            assert(sparse_value(s, i) == Some((m, i + n)));
        },
        JVal::Bool(b) => {
            if b {
                assert(s[i + 1] == 'r' && s[i + 2] == 'u' && s[i + 3] == 'e');
            } else {
                assert(s[i + 1] == 'a' && s[i + 2] == 'l' && s[i + 3] == 's' && s[i + 4] == 'e');
            }
            assert(sparse_value(s, i) == Some((m, i + n)));
        },
        JVal::Num(t) => {
            assert(jser(m) == t);
            assert(s.subrange(i, i + t.len() as int) == t);
            lemma_scan_number_embed(s, i, t);
            assert(scan_number(t, 0) == Some(t.len() as int));
            assert(t[0] == '-' || is_digit(t[0]));
            assert(sparse_value(s, i) == Some((JVal::Num(s.subrange(i, i + n)), i + n)));
            assert(sparse_value(s, i) == Some((m, i + n)));
        },
        JVal::Str(t) => {
            let el = esc(t).len() as int;
            assert(jser(m) =~= seq!['"'] + esc(t) + seq!['"']);
            assert(s.subrange(i + 1, i + 1 + el) =~= esc(t)) by {
                assert forall|q: int| 0 <= q < el implies s.subrange(i + 1, i + 1 + el)[q] == esc(
                    t,
                )[q] by {
                    assert(s[i + (1 + q)] == jser(m)[1 + q]);
                    assert(jser(m)[1 + q] == (seq!['"'] + esc(t) + seq!['"'])[1 + q]);
                }
            }
            assert(s[i + (1 + el)] == jser(m)[1 + el]);
            assert(s[i + 1 + el] == '"');
            lemma_scan_esc(s, i + 1, t);
            assert(scan_string(s, i + 1) == Some((t, i + n)));
            assert(sparse_value(s, i) == Some((m, i + n)));
        },
        JVal::Arr(es) => {
            if es.len() == 0 {
                assert(jser_elems(es) =~= Seq::<char>::empty());
                assert(jser(m) =~= seq!['[', ']']);
                assert(es =~= Seq::<JVal>::empty());
                assert(n == 2);
                assert(s[i + 1] == jser(m)[1]);
                assert(s[i + 1] == ']');
                assert(!is_ws(s[i + 1]));
                assert(skip_ws(s, i + 1) == i + 1);
            } else {
                let L = jser_elems(es).len() as int;
                assert(jser(m) =~= seq!['['] + jser_elems(es) + seq![']']);
                assert(s.subrange(i + 1, i + 1 + L) =~= jser_elems(es)) by {
                    assert forall|q: int| 0 <= q < L implies s.subrange(i + 1, i + 1 + L)[q]
                        == jser_elems(es)[q] by {
                        assert(s[i + (1 + q)] == jser(m)[1 + q]);
                        assert(jser(m)[1 + q] == (seq!['['] + jser_elems(es) + seq![']'])[1 + q]);
                    }
                }
                assert(s[i + (1 + L)] == jser(m)[1 + L]);
                assert(s[i + 1 + L] == ']');
                assert(repr_ok(es[0]));
                lemma_jser_head(es[0]);
                assert(jser_elems(es)[0] == jser(es[0])[0]) by {
                    if es.len() == 1 {
                    } else {
                        assert((jser(es[0]) + seq![','] + jser_elems(
                            es.subrange(1, es.len() as int),
                        ))[0] == jser(es[0])[0]);
                    }
                }
                assert(s[i + 1] == jser(es[0])[0]);
                assert(!is_ws(s[i + 1]));
                assert(skip_ws(s, i + 1) == i + 1);
                assert(s[i + 1] != ']');
                lemma_rt_elems(s, i + 1, es);
                assert(sparse_elems(s, i + 1) == Some((es, i + n)));
            }
            assert(sparse_value(s, i) == Some((m, i + n)));
        },
        JVal::Obj(ms) => {
            if ms.len() == 0 {
                assert(jser_members(ms) =~= Seq::<char>::empty());
                assert(jser(m) =~= seq!['{', '}']);
                assert(ms =~= Seq::<(Seq<char>, JVal)>::empty());
                assert(n == 2);
                assert(s[i + 1] == jser(m)[1]);
                assert(s[i + 1] == '}');
                assert(!is_ws(s[i + 1]));
                assert(skip_ws(s, i + 1) == i + 1);
            } else {
                let L = jser_members(ms).len() as int;
                assert(jser(m) =~= seq!['{'] + jser_members(ms) + seq!['}']);
                assert(s.subrange(i + 1, i + 1 + L) =~= jser_members(ms)) by {
                    assert forall|q: int| 0 <= q < L implies s.subrange(i + 1, i + 1 + L)[q]
                        == jser_members(ms)[q] by {
                        assert(s[i + (1 + q)] == jser(m)[1 + q]);
                        assert(jser(m)[1 + q] == (seq!['{'] + jser_members(ms) + seq!['}'])[1 + q]);
                    }
                }
                assert(s[i + (1 + L)] == jser(m)[1 + L]);
                assert(s[i + 1 + L] == '}');
                assert(L > 0 && jser_members(ms)[0] == '"') by {
                    assert(jser_member(ms[0]) =~= seq!['"'] + esc(ms[0].0) + seq!['"', ':'] + jser(
                        ms[0].1,
                    ));
                    assert(jser_member(ms[0])[0] == '"');
                    if ms.len() == 1 {
                    } else {
                        assert((jser_member(ms[0]) + seq![','] + jser_members(
                            ms.subrange(1, ms.len() as int),
                        ))[0] == jser_member(ms[0])[0]);
                    }
                }
                assert(s[i + 1] == jser(m)[1]);
                assert(jser(m)[1] == (seq!['{'] + jser_members(ms) + seq!['}'])[1]);
                assert((seq!['{'] + jser_members(ms) + seq!['}'])[1] == jser_members(ms)[0]);
                assert(s[i + 1] == '"');
                assert(!is_ws(s[i + 1]));
                assert(skip_ws(s, i + 1) == i + 1);
                assert(s[i + 1] != '}');
                lemma_rt_members(s, i + 1, ms);
                assert(sparse_members(s, i + 1) == Some((ms, i + n)));
            }
            assert(sparse_value(s, i) == Some((m, i + n)));
        },
    }
}

/// Parsing embedded serialized elements, the closing bracket just after
/// them, yields exactly those elements.
proof fn lemma_rt_elems(s: Seq<char>, i: int, es: Seq<JVal>)
    requires
        es.len() > 0,
        forall|k: int| 0 <= k < es.len() ==> repr_ok(#[trigger] es[k]),
        0 <= i,
        i + jser_elems(es).len() + 1 <= s.len(),
        s.subrange(i, i + jser_elems(es).len() as int) == jser_elems(es),
        s[i + jser_elems(es).len() as int] == ']',
    ensures
        sparse_elems(s, i) == Some((es, i + jser_elems(es).len() + 1)),
    decreases es, 1int,
{
    let L = jser_elems(es).len() as int;
    assert forall|x: int| 0 <= x < L implies s[i + x] == jser_elems(es)[x] by {
        assert(s.subrange(i, i + L)[x] == s[i + x]);
    }
    let m0 = es[0];
    assert(repr_ok(m0));
    let w = jser(m0).len() as int;
    if es.len() == 1 {
        assert(jser_elems(es) == jser(m0));
        assert(s.subrange(i, i + w) == jser(m0));
        assert(s[i + w] == ']');
        lemma_rt_value(s, i, m0);
        assert(!is_ws(s[i + w]));
        assert(skip_ws(s, i + w) == i + w);
        assert(seq![m0] =~= es);
    } else {
        let rest = es.subrange(1, es.len() as int);
        assert(forall|k: int| 0 <= k < rest.len() ==> repr_ok(#[trigger] rest[k])) by {
            assert forall|k: int| 0 <= k < rest.len() implies repr_ok(#[trigger] rest[k]) by {
                assert(rest[k] == es[k + 1]);
            }
        }
        let R = jser_elems(rest).len() as int;
        assert(jser_elems(es) == jser(m0) + seq![','] + jser_elems(rest));
        assert(L == w + 1 + R);
        assert(s.subrange(i, i + w) =~= jser(m0)) by {
            assert forall|q: int| 0 <= q < w implies s.subrange(i, i + w)[q] == jser(m0)[q] by {
                assert(s[i + q] == jser_elems(es)[q]);
                assert((jser(m0) + seq![','] + jser_elems(rest))[q] == jser(m0)[q]);
            }
        }
        assert(s[i + w] == jser_elems(es)[w]);
        assert((jser(m0) + seq![','] + jser_elems(rest))[w] == ',');
        assert(s[i + w] == ',');
        lemma_rt_value(s, i, m0);
        assert(!is_ws(s[i + w]));
        assert(skip_ws(s, i + w) == i + w);
        assert(s[i + w] != ']');
        let i2 = i + w + 1;
        assert(s.subrange(i2, i2 + R) =~= jser_elems(rest)) by {
            assert forall|q: int| 0 <= q < R implies s.subrange(i2, i2 + R)[q] == jser_elems(
                rest,
            )[q] by {
                assert(s[i + (w + 1 + q)] == jser_elems(es)[w + 1 + q]);
                assert((jser(m0) + seq![','] + jser_elems(rest))[w + 1 + q] == jser_elems(rest)[q]);
            }
        }
        assert(i2 + R == i + L);
        assert(s[i2 + R] == ']');
        assert(repr_ok(rest[0]));
        lemma_jser_head(rest[0]);
        assert(jser_elems(rest)[0] == jser(rest[0])[0]) by {
            if rest.len() == 1 {
            } else {
                assert((jser(rest[0]) + seq![','] + jser_elems(
                    rest.subrange(1, rest.len() as int),
                ))[0] == jser(rest[0])[0]);
            }
        }
        assert(s[i2 + 0] == jser_elems(rest)[0]);
        assert(s[i2] == jser(rest[0])[0]);
        assert(!is_ws(s[i2]));
        assert(skip_ws(s, i2) == i2);
        lemma_rt_elems(s, i2, rest);
        assert(sparse_elems(s, i2) == Some((rest, i2 + R + 1)));
        assert(seq![m0] + rest =~= es);
        assert(i2 + R + 1 == i + L + 1);
    }
}

/// Parsing embedded serialized members, the closing brace just after
/// them, yields exactly those members.
proof fn lemma_rt_members(s: Seq<char>, i: int, ms: Seq<(Seq<char>, JVal)>)
    requires
        ms.len() > 0,
        forall|k: int| 0 <= k < ms.len() ==> member_ok(#[trigger] ms[k]),
        0 <= i,
        i + jser_members(ms).len() + 1 <= s.len(),
        s.subrange(i, i + jser_members(ms).len() as int) == jser_members(ms),
        s[i + jser_members(ms).len() as int] == '}',
    ensures
        sparse_members(s, i) == Some((ms, i + jser_members(ms).len() + 1)),
    decreases ms, 1int,
{
    let L = jser_members(ms).len() as int;
    assert forall|x: int| 0 <= x < L implies s[i + x] == jser_members(ms)[x] by {
        assert(s.subrange(i, i + L)[x] == s[i + x]);
    }
    let k0 = ms[0].0;
    let v0 = ms[0].1;
    assert(member_ok(ms[0]));
    assert(repr_ok(v0));
    let w = jser_member(ms[0]).len() as int;
    let el = esc(k0).len() as int;
    let vw = jser(v0).len() as int;
    assert(jser_member(ms[0]) =~= seq!['"'] + esc(k0) + seq!['"', ':'] + jser(v0));
    assert(w == el + 3 + vw);
    let tail: Seq<char> = if ms.len() == 1 {
        Seq::empty()
    } else {
        seq![','] + jser_members(ms.subrange(1, ms.len() as int))
    };
    assert(jser_members(ms) == jser_member(ms[0]) + tail) by {
        if ms.len() == 1 {
            assert(jser_members(ms) == jser_member(ms[0]));
            assert(jser_member(ms[0]) + tail =~= jser_member(ms[0]));
        }
    }
    assert forall|x: int| 0 <= x < w implies jser_members(ms)[x] == jser_member(ms[0])[x] by {
        assert((jser_member(ms[0]) + tail)[x] == jser_member(ms[0])[x]);
    }
    assert(s[i + 0] == jser_members(ms)[0]);
    assert(jser_member(ms[0])[0] == '"');
    assert(s[i] == '"');
    assert(s.subrange(i + 1, i + 1 + el) =~= esc(k0)) by {
        assert forall|q: int| 0 <= q < el implies s.subrange(i + 1, i + 1 + el)[q] == esc(k0)[q] by {
            assert(s[i + (1 + q)] == jser_members(ms)[1 + q]);
            assert(jser_member(ms[0])[1 + q] == (seq!['"'] + esc(k0) + seq!['"', ':'] + jser(
                v0,
            ))[1 + q]);
        }
    }
    assert(s[i + (1 + el)] == jser_members(ms)[1 + el]);
    assert(jser_member(ms[0])[1 + el] == (seq!['"'] + esc(k0) + seq!['"', ':'] + jser(v0))[1 + el]);
    assert(s[i + 1 + el] == '"');
    lemma_scan_esc(s, i + 1, k0);
    assert(scan_string(s, i + 1) == Some((k0, i + el + 2)));
    assert(s[i + (el + 2)] == jser_members(ms)[el + 2]);
    assert(jser_member(ms[0])[el + 2] == (seq!['"'] + esc(k0) + seq!['"', ':'] + jser(v0))[el + 2]);
    assert(s[i + el + 2] == ':');
    assert(!is_ws(s[i + el + 2]));
    assert(skip_ws(s, i + el + 2) == i + el + 2);
    let iv = i + el + 3;
    assert(s.subrange(iv, iv + vw) =~= jser(v0)) by {
        assert forall|q: int| 0 <= q < vw implies s.subrange(iv, iv + vw)[q] == jser(v0)[q] by {
            assert(s[i + (el + 3 + q)] == jser_members(ms)[el + 3 + q]);
            assert(jser_member(ms[0])[el + 3 + q] == (seq!['"'] + esc(k0) + seq!['"', ':'] + jser(
                v0,
            ))[el + 3 + q]);
        }
    }
    lemma_jser_head(v0);
    assert(s[iv + 0] == jser(v0)[0]);
    assert(!is_ws(s[iv]));
    assert(skip_ws(s, iv) == iv);
    let after: int = iv + vw;
    assert(after == i + w);
    if ms.len() == 1 {
        assert(s[i + L] == '}');
        assert(after == i + L);
        assert(after == s.len() || !num_cont(s[after])) by {
            assert(s[i + L] == '}');
        }
        lemma_rt_value(s, iv, v0);
        assert(!is_ws(s[after]));
        assert(skip_ws(s, after) == after);
        assert(seq![(k0, v0)] =~= ms);
    } else {
        let rest = ms.subrange(1, ms.len() as int);
        assert(forall|k: int| 0 <= k < rest.len() ==> member_ok(#[trigger] rest[k])) by {
            assert forall|k: int| 0 <= k < rest.len() implies member_ok(#[trigger] rest[k]) by {
                assert(rest[k] == ms[k + 1]);
            }
        }
        let R = jser_members(rest).len() as int;
        assert(L == w + 1 + R);
        assert(s[i + w] == jser_members(ms)[w]);
        assert((jser_member(ms[0]) + tail)[w] == tail[0]);
        assert(tail[0] == ',');
        assert(s[i + w] == ',');
        assert(after == s.len() || !num_cont(s[after])) by {
            assert(s[i + w] == ',');
        }
        lemma_rt_value(s, iv, v0);
        assert(!is_ws(s[i + w]));
        assert(skip_ws(s, i + w) == i + w);
        assert(s[i + w] != '}');
        let i2 = i + w + 1;
        assert(s.subrange(i2, i2 + R) =~= jser_members(rest)) by {
            assert forall|q: int| 0 <= q < R implies s.subrange(i2, i2 + R)[q] == jser_members(
                rest,
            )[q] by {
                assert(s[i + (w + 1 + q)] == jser_members(ms)[w + 1 + q]);
                assert((jser_member(ms[0]) + tail)[w + 1 + q] == tail[1 + q]);
                assert(tail[1 + q] == jser_members(rest)[q]);
            }
        }
        assert(i2 + R == i + L);
        assert(s[i2 + R] == '}');
        assert(member_ok(rest[0]));
        assert(R > 0) by {
            assert(jser_member(rest[0]) =~= seq!['"'] + esc(rest[0].0) + seq!['"', ':'] + jser(
                rest[0].1,
            ));
            if rest.len() == 1 {
            } else {
            }
        }
        assert(jser_members(rest)[0] == '"') by {
            assert(jser_member(rest[0]) =~= seq!['"'] + esc(rest[0].0) + seq!['"', ':'] + jser(
                rest[0].1,
            ));
            assert(jser_member(rest[0])[0] == '"');
            if rest.len() == 1 {
            } else {
                assert((jser_member(rest[0]) + seq![','] + jser_members(
                    rest.subrange(1, rest.len() as int),
                ))[0] == jser_member(rest[0])[0]);
            }
        }
        assert(s[i2 + 0] == jser_members(rest)[0]);
        assert(s[i2] == '"');
        assert(!is_ws(s[i2]));
        assert(skip_ws(s, i2) == i2);
        lemma_rt_members(s, i2, rest);
        assert(seq![(k0, v0)] + rest =~= ms);
        assert(i2 + R + 1 == i + L + 1);
    }
}

/// The round-trip law: decoding the canonical serialization of any
/// representable value through the notation reproduces the value exactly.
pub proof fn lemma_round_trip(m: JVal)
    requires
        repr_ok(m),
    ensures
        sparse_doc(jser(m)) == Some(m),
{
    let s = jser(m);
    lemma_jser_head(m);
    assert(skip_ws(s, 0) == 0);
    assert(s.subrange(0, s.len() as int) =~= s);
    lemma_rt_value(s, 0, m);
    assert(skip_ws(s, s.len() as int) == s.len());
}

} // verus!
