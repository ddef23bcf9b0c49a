//! Byte-exact rendering of single-line JSON objects.
//!
//! The wire format of the feed is a small fragment of JSON: objects whose
//! members are strings, non-negative integers and booleans, rendered with
//! no inter-token whitespace and members in declaration order.  The spec
//! functions here pin the rendered character sequence down exactly; the
//! exec functions build it and are proved equal to the spec.

use vstd::prelude::*;

verus! {

/// A JSON scalar value as it appears in an object member of the feed.
pub enum JsonVal {
    VStr(Seq<char>),
    VNum(nat),
    VBool(bool),
}

/// Decimal digit character for `d < 10`.
pub open spec fn dec_digit(d: nat) -> char
    recommends
        d < 10,
{
    if d == 0 {
        '0'
    } else if d == 1 {
        '1'
    } else if d == 2 {
        '2'
    } else if d == 3 {
        '3'
    } else if d == 4 {
        '4'
    } else if d == 5 {
        '5'
    } else if d == 6 {
        '6'
    } else if d == 7 {
        '7'
    } else if d == 8 {
        '8'
    } else {
        '9'
    }
}

/// Shortest decimal rendering of `n`, most significant digit first.
pub open spec fn dec_digits(n: nat) -> Seq<char>
    decreases n,
{
    if n < 10 {
        seq![dec_digit(n)]
    } else {
        dec_digits(n / 10) + seq![dec_digit(n % 10)]
    }
}

/// Lower-case hexadecimal digit character for `d < 16`.
pub open spec fn hex_digit(d: nat) -> char
    recommends
        d < 16,
{
    if d < 10 {
        dec_digit(d)
    } else if d == 10 {
        'a'
    } else if d == 11 {
        'b'
    } else if d == 12 {
        'c'
    } else if d == 13 {
        'd'
    } else if d == 14 {
        'e'
    } else {
        'f'
    }
}

/// How one character is written inside a JSON string literal: quote and
/// backslash get a two-character escape, the five short-named control
/// characters their letter form, the remaining control characters the
/// `\u00XX` form, and everything else stands for itself.
pub open spec fn escape_char(c: char) -> Seq<char> {
    if c == '"' {
        seq!['\\', '"']
    } else if c == '\\' {
        seq!['\\', '\\']
    } else if c == '\u{8}' {
        seq!['\\', 'b']
    } else if c == '\u{c}' {
        seq!['\\', 'f']
    } else if c == '\n' {
        seq!['\\', 'n']
    } else if c == '\r' {
        seq!['\\', 'r']
    } else if c == '\t' {
        seq!['\\', 't']
    } else if (c as u32) < 0x20 {
        seq!['\\', 'u', '0', '0', hex_digit((c as u32) as nat / 16), hex_digit((c as u32) as nat % 16)]
    } else {
        seq![c]
    }
}

/// JSON string-literal body for `s`: each character escaped as needed.
pub open spec fn escape(s: Seq<char>) -> Seq<char>
    decreases s.len(),
{
    if s.len() == 0 {
        Seq::empty()
    } else {
        escape_char(s[0]) + escape(s.skip(1))
    }
}

/// Rendering of one scalar value.
pub open spec fn render_val(v: JsonVal) -> Seq<char> {
    match v {
        JsonVal::VStr(s) => seq!['"'] + escape(s) + seq!['"'],
        JsonVal::VNum(n) => dec_digits(n),
        JsonVal::VBool(b) => if b {
            seq!['t', 'r', 'u', 'e']
        } else {
            seq!['f', 'a', 'l', 's', 'e']
        },
    }
}

/// Rendering of one `"key":value` member.
pub open spec fn render_member(m: (Seq<char>, JsonVal)) -> Seq<char> {
    seq!['"'] + m.0 + seq!['"', ':'] + render_val(m.1)
}

/// Comma-separated rendering of a member list.
pub open spec fn render_members(ms: Seq<(Seq<char>, JsonVal)>) -> Seq<char>
    decreases ms.len(),
{
    if ms.len() == 0 {
        Seq::empty()
    } else if ms.len() == 1 {
        render_member(ms[0])
    } else {
        render_member(ms[0]) + seq![','] + render_members(ms.skip(1))
    }
}

/// Rendering of a whole object from its member list.
pub open spec fn render_obj(ms: Seq<(Seq<char>, JsonVal)>) -> Seq<char> {
    seq!['{'] + render_members(ms) + seq!['}']
}

pub proof fn lemma_escape_append(a: Seq<char>, b: Seq<char>)
    ensures
        escape(a + b) == escape(a) + escape(b),
    decreases a.len(),
{
    if a.len() == 0 {
        assert(a + b =~= b);
        assert(escape(a) + escape(b) =~= escape(b));
    } else {
        assert((a + b).skip(1) =~= a.skip(1) + b);
        assert((a + b)[0] == a[0]);
        assert((a + b).len() > 0);
        lemma_escape_append(a.skip(1), b);
        assert(escape_char(a[0]) + (escape(a.skip(1)) + escape(b)) =~= (escape_char(a[0]) + escape(
            a.skip(1),
        )) + escape(b));
    }
}

pub proof fn lemma_escape_snoc(a: Seq<char>, c: char)
    ensures
        escape(a.push(c)) == escape(a) + escape_char(c),
{
    assert(a.push(c) =~= a + seq![c]);
    lemma_escape_append(a, seq![c]);
    assert(seq![c].skip(1) =~= Seq::<char>::empty());
    assert(escape(seq![c]) == escape_char(c) + escape(seq![c].skip(1)));
    assert(escape_char(c) + Seq::<char>::empty() =~= escape_char(c));
}

/// Appending one member to a member list appends `,member` to the
/// rendering, or just `member` when the list was empty.
pub proof fn lemma_render_members_snoc(ms: Seq<(Seq<char>, JsonVal)>, m: (Seq<char>, JsonVal))
    ensures
        render_members(ms.push(m)) == if ms.len() == 0 {
            render_member(m)
        } else {
            render_members(ms) + seq![','] + render_member(m)
        },
    decreases ms.len(),
{
    if ms.len() == 0 {
        assert(ms.push(m) =~= seq![m]);
        assert(render_members(seq![m]) == render_member(m));
    } else {
        assert(ms.push(m).len() >= 2);
        assert(ms.push(m)[0] == ms[0]);
        assert(ms.push(m).skip(1) =~= ms.skip(1).push(m));
        lemma_render_members_snoc(ms.skip(1), m);
        if ms.len() == 1 {
            assert(ms.skip(1).len() == 0);
            assert(render_members(ms) == render_member(ms[0]));
        } else {
            assert(render_member(ms[0]) + seq![','] + (render_members(ms.skip(1)) + seq![',']
                + render_member(m)) =~= (render_member(ms[0]) + seq![','] + render_members(
                ms.skip(1),
            )) + seq![','] + render_member(m));
        }
    }
}

/// Appending `,member` to a partially rendered object regroups as the
/// rendering of the grown member list inside the braces.
pub proof fn lemma_obj_step(a: Seq<char>, c: Seq<char>)
    ensures
        ((seq!['{'] + a).push(',')) + c == seq!['{'] + (a + seq![','] + c),
{
    assert(((seq!['{'] + a).push(',')) + c =~= seq!['{'] + (a + seq![','] + c));
}

/// Relies on `String::push`: appends exactly the one character.
pub assume_specification[ String::push ](s: &mut String, ch: char)
    ensures
        final(s)@ == old(s)@.push(ch),
;

/// Appends the decimal rendering of `n`.
pub fn push_dec_u32(out: &mut String, n: u32)
    ensures
        final(out)@ == old(out)@ + dec_digits(n as nat),
    decreases n,
{
    if n >= 10 {
        push_dec_u32(out, n / 10);
    }
    let d: u8 = (n % 10) as u8;
    out.push((0x30u8 + d) as char);
    proof {
        assert((0x30u8 + d) as char == dec_digit((n % 10) as nat));
        if n < 10 {
            assert(dec_digits(n as nat) =~= seq![dec_digit(n as nat)]);
            assert(old(out)@ + dec_digits(n as nat) =~= old(out)@.push(dec_digit((n % 10) as nat)));
        } else {
            assert(dec_digits(n as nat) == dec_digits(n as nat / 10) + seq![
                dec_digit(n as nat % 10),
            ]);
            assert(old(out)@ + dec_digits(n as nat) =~= (old(out)@ + dec_digits((n / 10) as nat)).push(
                dec_digit((n % 10) as nat),
            ));
        }
    }
}

/// Appends one lower-case hexadecimal digit.
fn push_hex_digit(out: &mut String, d: u8)
    requires
        d < 16,
    ensures
        final(out)@ == old(out)@.push(hex_digit(d as nat)),
{
    if d < 10 {
        out.push((0x30u8 + d) as char);
        proof {
            assert((0x30u8 + d) as char == hex_digit(d as nat));
        }
    } else {
        out.push((0x57u8 + d) as char);
        proof {
            assert((0x57u8 + d) as char == hex_digit(d as nat));
        }
    }
}

/// Appends the escaped JSON string-literal body of `s`.
pub fn push_escaped(out: &mut String, s: &str)
    ensures
        final(out)@ == old(out)@ + escape(s@),
{
    let n: usize = s.unicode_len();
    let mut i: usize = 0;
    let ghost base: Seq<char> = out@;
    proof {
        assert(s@.take(0) =~= Seq::<char>::empty());
        assert(base + escape(s@.take(0)) =~= base);
    }
    while i < n
        invariant
            n == s@.len(),
            i <= n,
            out@ == base + escape(s@.take(i as int)),
        decreases n - i,
    {
        let c = s.get_char(i);
        let code: u32 = c as u32;
        if c == '"' {
            out.push('\\');
            out.push('"');
        } else if c == '\\' {
            out.push('\\');
            out.push('\\');
        } else if code < 0x20 {
            if code == 0x08 {
                out.push('\\');
                out.push('b');
            } else if code == 0x0c {
                out.push('\\');
                out.push('f');
            } else if code == 0x0a {
                out.push('\\');
                out.push('n');
            } else if code == 0x0d {
                out.push('\\');
                out.push('r');
            } else if code == 0x09 {
                out.push('\\');
                out.push('t');
            } else {
                out.push('\\');
                out.push('u');
                out.push('0');
                out.push('0');
                push_hex_digit(out, (code / 16) as u8);
                push_hex_digit(out, (code % 16) as u8);
            }
        } else {
            out.push(c);
        }
        proof {
            lemma_escape_snoc(s@.take(i as int), c);
            assert(s@.take(i + 1) =~= s@.take(i as int).push(c));
            assert(out@ =~= base + escape(s@.take(i + 1)));
        }
        i = i + 1;
    }
    proof {
        assert(s@.take(n as int) =~= s@);
    }
}

/// Appends a `"key":"value"` member with the value escaped.
pub fn push_str_member(out: &mut String, key: &str, v: &str)
    ensures
        final(out)@ == old(out)@ + render_member((key@, JsonVal::VStr(v@))),
{
    out.push('"');
    out.append(key);
    out.push('"');
    out.push(':');
    out.push('"');
    push_escaped(out, v);
    out.push('"');
    proof {
        assert(out@ =~= old(out)@ + render_member((key@, JsonVal::VStr(v@))));
    }
}

/// Appends a `"key":n` member with `n` in decimal.
pub fn push_num_member(out: &mut String, key: &str, n: u32)
    ensures
        final(out)@ == old(out)@ + render_member((key@, JsonVal::VNum(n as nat))),
{
    out.push('"');
    out.append(key);
    out.push('"');
    out.push(':');
    push_dec_u32(out, n);
    proof {
        assert(out@ =~= old(out)@ + render_member((key@, JsonVal::VNum(n as nat))));
    }
}

/// Appends a `"key":true` or `"key":false` member.
pub fn push_bool_member(out: &mut String, key: &str, b: bool)
    ensures
        final(out)@ == old(out)@ + render_member((key@, JsonVal::VBool(b))),
{
    out.push('"');
    out.append(key);
    out.push('"');
    out.push(':');
    if b {
        out.append("true");
        proof {
            reveal_strlit("true");
            assert("true"@ =~= seq!['t', 'r', 'u', 'e']);
        }
    } else {
        out.append("false");
        proof {
            reveal_strlit("false");
            assert("false"@ =~= seq!['f', 'a', 'l', 's', 'e']);
        }
    }
    proof {
        assert(out@ =~= old(out)@ + render_member((key@, JsonVal::VBool(b))));
    }
}

} // verus!
