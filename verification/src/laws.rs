//! The load-bearing properties of the feed, stated and proved once over
//! the spec functions that the exec contracts already use.

use crate::engine::{snapshot_fragment, snapshot_stream, stream_output, stream_prefix};
use crate::json::{
    JsonVal, dec_digit, dec_digits, escape, escape_char, hex_digit, render_member, render_members,
    render_obj, render_val,
};
use crate::parse::{
    EventAcc, acc_empty, code_char, cons_result, digit_val, hex_val, is_digit, is_ws, p_digits,
    p_member, p_members, p_number, p_str_value, p_string_body, skip_ws, unescape_short,
    valid_scalar,
};
use crate::protocol::{
    Block, ClientEvent, EventData, Header, block_json, block_pairs, event_json, event_pairs,
    header_json, header_pairs, k_align, k_background, k_border, k_border_bottom, k_border_left,
    k_border_right, k_border_top, k_button, k_click_events, k_color, k_const_signal, k_event,
    k_full_text, k_height, k_instance, k_markup, k_min_width, k_name, k_relative_x, k_relative_y,
    k_separator, k_separator_block_width, k_short_text, k_stop_signal, k_urgent, k_version,
    k_width, k_x, k_y, lemma_block_keys_distinct, lemma_event_keys_distinct, opt_bool_pair,
    opt_str_pair, opt_u32_pair, opt_u8_pair,
};
use vstd::prelude::*;
use vstd::utf8::char_u32_cast;

verus! {

/// A character that stands for itself inside a JSON string literal.
pub open spec fn plain_char(c: char) -> bool {
    c != '"' && c != '\\' && (c as u32) >= 0x20
}

/// A text of characters that need no escaping.
pub open spec fn plain(s: Seq<char>) -> bool {
    forall|i: int| 0 <= i < s.len() ==> plain_char(#[trigger] s[i])
}

/// A plain text followed by a closing quote parses back to itself.
proof fn lemma_plain_string_parse(k: Seq<char>, rest: Seq<char>)
    requires
        plain(k),
    ensures
        p_string_body(k + seq!['"'] + rest) == Some((k, rest)),
    decreases k.len(),
{
    let s = k + seq!['"'] + rest;
    if k.len() == 0 {
        assert(s[0] == '"');
        assert(s.skip(1) =~= rest);
    } else {
        assert(s[0] == k[0]);
        assert(plain_char(k[0]));
        assert(s.skip(1) =~= k.skip(1) + seq!['"'] + rest);
        assert(plain(k.skip(1)));
        lemma_plain_string_parse(k.skip(1), rest);
        assert(p_string_body(s) == cons_result(k[0], Some((k.skip(1), rest))));
        assert(seq![k[0]] + k.skip(1) =~= k);
    }
}

/// Escape digits parse back to their value.
proof fn lemma_hex_val_digit(d: nat)
    requires
        d < 16,
    ensures
        hex_val(hex_digit(d)) == Some(d),
{
}

/// The escaped body of any text followed by a closing quote parses back
/// to the text itself.
proof fn lemma_escape_string_parse(t: Seq<char>, rest: Seq<char>)
    ensures
        p_string_body(escape(t) + seq!['"'] + rest) == Some((t, rest)),
    decreases t.len(),
{
    let s = escape(t) + seq!['"'] + rest;
    if t.len() == 0 {
        assert(escape(t) =~= Seq::<char>::empty());
        assert(s =~= seq!['"'] + rest);
        assert(s[0] == '"');
        assert(s.skip(1) =~= rest);
    } else {
        let c = t[0];
        let e = escape_char(c);
        let tail = escape(t.skip(1)) + seq!['"'] + rest;
        assert(escape(t) == e + escape(t.skip(1)));
        assert(s =~= e + tail);
        lemma_escape_string_parse(t.skip(1), rest);
        assert(seq![c] + t.skip(1) =~= t);
        if c == '"' || c == '\\' {
            assert(s[0] == '\\');
            assert(s[1] == e[1]);
            assert(s.len() >= 2);
            assert(unescape_short(e[1]) == Some(c));
            assert(s.skip(2) =~= tail);
            assert(p_string_body(s) == cons_result(c, Some((t.skip(1), rest))));
        } else if c == '\u{8}' || c == '\u{c}' || c == '\n' || c == '\r' || c == '\t' {
            assert(s[0] == '\\');
            assert(s[1] == e[1]);
            assert(s.len() >= 2);
            assert(e[1] != 'u');
            assert(unescape_short(e[1]) == Some(c));
            assert(s.skip(2) =~= tail);
            assert(p_string_body(s) == cons_result(c, Some((t.skip(1), rest))));
        } else if (c as u32) < 0x20 {
            let u = c as u32;
            assert(e == seq!['\\', 'u', '0', '0', hex_digit(u as nat / 16), hex_digit(
                u as nat % 16,
            )]);
            assert(s[0] == '\\');
            assert(s[1] == 'u');
            assert(s[2] == '0');
            assert(s[3] == '0');
            assert(s[4] == hex_digit(u as nat / 16));
            assert(s[5] == hex_digit(u as nat % 16));
            assert(s.len() >= 6);
            assert(hex_val('0') == Some(0nat));
            lemma_hex_val_digit(u as nat / 16);
            lemma_hex_val_digit(u as nat % 16);
            let code = 0nat * 4096 + 0nat * 256 + (u as nat / 16) * 16 + u as nat % 16;
            assert(code == u as nat);
            assert(valid_scalar(code));
            char_u32_cast(c, u);
            assert(code_char(code) == c);
            assert(s.skip(6) =~= tail);
            assert(p_string_body(s) == cons_result(c, Some((t.skip(1), rest))));
        } else {
            assert(e == seq![c]);
            assert(s[0] == c);
            assert(s.skip(1) =~= tail);
            assert(p_string_body(s) == cons_result(c, Some((t.skip(1), rest))));
        }
    }
}

/// How many times `c` occurs in `s`.
pub open spec fn count_char(s: Seq<char>, c: char) -> nat
    decreases s.len(),
{
    if s.len() == 0 {
        0
    } else {
        count_char(s.drop_last(), c) + (if s.last() == c {
            1nat
        } else {
            0nat
        })
    }
}

/// A sequence avoiding `c` has no occurrence of it.
pub proof fn lemma_count_not_in(s: Seq<char>, c: char)
    requires
        forall|i: int| 0 <= i < s.len() ==> s[i] != c,
    ensures
        count_char(s, c) == 0,
    decreases s.len(),
{
    if s.len() > 0 {
        assert(forall|i: int| 0 <= i < s.drop_last().len() ==> s.drop_last()[i] != c);
        lemma_count_not_in(s.drop_last(), c);
    }
}

/// Occurrence count in a two-character sequence.
pub proof fn lemma_count_two(c1: char, c2: char, c: char)
    ensures
        count_char(seq![c1, c2], c) == (if c1 == c {
            1nat
        } else {
            0nat
        }) + (if c2 == c {
            1nat
        } else {
            0nat
        }),
{
    assert(seq![c1, c2].drop_last() =~= seq![c1]);
    assert(seq![c1].drop_last() =~= Seq::<char>::empty());
    assert(seq![c1, c2].last() == c2);
    assert(seq![c1].last() == c1);
    assert(count_char(Seq::<char>::empty(), c) == 0);
    assert(count_char(seq![c1], c) == (if c1 == c {
        1nat
    } else {
        0nat
    }));
}

/// Occurrence counts add up over concatenation.
pub proof fn lemma_count_append(a: Seq<char>, b: Seq<char>, c: char)
    ensures
        count_char(a + b, c) == count_char(a, c) + count_char(b, c),
    decreases b.len(),
{
    if b.len() == 0 {
        assert(a + b =~= a);
    } else {
        assert((a + b).drop_last() =~= a + b.drop_last());
        assert((a + b).last() == b.last());
        assert((a + b).len() > 0);
        lemma_count_append(a, b.drop_last(), c);
    }
}

/// Position class while scanning JSON text: between tokens, inside a
/// string literal, or just after a backslash inside a string literal.
pub enum ScanPos {
    Outside,
    Inside,
    Escaped,
}

/// One step of the quote scanner.
pub open spec fn scan_step(q: ScanPos, c: char) -> ScanPos {
    match q {
        ScanPos::Outside => if c == '"' {
            ScanPos::Inside
        } else {
            ScanPos::Outside
        },
        ScanPos::Inside => if c == '\\' {
            ScanPos::Escaped
        } else if c == '"' {
            ScanPos::Outside
        } else {
            ScanPos::Inside
        },
        ScanPos::Escaped => ScanPos::Inside,
    }
}

/// The scanner position after reading all of `s` from `q`.
pub open spec fn scan_end(q: ScanPos, s: Seq<char>) -> ScanPos
    decreases s.len(),
{
    if s.len() == 0 {
        q
    } else {
        scan_end(scan_step(q, s[0]), s.skip(1))
    }
}

/// How many times `c` occurs in `s` outside of string literals, the
/// scan starting from `q`.
pub open spec fn count_unquoted(q: ScanPos, s: Seq<char>, c: char) -> nat
    decreases s.len(),
{
    if s.len() == 0 {
        0
    } else {
        (if q is Outside && s[0] == c {
            1nat
        } else {
            0nat
        }) + count_unquoted(scan_step(q, s[0]), s.skip(1), c)
    }
}

/// Scanning concatenated text chains the end position, and unquoted
/// occurrences add up.
proof fn lemma_scan_append(q: ScanPos, a: Seq<char>, b: Seq<char>, c: char)
    ensures
        scan_end(q, a + b) == scan_end(scan_end(q, a), b),
        count_unquoted(q, a + b, c) == count_unquoted(q, a, c) + count_unquoted(
            scan_end(q, a),
            b,
            c,
        ),
    decreases a.len(),
{
    if a.len() == 0 {
        assert(a + b =~= b);
    } else {
        assert((a + b)[0] == a[0]);
        assert((a + b).skip(1) =~= a.skip(1) + b);
        lemma_scan_append(scan_step(q, a[0]), a.skip(1), b, c);
    }
}

/// A run free of quotes and backslashes keeps the scanner outside and
/// contributes no unquoted occurrence of a character it avoids.
proof fn lemma_scan_outside_run(s: Seq<char>, c: char)
    requires
        forall|i: int| 0 <= i < s.len() ==> s[i] != '"' && #[trigger] s[i] != c,
    ensures
        scan_end(ScanPos::Outside, s) == ScanPos::Outside,
        count_unquoted(ScanPos::Outside, s, c) == 0,
    decreases s.len(),
{
    if s.len() > 0 {
        assert(forall|i: int|
            0 <= i < s.skip(1).len() ==> s.skip(1)[i] != '"' && #[trigger] s.skip(1)[i] != c);
        lemma_scan_outside_run(s.skip(1), c);
    }
}

/// A run free of quotes and backslashes inside a string keeps the
/// scanner inside and contributes no unquoted occurrence at all.
proof fn lemma_scan_inside_run(s: Seq<char>, c: char)
    requires
        forall|i: int| 0 <= i < s.len() ==> s[i] != '"' && #[trigger] s[i] != '\\',
    ensures
        scan_end(ScanPos::Inside, s) == ScanPos::Inside,
        count_unquoted(ScanPos::Inside, s, c) == 0,
    decreases s.len(),
{
    if s.len() > 0 {
        assert(forall|i: int|
            0 <= i < s.skip(1).len() ==> s.skip(1)[i] != '"' && #[trigger] s.skip(1)[i]
                != '\\');
        lemma_scan_inside_run(s.skip(1), c);
    }
}

/// A single character advances the scanner one step.
proof fn lemma_scan_one(q: ScanPos, ch: char, c: char)
    ensures
        scan_end(q, seq![ch]) == scan_step(q, ch),
        count_unquoted(q, seq![ch], c) == (if q is Outside && ch == c {
            1nat
        } else {
            0nat
        }),
{
    assert(seq![ch][0] == ch);
    assert(seq![ch].skip(1) =~= Seq::<char>::empty());
    assert(scan_end(q, seq![ch]) == scan_end(scan_step(q, ch), Seq::<char>::empty()));
    assert(count_unquoted(q, seq![ch], c) == (if q is Outside && ch == c {
        1nat
    } else {
        0nat
    }) + count_unquoted(scan_step(q, ch), Seq::<char>::empty(), c));
}

/// A two-character escape keeps the scanner inside the string.
proof fn lemma_scan_esc_two(x: char, c: char)
    ensures
        scan_end(ScanPos::Inside, seq!['\\', x]) == ScanPos::Inside,
        count_unquoted(ScanPos::Inside, seq!['\\', x], c) == 0,
{
    assert(seq!['\\', x].skip(1) =~= seq![x]);
    assert(seq![x].skip(1) =~= Seq::<char>::empty());
    assert(seq!['\\', x][0] == '\\');
    assert(seq![x][0] == x);
    assert(scan_step(ScanPos::Inside, '\\') == ScanPos::Escaped);
    assert(scan_end(ScanPos::Inside, seq!['\\', x]) == scan_end(ScanPos::Escaped, seq![x]));
    assert(scan_end(ScanPos::Escaped, seq![x]) == scan_end(
        ScanPos::Inside,
        Seq::<char>::empty(),
    ));
    assert(count_unquoted(ScanPos::Inside, seq!['\\', x], c) == count_unquoted(
        ScanPos::Escaped,
        seq![x],
        c,
    ));
    assert(count_unquoted(ScanPos::Escaped, seq![x], c) == count_unquoted(
        ScanPos::Inside,
        Seq::<char>::empty(),
        c,
    ));
}

/// An escaped string body keeps the scanner inside the string and
/// contributes no unquoted occurrence at all.
proof fn lemma_scan_escape(t: Seq<char>, c: char)
    ensures
        scan_end(ScanPos::Inside, escape(t)) == ScanPos::Inside,
        count_unquoted(ScanPos::Inside, escape(t), c) == 0,
    decreases t.len(),
{
    if t.len() == 0 {
        assert(escape(t) == Seq::<char>::empty());
    } else {
        let c0 = t[0];
        let e = escape_char(c0);
        assert(escape(t) == e + escape(t.skip(1)));
        lemma_scan_escape(t.skip(1), c);
        lemma_scan_append(ScanPos::Inside, e, escape(t.skip(1)), c);
        if c0 == '"' || c0 == '\\' || c0 == '\u{8}' || c0 == '\u{c}' || c0 == '\n' || c0
            == '\r' || c0 == '\t' {
            lemma_scan_esc_two(e[1], c);
            assert(e =~= seq!['\\', e[1]]);
        } else if (c0 as u32) < 0x20 {
            let tail4 = seq!['0', '0', hex_digit((c0 as u32) as nat / 16), hex_digit(
                (c0 as u32) as nat % 16,
            )];
            assert(e =~= seq!['\\', 'u'] + tail4);
            lemma_scan_append(ScanPos::Inside, seq!['\\', 'u'], tail4, c);
            lemma_scan_esc_two('u', c);
            assert(forall|i: int|
                0 <= i < tail4.len() ==> tail4[i] != '"' && #[trigger] tail4[i] != '\\');
            lemma_scan_inside_run(tail4, c);
        } else {
            assert(e =~= seq![c0]);
            lemma_scan_one(ScanPos::Inside, c0, c);
        }
    }
}

/// Decimal digits scan as plain outside text.
proof fn lemma_scan_dec_digits(n: nat)
    ensures
        scan_end(ScanPos::Outside, dec_digits(n)) == ScanPos::Outside,
        count_unquoted(ScanPos::Outside, dec_digits(n), ']') == 0,
    decreases n,
{
    assert(dec_digit(n % 10) != '"' && dec_digit(n % 10) != ']');
    if n < 10 {
        assert(dec_digits(n) =~= seq![dec_digit(n)]);
        let lit = seq![dec_digit(n)];
        assert(forall|i: int| 0 <= i < lit.len() ==> lit[i] != '"' && #[trigger] lit[i] != ']');
        lemma_scan_outside_run(lit, ']');
    } else {
        lemma_scan_dec_digits(n / 10);
        lemma_scan_append(ScanPos::Outside, dec_digits(n / 10), seq![dec_digit(n % 10)], ']');
        let lit = seq![dec_digit(n % 10)];
        assert(forall|i: int| 0 <= i < lit.len() ==> lit[i] != '"' && #[trigger] lit[i] != ']');
        lemma_scan_outside_run(lit, ']');
    }
}

/// Whether a member key is free of quotes and backslashes, as every
/// key of the protocol is.
pub open spec fn quote_free(k: Seq<char>) -> bool {
    forall|i: int| 0 <= i < k.len() ==> k[i] != '"' && #[trigger] k[i] != '\\'
}

/// A rendered value leaves the scanner outside the string and holds no
/// unquoted closing bracket.
proof fn lemma_scan_val(v: JsonVal)
    ensures
        scan_end(ScanPos::Outside, render_val(v)) == ScanPos::Outside,
        count_unquoted(ScanPos::Outside, render_val(v), ']') == 0,
{
    match v {
        JsonVal::VStr(t) => {
            assert(render_val(v) == seq!['"'] + escape(t) + seq!['"']);
            lemma_scan_one(ScanPos::Outside, '"', ']');
            lemma_scan_escape(t, ']');
            lemma_scan_append(ScanPos::Outside, seq!['"'], escape(t), ']');
            lemma_scan_append(ScanPos::Outside, seq!['"'] + escape(t), seq!['"'], ']');
            lemma_scan_one(ScanPos::Inside, '"', ']');
        },
        JsonVal::VNum(n) => {
            lemma_scan_dec_digits(n);
        },
        JsonVal::VBool(b) => {
            if b {
                let lit = seq!['t', 'r', 'u', 'e'];
                assert(forall|i: int|
                    0 <= i < lit.len() ==> lit[i] != '"' && #[trigger] lit[i] != ']');
                lemma_scan_outside_run(lit, ']');
            } else {
                let lit = seq!['f', 'a', 'l', 's', 'e'];
                assert(forall|i: int|
                    0 <= i < lit.len() ==> lit[i] != '"' && #[trigger] lit[i] != ']');
                lemma_scan_outside_run(lit, ']');
            }
        },
    }
}

/// A rendered member with a quote-free key leaves the scanner outside
/// and holds no unquoted closing bracket.
proof fn lemma_scan_member(m: (Seq<char>, JsonVal))
    requires
        quote_free(m.0),
    ensures
        scan_end(ScanPos::Outside, render_member(m)) == ScanPos::Outside,
        count_unquoted(ScanPos::Outside, render_member(m), ']') == 0,
{
    assert(render_member(m) == seq!['"'] + m.0 + seq!['"', ':'] + render_val(m.1));
    lemma_scan_one(ScanPos::Outside, '"', ']');
    lemma_scan_inside_run(m.0, ']');
    lemma_scan_append(ScanPos::Outside, seq!['"'], m.0, ']');
    assert(seq!['"', ':'] =~= seq!['"'] + seq![':']);
    lemma_scan_one(ScanPos::Inside, '"', ']');
    lemma_scan_one(ScanPos::Outside, ':', ']');
    lemma_scan_append(ScanPos::Inside, seq!['"'], seq![':'], ']');
    lemma_scan_append(ScanPos::Outside, seq!['"'] + m.0, seq!['"', ':'], ']');
    lemma_scan_append(ScanPos::Outside, seq!['"'] + m.0 + seq!['"', ':'], render_val(m.1), ']');
    lemma_scan_val(m.1);
}

/// A rendered member list whose keys are quote-free leaves the scanner
/// outside and holds no unquoted closing bracket.
proof fn lemma_scan_members(ms: Seq<(Seq<char>, JsonVal)>)
    requires
        forall|i: int| 0 <= i < ms.len() ==> quote_free(#[trigger] ms[i].0),
    ensures
        scan_end(ScanPos::Outside, render_members(ms)) == ScanPos::Outside,
        count_unquoted(ScanPos::Outside, render_members(ms), ']') == 0,
    decreases ms.len(),
{
    if ms.len() == 0 {
    } else if ms.len() == 1 {
        lemma_scan_member(ms[0]);
    } else {
        assert(forall|i: int| 0 <= i < ms.skip(1).len() ==> quote_free(#[trigger] ms.skip(1)[i].0));
        lemma_scan_members(ms.skip(1));
        lemma_scan_member(ms[0]);
        lemma_scan_one(ScanPos::Outside, ',', ']');
        lemma_scan_append(ScanPos::Outside, render_member(ms[0]), seq![','], ']');
        lemma_scan_append(
            ScanPos::Outside,
            render_member(ms[0]) + seq![','],
            render_members(ms.skip(1)),
            ']',
        );
        assert(render_member(ms[0]) + seq![','] + render_members(ms.skip(1)) == (render_member(
            ms[0],
        ) + seq![',']) + render_members(ms.skip(1)));
    }
}

/// A rendered object whose keys are quote-free leaves the scanner
/// outside and holds no unquoted closing bracket.
proof fn lemma_scan_obj(ms: Seq<(Seq<char>, JsonVal)>)
    requires
        forall|i: int| 0 <= i < ms.len() ==> quote_free(#[trigger] ms[i].0),
    ensures
        scan_end(ScanPos::Outside, render_obj(ms)) == ScanPos::Outside,
        count_unquoted(ScanPos::Outside, render_obj(ms), ']') == 0,
{
    lemma_scan_members(ms);
    lemma_scan_one(ScanPos::Outside, '{', ']');
    lemma_scan_one(ScanPos::Outside, '}', ']');
    lemma_scan_append(ScanPos::Outside, seq!['{'], render_members(ms), ']');
    lemma_scan_append(ScanPos::Outside, seq!['{'] + render_members(ms), seq!['}'], ']');
}

/// A header with no optional field set encodes to the `version` member
/// alone.
pub proof fn lemma_header_no_optionals(h: Header)
    requires
        h.click_events is None,
        h.const_signal is None,
        h.stop_signal is None,
    ensures
        header_pairs(h) == seq![(k_version(), JsonVal::VNum(h.version as nat))],
{
    assert(header_pairs(h) =~= seq![(k_version(), JsonVal::VNum(h.version as nat))]);
}

/// A header with only `click_events` set encodes to exactly `version`
/// and that member: no other optional key appears.
pub proof fn lemma_header_only_click_events(h: Header, b: bool)
    requires
        h.click_events == Some(b),
        h.const_signal is None,
        h.stop_signal is None,
    ensures
        header_pairs(h) == seq![
            (k_version(), JsonVal::VNum(h.version as nat)),
            (k_click_events(), JsonVal::VBool(b)),
        ],
{
    assert(header_pairs(h) =~= seq![
        (k_version(), JsonVal::VNum(h.version as nat)),
        (k_click_events(), JsonVal::VBool(b)),
    ]);
}

/// A header with only `const_signal` set encodes to exactly `version`
/// and that member: no other optional key appears.
pub proof fn lemma_header_only_const_signal(h: Header, n: u32)
    requires
        h.click_events is None,
        h.const_signal == Some(n),
        h.stop_signal is None,
    ensures
        header_pairs(h) == seq![
            (k_version(), JsonVal::VNum(h.version as nat)),
            (k_const_signal(), JsonVal::VNum(n as nat)),
        ],
{
    assert(header_pairs(h) =~= seq![
        (k_version(), JsonVal::VNum(h.version as nat)),
        (k_const_signal(), JsonVal::VNum(n as nat)),
    ]);
}

/// A header with only `stop_signal` set encodes to exactly `version`
/// and that member: no other optional key appears.
pub proof fn lemma_header_only_stop_signal(h: Header, n: u32)
    requires
        h.click_events is None,
        h.const_signal is None,
        h.stop_signal == Some(n),
    ensures
        header_pairs(h) == seq![
            (k_version(), JsonVal::VNum(h.version as nat)),
            (k_stop_signal(), JsonVal::VNum(n as nat)),
        ],
{
    assert(header_pairs(h) =~= seq![
        (k_version(), JsonVal::VNum(h.version as nat)),
        (k_stop_signal(), JsonVal::VNum(n as nat)),
    ]);
}

/// Whatever has been emitted, the stream begins byte-exactly with the
/// header JSON, a newline, and the body array opener.
pub proof fn lemma_stream_framing(h: Header, bs: Seq<Block>)
    ensures
        stream_output(h, bs).len() >= stream_prefix(h).len(),
        stream_output(h, bs).take(stream_prefix(h).len() as int) == stream_prefix(h),
{
    assert((stream_prefix(h) + snapshot_stream(bs)).take(stream_prefix(h).len() as int)
        =~= stream_prefix(h));
}

/// Decimal digits contain no closing bracket.
proof fn lemma_digits_no_close(n: nat)
    ensures
        count_char(dec_digits(n), ']') == 0,
    decreases n,
{
    assert(dec_digit(n % 10) != ']');
    if n < 10 {
        assert(dec_digits(n) =~= seq![dec_digit(n)]);
        lemma_count_not_in(seq![dec_digit(n)], ']');
    } else {
        lemma_digits_no_close(n / 10);
        lemma_count_append(dec_digits(n / 10), seq![dec_digit(n % 10)], ']');
        lemma_count_not_in(seq![dec_digit(n % 10)], ']');
    }
}

/// A rendering of members none of which contains a closing bracket
/// contains none either.
proof fn lemma_members_no_close(ms: Seq<(Seq<char>, JsonVal)>)
    requires
        forall|i: int|
            0 <= i < ms.len() ==> count_char(#[trigger] render_member(ms[i]), ']') == 0,
    ensures
        count_char(render_members(ms), ']') == 0,
    decreases ms.len(),
{
    if ms.len() == 0 {
    } else if ms.len() == 1 {
        assert(count_char(render_member(ms[0]), ']') == 0);
    } else {
        assert(forall|i: int|
            0 <= i < ms.skip(1).len() ==> count_char(
                #[trigger] render_member(ms.skip(1)[i]),
                ']',
            ) == 0);
        lemma_members_no_close(ms.skip(1));
        lemma_count_append(render_member(ms[0]), seq![','], ']');
        lemma_count_append(render_member(ms[0]) + seq![','], render_members(ms.skip(1)), ']');
        lemma_count_not_in(seq![','], ']');
        assert(render_member(ms[0]) + seq![','] + render_members(ms.skip(1)) == (render_member(
            ms[0],
        ) + seq![',']) + render_members(ms.skip(1)));
    }
}

/// The header line never contains a closing bracket: its keys are fixed
/// and its values are digits and boolean literals.
pub proof fn lemma_header_no_close(h: Header)
    ensures
        count_char(header_json(h), ']') == 0,
{
    let ms = header_pairs(h);
    assert forall|i: int| 0 <= i < ms.len() implies count_char(
        #[trigger] render_member(ms[i]),
        ']',
    ) == 0 by {
        let m = ms[i];
        lemma_count_not_in(seq!['"'], ']');
        lemma_count_not_in(k_version(), ']');
        lemma_count_not_in(k_click_events(), ']');
        lemma_count_not_in(k_const_signal(), ']');
        lemma_count_not_in(k_stop_signal(), ']');
        lemma_count_not_in(seq!['"', ':'], ']');
        lemma_count_not_in(seq!['t', 'r', 'u', 'e'], ']');
        lemma_count_not_in(seq!['f', 'a', 'l', 's', 'e'], ']');
        match m.1 {
            JsonVal::VNum(n) => {
                lemma_digits_no_close(n);
            },
            _ => {},
        }
        lemma_count_append(seq!['"'], m.0, ']');
        lemma_count_append(seq!['"'] + m.0, seq!['"', ':'], ']');
        lemma_count_append(seq!['"'] + m.0 + seq!['"', ':'], crate::json::render_val(m.1), ']');
    }
    lemma_members_no_close(ms);
    lemma_count_append(seq!['{'], render_members(ms), ']');
    lemma_count_append(seq!['{'] + render_members(ms), seq!['}'], ']');
    lemma_count_not_in(seq!['{'], ']');
    lemma_count_not_in(seq!['}'], ']');
}

/// After N ticks the body holds exactly N snapshot fragments, each one
/// closed by `],`, and — as long as no block text itself contains a
/// closing bracket — the whole stream holds exactly N `]` characters
/// and none that would close the outer array.  For block texts without
/// that restriction, `lemma_stream_never_closed` counts the brackets
/// that stand outside string literals instead.
pub proof fn lemma_stream_shape(h: Header, bs: Seq<Block>)
    requires
        forall|i: int| 0 <= i < bs.len() ==> count_char(#[trigger] block_json(bs[i]), ']') == 0,
    ensures
        stream_output(h, bs) == stream_prefix(h) + snapshot_stream(bs),
        count_char(snapshot_stream(bs), ']') == bs.len(),
        count_char(stream_output(h, bs), ']') == bs.len(),
    decreases bs.len(),
{
    if bs.len() == 0 {
        lemma_header_no_close(h);
        lemma_count_append(header_json(h), seq!['\n', '['], ']');
        lemma_count_not_in(seq!['\n', '['], ']');
        lemma_count_append(stream_prefix(h), snapshot_stream(bs), ']');
    } else {
        assert(forall|i: int|
            0 <= i < bs.drop_last().len() ==> count_char(
                #[trigger] block_json(bs.drop_last()[i]),
                ']',
            ) == 0);
        lemma_stream_shape(h, bs.drop_last());
        let b = bs.last();
        assert(count_char(block_json(b), ']') == 0);
        lemma_count_append(seq!['['], block_json(b), ']');
        lemma_count_append(seq!['['] + block_json(b), seq![']', ','], ']');
        lemma_count_not_in(seq!['['], ']');
        lemma_count_two(']', ',', ']');
        assert(count_char(seq![']', ','], ']') == 1);
        assert(count_char(snapshot_fragment(b), ']') == 1);
        lemma_count_append(snapshot_stream(bs.drop_last()), snapshot_fragment(b), ']');
        lemma_count_append(stream_prefix(h), snapshot_stream(bs), ']');
        lemma_header_no_close(h);
        lemma_count_append(header_json(h), seq!['\n', '['], ']');
        lemma_count_not_in(seq!['\n', '['], ']');
    }
}

/// Powers of ten.
pub open spec fn pow10(k: nat) -> nat
    decreases k,
{
    if k == 0 {
        1
    } else {
        10 * pow10((k - 1) as nat)
    }
}

/// The digits of `n` are consumed as one run, scaling the accumulator.
proof fn lemma_digits_parse(n: nat, acc: nat, rest: Seq<char>)
    ensures
        p_digits(crate::json::dec_digits(n) + rest, acc) == p_digits(
            rest,
            acc * pow10(crate::json::dec_digits(n).len()) + n,
        ),
    decreases n,
{
    let ds = crate::json::dec_digits(n);
    if n < 10 {
        assert(ds =~= seq![crate::json::dec_digit(n)]);
        let s = ds + rest;
        assert(s[0] == crate::json::dec_digit(n));
        assert(is_digit(s[0]));
        assert(digit_val(s[0]) == n);
        assert(s.skip(1) =~= rest);
        assert(pow10(0) == 1);
        assert(pow10(1) == 10);
        assert(p_digits(s, acc) == p_digits(rest, acc * 10 + n));
    } else {
        let hi = crate::json::dec_digits(n / 10);
        let d = crate::json::dec_digit(n % 10);
        assert(ds == hi + seq![d]);
        let rest2 = seq![d] + rest;
        assert(ds + rest =~= hi + rest2);
        lemma_digits_parse(n / 10, acc, rest2);
        assert(rest2[0] == d);
        assert(is_digit(d));
        assert(digit_val(d) == n % 10);
        assert(rest2.skip(1) =~= rest);
        let a1 = acc * pow10(hi.len()) + n / 10;
        assert(p_digits(rest2, a1) == p_digits(rest, a1 * 10 + n % 10));
        assert(ds.len() == hi.len() + 1);
        assert(pow10(ds.len()) == 10 * pow10(hi.len()));
        assert((acc * pow10(hi.len()) + n / 10) * 10 + n % 10 == acc * (10 * pow10(hi.len())) + ((n
            / 10) * 10 + n % 10)) by (nonlinear_arith);
        assert((n / 10) * 10 + n % 10 == n);
    }
}

/// The first digit of a positive number is never zero, and every
/// rendering starts with a digit.
proof fn lemma_dec_digits_first(n: nat)
    ensures
        crate::json::dec_digits(n).len() >= 1,
        is_digit(crate::json::dec_digits(n)[0]),
        n > 0 ==> crate::json::dec_digits(n)[0] != '0',
        n == 0 ==> crate::json::dec_digits(n) == seq!['0'],
    decreases n,
{
    if n < 10 {
        assert(crate::json::dec_digits(n) =~= seq![crate::json::dec_digit(n)]);
    } else {
        lemma_dec_digits_first(n / 10);
        assert(crate::json::dec_digits(n)[0] == crate::json::dec_digits(n / 10)[0]);
    }
}

/// The decimal rendering of a 32-bit value followed by a non-digit
/// parses back to the value.
proof fn lemma_number_parse(n: nat, rest: Seq<char>)
    requires
        n <= 0xFFFF_FFFF,
        rest.len() == 0 || !is_digit(rest[0]),
    ensures
        p_number(crate::json::dec_digits(n) + rest) == Some((n, rest)),
{
    let ds = crate::json::dec_digits(n);
    let s = ds + rest;
    lemma_dec_digits_first(n);
    assert(s[0] == ds[0]);
    if n == 0 {
        assert(s[0] == '0');
        assert(s.skip(1) =~= rest);
    } else {
        assert(s[0] != '0');
        lemma_digits_parse(n, 0, rest);
        assert(0nat * pow10(ds.len()) == 0) by (nonlinear_arith);
        assert(p_digits(s, 0) == p_digits(rest, n));
        if rest.len() > 0 {
            assert(!is_digit(rest[0]));
        }
        assert(p_digits(rest, n) == (n, rest));
    }
}

/// Whether some member of `ms` has key `q`.
pub open spec fn has_key(ms: Seq<(Seq<char>, JsonVal)>, q: Seq<char>) -> bool {
    exists|i: int| 0 <= i < ms.len() && ms[i].0 == q
}

/// Key presence and membership in a one-member list.
proof fn lemma_keys_single(m: (Seq<char>, JsonVal))
    ensures
        forall|q: Seq<char>| #[trigger] has_key(seq![m], q) <==> m.0 == q,
        forall|x: (Seq<char>, JsonVal)| #[trigger] seq![m].contains(x) <==> x == m,
{
    assert(seq![m][0] == m);
    assert forall|q: Seq<char>| #[trigger] has_key(seq![m], q) <==> m.0 == q by {
        if has_key(seq![m], q) {
            let i = choose|i: int| 0 <= i < seq![m].len() && seq![m][i].0 == q;
            assert(seq![m][i] == m);
        }
        if m.0 == q {
            assert(seq![m][0].0 == q);
        }
    }
    assert forall|x: (Seq<char>, JsonVal)| #[trigger] seq![m].contains(x) <==> x == m by {
        if seq![m].contains(x) {
            let i = choose|i: int| 0 <= i < seq![m].len() && seq![m][i] == x;
            assert(seq![m][i] == m);
        }
        if x == m {
            assert(seq![m][0] == x);
        }
    }
}

/// Key presence and membership across a push.
proof fn lemma_keys_push(ms: Seq<(Seq<char>, JsonVal)>, m: (Seq<char>, JsonVal))
    ensures
        forall|q: Seq<char>| #[trigger] has_key(ms.push(m), q) <==> (has_key(ms, q) || m.0 == q),
        forall|x: (Seq<char>, JsonVal)| #[trigger] ms.push(m).contains(x) <==> (ms.contains(x)
            || x == m),
{
    assert(ms.push(m)[ms.len() as int] == m);
    assert forall|q: Seq<char>| #[trigger] has_key(ms.push(m), q) <==> (has_key(ms, q) || m.0
        == q) by {
        if has_key(ms, q) {
            let i = choose|i: int| 0 <= i < ms.len() && ms[i].0 == q;
            assert(ms.push(m)[i].0 == q);
        }
        if m.0 == q {
            assert(ms.push(m)[ms.len() as int].0 == q);
        }
        if has_key(ms.push(m), q) && !has_key(ms, q) {
            let i = choose|i: int| 0 <= i < ms.push(m).len() && ms.push(m)[i].0 == q;
            if i < ms.len() {
                assert(ms[i].0 == q);
            }
        }
    }
    assert forall|x: (Seq<char>, JsonVal)| #[trigger] ms.push(m).contains(x) <==> (ms.contains(x)
        || x == m) by {
        if ms.contains(x) {
            let i = choose|i: int| 0 <= i < ms.len() && ms[i] == x;
            assert(ms.push(m)[i] == x);
        }
        if x == m {
            assert(ms.push(m)[ms.len() as int] == x);
        }
        if ms.push(m).contains(x) && !ms.contains(x) {
            let i = choose|i: int| 0 <= i < ms.push(m).len() && ms.push(m)[i] == x;
            if i < ms.len() {
                assert(ms[i] == x);
            }
        }
    }
}

/// Key presence and membership across an optional string member.
proof fn lemma_keys_opt_str(ms: Seq<(Seq<char>, JsonVal)>, k: Seq<char>, f: Option<String>)
    ensures
        forall|q: Seq<char>| #[trigger] has_key(opt_str_pair(ms, k, f), q) <==> (has_key(ms, q)
            || (f is Some && k == q)),
        forall|x: (Seq<char>, JsonVal)| #[trigger] opt_str_pair(ms, k, f).contains(x) <==> (
        ms.contains(x) || (f matches Some(s) && x == (k, JsonVal::VStr(s@)))),
{
    match f {
        Some(s) => {
            lemma_keys_push(ms, (k, JsonVal::VStr(s@)));
        },
        None => {},
    }
}

/// Key presence and membership across an optional small numeric member.
proof fn lemma_keys_opt_u8(ms: Seq<(Seq<char>, JsonVal)>, k: Seq<char>, f: Option<u8>)
    ensures
        forall|q: Seq<char>| #[trigger] has_key(opt_u8_pair(ms, k, f), q) <==> (has_key(ms, q) || (
        f is Some && k == q)),
        forall|x: (Seq<char>, JsonVal)| #[trigger] opt_u8_pair(ms, k, f).contains(x) <==> (
        ms.contains(x) || (f matches Some(v) && x == (k, JsonVal::VNum(v as nat)))),
{
    match f {
        Some(v) => {
            lemma_keys_push(ms, (k, JsonVal::VNum(v as nat)));
        },
        None => {},
    }
}

/// Key presence and membership across an optional numeric member.
proof fn lemma_keys_opt_u32(ms: Seq<(Seq<char>, JsonVal)>, k: Seq<char>, f: Option<u32>)
    ensures
        forall|q: Seq<char>| #[trigger] has_key(opt_u32_pair(ms, k, f), q) <==> (has_key(ms, q)
            || (f is Some && k == q)),
        forall|x: (Seq<char>, JsonVal)| #[trigger] opt_u32_pair(ms, k, f).contains(x) <==> (
        ms.contains(x) || (f matches Some(v) && x == (k, JsonVal::VNum(v as nat)))),
{
    match f {
        Some(v) => {
            lemma_keys_push(ms, (k, JsonVal::VNum(v as nat)));
        },
        None => {},
    }
}

/// Key presence and membership across an optional boolean member.
proof fn lemma_keys_opt_bool(ms: Seq<(Seq<char>, JsonVal)>, k: Seq<char>, f: Option<bool>)
    ensures
        forall|q: Seq<char>| #[trigger] has_key(opt_bool_pair(ms, k, f), q) <==> (has_key(ms, q)
            || (f is Some && k == q)),
        forall|x: (Seq<char>, JsonVal)| #[trigger] opt_bool_pair(ms, k, f).contains(x) <==> (
        ms.contains(x) || (f matches Some(v) && x == (k, JsonVal::VBool(v)))),
{
    match f {
        Some(v) => {
            lemma_keys_push(ms, (k, JsonVal::VBool(v)));
        },
        None => {},
    }
}

/// A block's encoding has a member for exactly the fields that are set:
/// an unset optional field's key never appears, and a set field appears
/// with its exact value.
#[verifier::rlimit(100)]
#[verifier::spinoff_prover]
pub proof fn lemma_block_keys(b: Block)
    ensures
        has_key(block_pairs(b), k_full_text()),
        block_pairs(b).contains((k_full_text(), JsonVal::VStr(b.full_text@))),
        has_key(block_pairs(b), k_short_text()) <==> b.short_text is Some,
        b.short_text matches Some(v) ==> block_pairs(b).contains(((k_short_text(), JsonVal::VStr(v@)))),
        has_key(block_pairs(b), k_name()) <==> b.name is Some,
        b.name matches Some(v) ==> block_pairs(b).contains(((k_name(), JsonVal::VStr(v@)))),
        has_key(block_pairs(b), k_color()) <==> b.color is Some,
        b.color matches Some(v) ==> block_pairs(b).contains(((k_color(), JsonVal::VStr(v@)))),
        has_key(block_pairs(b), k_background()) <==> b.background is Some,
        b.background matches Some(v) ==> block_pairs(b).contains(((k_background(), JsonVal::VStr(v@)))),
        has_key(block_pairs(b), k_border()) <==> b.border is Some,
        b.border matches Some(v) ==> block_pairs(b).contains(((k_border(), JsonVal::VStr(v@)))),
        has_key(block_pairs(b), k_border_top()) <==> b.border_top is Some,
        b.border_top matches Some(v) ==> block_pairs(b).contains(((k_border_top(), JsonVal::VNum(v as nat)))),
        has_key(block_pairs(b), k_border_right()) <==> b.border_right is Some,
        b.border_right matches Some(v) ==> block_pairs(b).contains(((k_border_right(), JsonVal::VNum(v as nat)))),
        has_key(block_pairs(b), k_border_bottom()) <==> b.border_bottom is Some,
        b.border_bottom matches Some(v) ==> block_pairs(b).contains(((k_border_bottom(), JsonVal::VNum(v as nat)))),
        has_key(block_pairs(b), k_border_left()) <==> b.border_left is Some,
        b.border_left matches Some(v) ==> block_pairs(b).contains(((k_border_left(), JsonVal::VNum(v as nat)))),
        has_key(block_pairs(b), k_min_width()) <==> b.min_width is Some,
        b.min_width matches Some(v) ==> block_pairs(b).contains(((k_min_width(), JsonVal::VNum(v as nat)))),
        has_key(block_pairs(b), k_align()) <==> b.align is Some,
        b.align matches Some(v) ==> block_pairs(b).contains(((k_align(), JsonVal::VStr(v@)))),
        has_key(block_pairs(b), k_instance()) <==> b.instance is Some,
        b.instance matches Some(v) ==> block_pairs(b).contains(((k_instance(), JsonVal::VStr(v@)))),
        has_key(block_pairs(b), k_urgent()) <==> b.urgent is Some,
        b.urgent matches Some(v) ==> block_pairs(b).contains(((k_urgent(), JsonVal::VBool(v)))),
        has_key(block_pairs(b), k_separator()) <==> b.separator is Some,
        b.separator matches Some(v) ==> block_pairs(b).contains(((k_separator(), JsonVal::VBool(v)))),
        has_key(block_pairs(b), k_separator_block_width()) <==> b.separator_block_width is Some,
        b.separator_block_width matches Some(v) ==> block_pairs(b).contains(((k_separator_block_width(), JsonVal::VNum(v as nat)))),
        has_key(block_pairs(b), k_markup()) <==> b.markup is Some,
        b.markup matches Some(v) ==> block_pairs(b).contains(((k_markup(), JsonVal::VStr(v@)))),
{
    lemma_block_keys_distinct();
    let ms0 = seq![(k_full_text(), JsonVal::VStr(b.full_text@))];
    lemma_keys_single((k_full_text(), JsonVal::VStr(b.full_text@)));
    let ms1 = opt_str_pair(ms0, k_short_text(), b.short_text);
    lemma_keys_opt_str(ms0, k_short_text(), b.short_text);
    let ms2 = opt_str_pair(ms1, k_name(), b.name);
    lemma_keys_opt_str(ms1, k_name(), b.name);
    let ms3 = opt_str_pair(ms2, k_color(), b.color);
    lemma_keys_opt_str(ms2, k_color(), b.color);
    let ms4 = opt_str_pair(ms3, k_background(), b.background);
    lemma_keys_opt_str(ms3, k_background(), b.background);
    let ms5 = opt_str_pair(ms4, k_border(), b.border);
    lemma_keys_opt_str(ms4, k_border(), b.border);
    let ms6 = opt_u8_pair(ms5, k_border_top(), b.border_top);
    lemma_keys_opt_u8(ms5, k_border_top(), b.border_top);
    let ms7 = opt_u8_pair(ms6, k_border_right(), b.border_right);
    lemma_keys_opt_u8(ms6, k_border_right(), b.border_right);
    let ms8 = opt_u8_pair(ms7, k_border_bottom(), b.border_bottom);
    lemma_keys_opt_u8(ms7, k_border_bottom(), b.border_bottom);
    let ms9 = opt_u8_pair(ms8, k_border_left(), b.border_left);
    lemma_keys_opt_u8(ms8, k_border_left(), b.border_left);
    let ms10 = opt_u32_pair(ms9, k_min_width(), b.min_width);
    lemma_keys_opt_u32(ms9, k_min_width(), b.min_width);
    let ms11 = opt_str_pair(ms10, k_align(), b.align);
    lemma_keys_opt_str(ms10, k_align(), b.align);
    let ms12 = opt_str_pair(ms11, k_instance(), b.instance);
    lemma_keys_opt_str(ms11, k_instance(), b.instance);
    let ms13 = opt_bool_pair(ms12, k_urgent(), b.urgent);
    lemma_keys_opt_bool(ms12, k_urgent(), b.urgent);
    let ms14 = opt_bool_pair(ms13, k_separator(), b.separator);
    lemma_keys_opt_bool(ms13, k_separator(), b.separator);
    let ms15 = opt_u32_pair(ms14, k_separator_block_width(), b.separator_block_width);
    lemma_keys_opt_u32(ms14, k_separator_block_width(), b.separator_block_width);
    let ms16 = opt_str_pair(ms15, k_markup(), b.markup);
    lemma_keys_opt_str(ms15, k_markup(), b.markup);
    assert(block_pairs(b) == ms16);
}

/// The accumulator with the numeric field named by `k` set to `n`.
pub open spec fn set_num_field(k: Seq<char>, n: nat, acc: EventAcc) -> EventAcc {
    if k == k_x() {
        EventAcc { x: Some(n), ..acc }
    } else if k == k_y() {
        EventAcc { y: Some(n), ..acc }
    } else if k == k_button() {
        EventAcc { button: Some(n), ..acc }
    } else if k == k_event() {
        EventAcc { event: Some(n), ..acc }
    } else if k == k_relative_x() {
        EventAcc { relative_x: Some(n), ..acc }
    } else if k == k_relative_y() {
        EventAcc { relative_y: Some(n), ..acc }
    } else if k == k_width() {
        EventAcc { width: Some(n), ..acc }
    } else {
        EventAcc { height: Some(n), ..acc }
    }
}

/// One rendered string member parses back: the key is recognized and
/// the decoded text stored.
#[verifier::rlimit(100)]
#[verifier::spinoff_prover]
proof fn lemma_member_parse_str(k: Seq<char>, t: Seq<char>, acc: EventAcc, rest: Seq<char>)
    requires
        k == crate::protocol::k_name() || k == crate::protocol::k_instance(),
        k == crate::protocol::k_name() ==> acc.name is None,
        k == crate::protocol::k_instance() ==> acc.instance is None,
        rest.len() > 0,
        !is_ws(rest[0]),
    ensures
        p_member(render_member((k, JsonVal::VStr(t))) + rest, acc) == Some(
            (
                if k == crate::protocol::k_name() {
                    EventAcc { name: Some(t), ..acc }
                } else {
                    EventAcc { instance: Some(t), ..acc }
                },
                rest,
            ),
        ),
{
    lemma_event_keys_distinct();
    assert(plain(crate::protocol::k_name()));
    assert(plain(crate::protocol::k_instance()));
    let rv = seq!['"'] + escape(t) + seq!['"'];
    let s = render_member((k, JsonVal::VStr(t))) + rest;
    assert(s[0] == '"');
    assert(!is_ws(s[0]));
    assert(skip_ws(s) == s);
    let rest1 = seq![':'] + (rv + rest);
    assert(s.skip(1) =~= k + seq!['"'] + rest1);
    lemma_plain_string_parse(k, rest1);
    assert(rest1[0] == ':');
    assert(!is_ws(rest1[0]));
    assert(skip_ws(rest1) == rest1);
    assert(rest1.skip(1) =~= rv + rest);
    assert((rv + rest)[0] == '"');
    assert(skip_ws(rv + rest) == rv + rest);
    assert((rv + rest).skip(1) =~= escape(t) + seq!['"'] + rest);
    lemma_escape_string_parse(t, rest);
    assert(p_str_value(rv + rest) == Some((t, rest)));
}

/// One rendered numeric member parses back: the key is recognized and
/// the decoded value stored.
#[verifier::rlimit(100)]
#[verifier::spinoff_prover]
proof fn lemma_member_parse_num(k: Seq<char>, n: nat, acc: EventAcc, rest: Seq<char>)
    requires
        n <= 0xFFFF_FFFF,
        k == k_x() || k == k_y() || k == k_button() || k == k_event() || k == k_relative_x() || k
            == k_relative_y() || k == k_width() || k == k_height(),
        k == k_x() ==> acc.x is None,
        k == k_y() ==> acc.y is None,
        k == k_button() ==> acc.button is None,
        k == k_event() ==> acc.event is None,
        k == k_relative_x() ==> acc.relative_x is None,
        k == k_relative_y() ==> acc.relative_y is None,
        k == k_width() ==> acc.width is None,
        k == k_height() ==> acc.height is None,
        rest.len() > 0,
        !is_ws(rest[0]),
        !is_digit(rest[0]),
    ensures
        p_member(render_member((k, JsonVal::VNum(n))) + rest, acc) == Some(
            (set_num_field(k, n, acc), rest),
        ),
{
    lemma_event_keys_distinct();
    assert(plain(k_x()));
    assert(plain(k_y()));
    assert(plain(k_button()));
    assert(plain(k_event()));
    assert(plain(k_relative_x()));
    assert(plain(k_relative_y()));
    assert(plain(k_width()));
    assert(plain(k_height()));
    let rv = crate::json::dec_digits(n);
    let s = render_member((k, JsonVal::VNum(n))) + rest;
    assert(s[0] == '"');
    assert(!is_ws(s[0]));
    assert(skip_ws(s) == s);
    let rest1 = seq![':'] + (rv + rest);
    assert(s.skip(1) =~= k + seq!['"'] + rest1);
    lemma_plain_string_parse(k, rest1);
    assert(rest1[0] == ':');
    assert(!is_ws(rest1[0]));
    assert(skip_ws(rest1) == rest1);
    assert(rest1.skip(1) =~= rv + rest);
    lemma_dec_digits_first(n);
    assert((rv + rest)[0] == rv[0]);
    assert(!is_ws(rv[0]));
    assert(skip_ws(rv + rest) == rv + rest);
    lemma_number_parse(n, rest);
    assert(p_number(rv + rest) == Some((n, rest)));
}

/// The `k`-th member of an encoded event, in declaration order.
pub open spec fn ev_member(d: EventData, k: int) -> (Seq<char>, JsonVal) {
    if k == 0 {
        (crate::protocol::k_name(), JsonVal::VStr(d.name))
    } else if k == 1 {
        (crate::protocol::k_instance(), JsonVal::VStr(d.instance))
    } else if k == 2 {
        (crate::protocol::k_x(), JsonVal::VNum(d.x))
    } else if k == 3 {
        (crate::protocol::k_y(), JsonVal::VNum(d.y))
    } else if k == 4 {
        (crate::protocol::k_button(), JsonVal::VNum(d.button))
    } else if k == 5 {
        (crate::protocol::k_event(), JsonVal::VNum(d.event))
    } else if k == 6 {
        (crate::protocol::k_relative_x(), JsonVal::VNum(d.relative_x))
    } else if k == 7 {
        (crate::protocol::k_relative_y(), JsonVal::VNum(d.relative_y))
    } else if k == 8 {
        (crate::protocol::k_width(), JsonVal::VNum(d.width))
    } else {
        (crate::protocol::k_height(), JsonVal::VNum(d.height))
    }
}

/// The rendered tail of an encoded event from its `k`-th member on,
/// including the closing brace.
pub open spec fn ev_sfx(d: EventData, k: int) -> Seq<char>
    decreases 9 - k,
{
    if k >= 9 {
        render_member(ev_member(d, 9)) + seq!['}']
    } else {
        render_member(ev_member(d, k)) + (seq![','] + ev_sfx(d, k + 1))
    }
}

/// The parser's accumulator after the first `k` members of an encoded
/// event have been consumed.
pub open spec fn ev_acc(d: EventData, k: int) -> EventAcc
    decreases k,
{
    if k <= 0 {
        acc_empty()
    } else if k == 1 {
        EventAcc { name: Some(d.name), ..ev_acc(d, 0) }
    } else if k == 2 {
        EventAcc { instance: Some(d.instance), ..ev_acc(d, 1) }
    } else if k == 3 {
        EventAcc { x: Some(d.x), ..ev_acc(d, 2) }
    } else if k == 4 {
        EventAcc { y: Some(d.y), ..ev_acc(d, 3) }
    } else if k == 5 {
        EventAcc { button: Some(d.button), ..ev_acc(d, 4) }
    } else if k == 6 {
        EventAcc { event: Some(d.event), ..ev_acc(d, 5) }
    } else if k == 7 {
        EventAcc { relative_x: Some(d.relative_x), ..ev_acc(d, 6) }
    } else if k == 8 {
        EventAcc { relative_y: Some(d.relative_y), ..ev_acc(d, 7) }
    } else if k == 9 {
        EventAcc { width: Some(d.width), ..ev_acc(d, 8) }
    } else {
        EventAcc { height: Some(d.height), ..ev_acc(d, 9) }
    }
}

/// From member `k` of the second half on, the rendered tail is
/// consumed member by member and fills in the remaining fields.
#[verifier::rlimit(100)]
#[verifier::spinoff_prover]
proof fn lemma_ev_chain_hi(d: EventData, k: int)
    requires
        5 <= k <= 9,
        d.x <= 0xFFFF_FFFF,
        d.y <= 0xFFFF_FFFF,
        d.button <= 0xFFFF_FFFF,
        d.event <= 0xFFFF_FFFF,
        d.relative_x <= 0xFFFF_FFFF,
        d.relative_y <= 0xFFFF_FFFF,
        d.width <= 0xFFFF_FFFF,
        d.height <= 0xFFFF_FFFF,
    ensures
        p_members(ev_sfx(d, k), ev_acc(d, k)) == Some((ev_acc(d, 10), Seq::<char>::empty())),
    decreases 9 - k,
{
    if k == 5 {
        assert(ev_acc(d, 0) == acc_empty());
        assert(ev_acc(d, 1) == (EventAcc { name: Some(d.name), instance: None, x: None, y: None, button: None, event: None, relative_x: None, relative_y: None, width: None, height: None }));
        assert(ev_acc(d, 2) == (EventAcc { name: Some(d.name), instance: Some(d.instance), x: None, y: None, button: None, event: None, relative_x: None, relative_y: None, width: None, height: None }));
        assert(ev_acc(d, 3) == (EventAcc { name: Some(d.name), instance: Some(d.instance), x: Some(d.x), y: None, button: None, event: None, relative_x: None, relative_y: None, width: None, height: None }));
        assert(ev_acc(d, 4) == (EventAcc { name: Some(d.name), instance: Some(d.instance), x: Some(d.x), y: Some(d.y), button: None, event: None, relative_x: None, relative_y: None, width: None, height: None }));
        assert(ev_acc(d, 5) == (EventAcc { name: Some(d.name), instance: Some(d.instance), x: Some(d.x), y: Some(d.y), button: Some(d.button), event: None, relative_x: None, relative_y: None, width: None, height: None }));
        let rest = seq![','] + ev_sfx(d, 6);
        assert(rest[0] == ',');
        lemma_member_parse_num(crate::protocol::k_event(), d.event, ev_acc(d, 5), rest);
        assert(p_member(ev_sfx(d, 5), ev_acc(d, 5)) == Some((ev_acc(d, 6), rest)));
        assert(skip_ws(rest) == rest);
        assert(rest.skip(1) =~= ev_sfx(d, 6));
        assert(ev_sfx(d, 5).len() > ev_sfx(d, 6).len());
        lemma_ev_chain_hi(d, 6);
        assert(p_members(ev_sfx(d, 5), ev_acc(d, 5)) == p_members(ev_sfx(d, 6), ev_acc(d, 6)));
    }
    else if k == 6 {
        assert(ev_acc(d, 0) == acc_empty());
        assert(ev_acc(d, 1) == (EventAcc { name: Some(d.name), instance: None, x: None, y: None, button: None, event: None, relative_x: None, relative_y: None, width: None, height: None }));
        assert(ev_acc(d, 2) == (EventAcc { name: Some(d.name), instance: Some(d.instance), x: None, y: None, button: None, event: None, relative_x: None, relative_y: None, width: None, height: None }));
        assert(ev_acc(d, 3) == (EventAcc { name: Some(d.name), instance: Some(d.instance), x: Some(d.x), y: None, button: None, event: None, relative_x: None, relative_y: None, width: None, height: None }));
        assert(ev_acc(d, 4) == (EventAcc { name: Some(d.name), instance: Some(d.instance), x: Some(d.x), y: Some(d.y), button: None, event: None, relative_x: None, relative_y: None, width: None, height: None }));
        assert(ev_acc(d, 5) == (EventAcc { name: Some(d.name), instance: Some(d.instance), x: Some(d.x), y: Some(d.y), button: Some(d.button), event: None, relative_x: None, relative_y: None, width: None, height: None }));
        assert(ev_acc(d, 6) == (EventAcc { name: Some(d.name), instance: Some(d.instance), x: Some(d.x), y: Some(d.y), button: Some(d.button), event: Some(d.event), relative_x: None, relative_y: None, width: None, height: None }));
        let rest = seq![','] + ev_sfx(d, 7);
        assert(rest[0] == ',');
        lemma_member_parse_num(crate::protocol::k_relative_x(), d.relative_x, ev_acc(d, 6), rest);
        assert(p_member(ev_sfx(d, 6), ev_acc(d, 6)) == Some((ev_acc(d, 7), rest)));
        assert(skip_ws(rest) == rest);
        assert(rest.skip(1) =~= ev_sfx(d, 7));
        assert(ev_sfx(d, 6).len() > ev_sfx(d, 7).len());
        lemma_ev_chain_hi(d, 7);
        assert(p_members(ev_sfx(d, 6), ev_acc(d, 6)) == p_members(ev_sfx(d, 7), ev_acc(d, 7)));
    }
    else if k == 7 {
        assert(ev_acc(d, 0) == acc_empty());
        assert(ev_acc(d, 1) == (EventAcc { name: Some(d.name), instance: None, x: None, y: None, button: None, event: None, relative_x: None, relative_y: None, width: None, height: None }));
        assert(ev_acc(d, 2) == (EventAcc { name: Some(d.name), instance: Some(d.instance), x: None, y: None, button: None, event: None, relative_x: None, relative_y: None, width: None, height: None }));
        assert(ev_acc(d, 3) == (EventAcc { name: Some(d.name), instance: Some(d.instance), x: Some(d.x), y: None, button: None, event: None, relative_x: None, relative_y: None, width: None, height: None }));
        assert(ev_acc(d, 4) == (EventAcc { name: Some(d.name), instance: Some(d.instance), x: Some(d.x), y: Some(d.y), button: None, event: None, relative_x: None, relative_y: None, width: None, height: None }));
        assert(ev_acc(d, 5) == (EventAcc { name: Some(d.name), instance: Some(d.instance), x: Some(d.x), y: Some(d.y), button: Some(d.button), event: None, relative_x: None, relative_y: None, width: None, height: None }));
        assert(ev_acc(d, 6) == (EventAcc { name: Some(d.name), instance: Some(d.instance), x: Some(d.x), y: Some(d.y), button: Some(d.button), event: Some(d.event), relative_x: None, relative_y: None, width: None, height: None }));
        assert(ev_acc(d, 7) == (EventAcc { name: Some(d.name), instance: Some(d.instance), x: Some(d.x), y: Some(d.y), button: Some(d.button), event: Some(d.event), relative_x: Some(d.relative_x), relative_y: None, width: None, height: None }));
        let rest = seq![','] + ev_sfx(d, 8);
        assert(rest[0] == ',');
        lemma_member_parse_num(crate::protocol::k_relative_y(), d.relative_y, ev_acc(d, 7), rest);
        assert(p_member(ev_sfx(d, 7), ev_acc(d, 7)) == Some((ev_acc(d, 8), rest)));
        assert(skip_ws(rest) == rest);
        assert(rest.skip(1) =~= ev_sfx(d, 8));
        assert(ev_sfx(d, 7).len() > ev_sfx(d, 8).len());
        lemma_ev_chain_hi(d, 8);
        assert(p_members(ev_sfx(d, 7), ev_acc(d, 7)) == p_members(ev_sfx(d, 8), ev_acc(d, 8)));
    }
    else if k == 8 {
        assert(ev_acc(d, 0) == acc_empty());
        assert(ev_acc(d, 1) == (EventAcc { name: Some(d.name), instance: None, x: None, y: None, button: None, event: None, relative_x: None, relative_y: None, width: None, height: None }));
        assert(ev_acc(d, 2) == (EventAcc { name: Some(d.name), instance: Some(d.instance), x: None, y: None, button: None, event: None, relative_x: None, relative_y: None, width: None, height: None }));
        assert(ev_acc(d, 3) == (EventAcc { name: Some(d.name), instance: Some(d.instance), x: Some(d.x), y: None, button: None, event: None, relative_x: None, relative_y: None, width: None, height: None }));
        assert(ev_acc(d, 4) == (EventAcc { name: Some(d.name), instance: Some(d.instance), x: Some(d.x), y: Some(d.y), button: None, event: None, relative_x: None, relative_y: None, width: None, height: None }));
        assert(ev_acc(d, 5) == (EventAcc { name: Some(d.name), instance: Some(d.instance), x: Some(d.x), y: Some(d.y), button: Some(d.button), event: None, relative_x: None, relative_y: None, width: None, height: None }));
        assert(ev_acc(d, 6) == (EventAcc { name: Some(d.name), instance: Some(d.instance), x: Some(d.x), y: Some(d.y), button: Some(d.button), event: Some(d.event), relative_x: None, relative_y: None, width: None, height: None }));
        assert(ev_acc(d, 7) == (EventAcc { name: Some(d.name), instance: Some(d.instance), x: Some(d.x), y: Some(d.y), button: Some(d.button), event: Some(d.event), relative_x: Some(d.relative_x), relative_y: None, width: None, height: None }));
        assert(ev_acc(d, 8) == (EventAcc { name: Some(d.name), instance: Some(d.instance), x: Some(d.x), y: Some(d.y), button: Some(d.button), event: Some(d.event), relative_x: Some(d.relative_x), relative_y: Some(d.relative_y), width: None, height: None }));
        let rest = seq![','] + ev_sfx(d, 9);
        assert(rest[0] == ',');
        lemma_member_parse_num(crate::protocol::k_width(), d.width, ev_acc(d, 8), rest);
        assert(p_member(ev_sfx(d, 8), ev_acc(d, 8)) == Some((ev_acc(d, 9), rest)));
        assert(skip_ws(rest) == rest);
        assert(rest.skip(1) =~= ev_sfx(d, 9));
        assert(ev_sfx(d, 8).len() > ev_sfx(d, 9).len());
        lemma_ev_chain_hi(d, 9);
        assert(p_members(ev_sfx(d, 8), ev_acc(d, 8)) == p_members(ev_sfx(d, 9), ev_acc(d, 9)));
    }
    else if k == 9 {
        assert(ev_acc(d, 0) == acc_empty());
        assert(ev_acc(d, 1) == (EventAcc { name: Some(d.name), instance: None, x: None, y: None, button: None, event: None, relative_x: None, relative_y: None, width: None, height: None }));
        assert(ev_acc(d, 2) == (EventAcc { name: Some(d.name), instance: Some(d.instance), x: None, y: None, button: None, event: None, relative_x: None, relative_y: None, width: None, height: None }));
        assert(ev_acc(d, 3) == (EventAcc { name: Some(d.name), instance: Some(d.instance), x: Some(d.x), y: None, button: None, event: None, relative_x: None, relative_y: None, width: None, height: None }));
        assert(ev_acc(d, 4) == (EventAcc { name: Some(d.name), instance: Some(d.instance), x: Some(d.x), y: Some(d.y), button: None, event: None, relative_x: None, relative_y: None, width: None, height: None }));
        assert(ev_acc(d, 5) == (EventAcc { name: Some(d.name), instance: Some(d.instance), x: Some(d.x), y: Some(d.y), button: Some(d.button), event: None, relative_x: None, relative_y: None, width: None, height: None }));
        assert(ev_acc(d, 6) == (EventAcc { name: Some(d.name), instance: Some(d.instance), x: Some(d.x), y: Some(d.y), button: Some(d.button), event: Some(d.event), relative_x: None, relative_y: None, width: None, height: None }));
        assert(ev_acc(d, 7) == (EventAcc { name: Some(d.name), instance: Some(d.instance), x: Some(d.x), y: Some(d.y), button: Some(d.button), event: Some(d.event), relative_x: Some(d.relative_x), relative_y: None, width: None, height: None }));
        assert(ev_acc(d, 8) == (EventAcc { name: Some(d.name), instance: Some(d.instance), x: Some(d.x), y: Some(d.y), button: Some(d.button), event: Some(d.event), relative_x: Some(d.relative_x), relative_y: Some(d.relative_y), width: None, height: None }));
        assert(ev_acc(d, 9) == (EventAcc { name: Some(d.name), instance: Some(d.instance), x: Some(d.x), y: Some(d.y), button: Some(d.button), event: Some(d.event), relative_x: Some(d.relative_x), relative_y: Some(d.relative_y), width: Some(d.width), height: None }));
        let rest = seq!['}'];
        assert(rest[0] == '}');
        lemma_member_parse_num(crate::protocol::k_height(), d.height, ev_acc(d, 9), rest);
        assert(p_member(ev_sfx(d, 9), ev_acc(d, 9)) == Some((ev_acc(d, 10), rest)));
        assert(skip_ws(rest) == rest);
        assert(rest.skip(1) =~= Seq::<char>::empty());
        assert(p_members(ev_sfx(d, 9), ev_acc(d, 9)) == Some((ev_acc(d, 10), Seq::<char>::empty())));
    }
    else {
    }
}

/// From member `k` on, the rendered tail is consumed member by member
/// and fills in the remaining fields.
#[verifier::rlimit(100)]
#[verifier::spinoff_prover]
proof fn lemma_ev_chain(d: EventData, k: int)
    requires
        0 <= k <= 9,
        d.x <= 0xFFFF_FFFF,
        d.y <= 0xFFFF_FFFF,
        d.button <= 0xFFFF_FFFF,
        d.event <= 0xFFFF_FFFF,
        d.relative_x <= 0xFFFF_FFFF,
        d.relative_y <= 0xFFFF_FFFF,
        d.width <= 0xFFFF_FFFF,
        d.height <= 0xFFFF_FFFF,
    ensures
        p_members(ev_sfx(d, k), ev_acc(d, k)) == Some((ev_acc(d, 10), Seq::<char>::empty())),
    decreases 9 - k,
{
    if k >= 5 {
        lemma_ev_chain_hi(d, k);
    }
    else if k == 0 {
        assert(ev_acc(d, 0) == acc_empty());
        let rest = seq![','] + ev_sfx(d, 1);
        assert(rest[0] == ',');
        lemma_member_parse_str(crate::protocol::k_name(), d.name, ev_acc(d, 0), rest);
        assert(p_member(ev_sfx(d, 0), ev_acc(d, 0)) == Some((ev_acc(d, 1), rest)));
        assert(skip_ws(rest) == rest);
        assert(rest.skip(1) =~= ev_sfx(d, 1));
        assert(ev_sfx(d, 0).len() > ev_sfx(d, 1).len());
        lemma_ev_chain(d, 1);
        assert(p_members(ev_sfx(d, 0), ev_acc(d, 0)) == p_members(ev_sfx(d, 1), ev_acc(d, 1)));
    }
    else if k == 1 {
        assert(ev_acc(d, 0) == acc_empty());
        assert(ev_acc(d, 1) == (EventAcc { name: Some(d.name), instance: None, x: None, y: None, button: None, event: None, relative_x: None, relative_y: None, width: None, height: None }));
        let rest = seq![','] + ev_sfx(d, 2);
        assert(rest[0] == ',');
        lemma_member_parse_str(crate::protocol::k_instance(), d.instance, ev_acc(d, 1), rest);
        assert(p_member(ev_sfx(d, 1), ev_acc(d, 1)) == Some((ev_acc(d, 2), rest)));
        assert(skip_ws(rest) == rest);
        assert(rest.skip(1) =~= ev_sfx(d, 2));
        assert(ev_sfx(d, 1).len() > ev_sfx(d, 2).len());
        lemma_ev_chain(d, 2);
        assert(p_members(ev_sfx(d, 1), ev_acc(d, 1)) == p_members(ev_sfx(d, 2), ev_acc(d, 2)));
    }
    else if k == 2 {
        assert(ev_acc(d, 0) == acc_empty());
        assert(ev_acc(d, 1) == (EventAcc { name: Some(d.name), instance: None, x: None, y: None, button: None, event: None, relative_x: None, relative_y: None, width: None, height: None }));
        assert(ev_acc(d, 2) == (EventAcc { name: Some(d.name), instance: Some(d.instance), x: None, y: None, button: None, event: None, relative_x: None, relative_y: None, width: None, height: None }));
        let rest = seq![','] + ev_sfx(d, 3);
        assert(rest[0] == ',');
        lemma_member_parse_num(crate::protocol::k_x(), d.x, ev_acc(d, 2), rest);
        assert(p_member(ev_sfx(d, 2), ev_acc(d, 2)) == Some((ev_acc(d, 3), rest)));
        assert(skip_ws(rest) == rest);
        assert(rest.skip(1) =~= ev_sfx(d, 3));
        assert(ev_sfx(d, 2).len() > ev_sfx(d, 3).len());
        lemma_ev_chain(d, 3);
        assert(p_members(ev_sfx(d, 2), ev_acc(d, 2)) == p_members(ev_sfx(d, 3), ev_acc(d, 3)));
    }
    else if k == 3 {
        assert(ev_acc(d, 0) == acc_empty());
        assert(ev_acc(d, 1) == (EventAcc { name: Some(d.name), instance: None, x: None, y: None, button: None, event: None, relative_x: None, relative_y: None, width: None, height: None }));
        assert(ev_acc(d, 2) == (EventAcc { name: Some(d.name), instance: Some(d.instance), x: None, y: None, button: None, event: None, relative_x: None, relative_y: None, width: None, height: None }));
        assert(ev_acc(d, 3) == (EventAcc { name: Some(d.name), instance: Some(d.instance), x: Some(d.x), y: None, button: None, event: None, relative_x: None, relative_y: None, width: None, height: None }));
        let rest = seq![','] + ev_sfx(d, 4);
        assert(rest[0] == ',');
        lemma_member_parse_num(crate::protocol::k_y(), d.y, ev_acc(d, 3), rest);
        assert(p_member(ev_sfx(d, 3), ev_acc(d, 3)) == Some((ev_acc(d, 4), rest)));
        assert(skip_ws(rest) == rest);
        assert(rest.skip(1) =~= ev_sfx(d, 4));
        assert(ev_sfx(d, 3).len() > ev_sfx(d, 4).len());
        lemma_ev_chain(d, 4);
        assert(p_members(ev_sfx(d, 3), ev_acc(d, 3)) == p_members(ev_sfx(d, 4), ev_acc(d, 4)));
    }
    else if k == 4 {
        assert(ev_acc(d, 0) == acc_empty());
        assert(ev_acc(d, 1) == (EventAcc { name: Some(d.name), instance: None, x: None, y: None, button: None, event: None, relative_x: None, relative_y: None, width: None, height: None }));
        assert(ev_acc(d, 2) == (EventAcc { name: Some(d.name), instance: Some(d.instance), x: None, y: None, button: None, event: None, relative_x: None, relative_y: None, width: None, height: None }));
        assert(ev_acc(d, 3) == (EventAcc { name: Some(d.name), instance: Some(d.instance), x: Some(d.x), y: None, button: None, event: None, relative_x: None, relative_y: None, width: None, height: None }));
        assert(ev_acc(d, 4) == (EventAcc { name: Some(d.name), instance: Some(d.instance), x: Some(d.x), y: Some(d.y), button: None, event: None, relative_x: None, relative_y: None, width: None, height: None }));
        let rest = seq![','] + ev_sfx(d, 5);
        assert(rest[0] == ',');
        lemma_member_parse_num(crate::protocol::k_button(), d.button, ev_acc(d, 4), rest);
        assert(p_member(ev_sfx(d, 4), ev_acc(d, 4)) == Some((ev_acc(d, 5), rest)));
        assert(skip_ws(rest) == rest);
        assert(rest.skip(1) =~= ev_sfx(d, 5));
        assert(ev_sfx(d, 4).len() > ev_sfx(d, 5).len());
        lemma_ev_chain(d, 5);
        assert(p_members(ev_sfx(d, 4), ev_acc(d, 4)) == p_members(ev_sfx(d, 5), ev_acc(d, 5)));
    }
    else {
    }
}

/// Round trip: the canonical encoding of any event whose numeric
/// fields fit in 32 bits decodes back to exactly the same ten fields.
#[verifier::rlimit(100)]
#[verifier::spinoff_prover]
pub proof fn lemma_event_roundtrip(d: EventData)
    requires
        d.x <= 0xFFFF_FFFF,
        d.y <= 0xFFFF_FFFF,
        d.button <= 0xFFFF_FFFF,
        d.event <= 0xFFFF_FFFF,
        d.relative_x <= 0xFFFF_FFFF,
        d.relative_y <= 0xFFFF_FFFF,
        d.width <= 0xFFFF_FFFF,
        d.height <= 0xFFFF_FFFF,
    ensures
        crate::parse::p_event(event_json(d)) == Some(d),
{
    let m0 = (crate::protocol::k_name(), JsonVal::VStr(d.name));
    let m1 = (crate::protocol::k_instance(), JsonVal::VStr(d.instance));
    let m2 = (crate::protocol::k_x(), JsonVal::VNum(d.x));
    let m3 = (crate::protocol::k_y(), JsonVal::VNum(d.y));
    let m4 = (crate::protocol::k_button(), JsonVal::VNum(d.button));
    let m5 = (crate::protocol::k_event(), JsonVal::VNum(d.event));
    let m6 = (crate::protocol::k_relative_x(), JsonVal::VNum(d.relative_x));
    let m7 = (crate::protocol::k_relative_y(), JsonVal::VNum(d.relative_y));
    let m8 = (crate::protocol::k_width(), JsonVal::VNum(d.width));
    let m9 = (crate::protocol::k_height(), JsonVal::VNum(d.height));
    assert(event_pairs(d) =~= seq![m0, m1, m2, m3, m4, m5, m6, m7, m8, m9]);
    assert(render_members(seq![m9]) == render_member(m9));
    assert(seq![m8, m9].skip(1) =~= seq![m9]);
    assert(render_members(seq![m8, m9]) == render_member(m8) + seq![','] + render_members(seq![m9]));
    assert(seq![m7, m8, m9].skip(1) =~= seq![m8, m9]);
    assert(render_members(seq![m7, m8, m9]) == render_member(m7) + seq![','] + render_members(seq![m8, m9]));
    assert(seq![m6, m7, m8, m9].skip(1) =~= seq![m7, m8, m9]);
    assert(render_members(seq![m6, m7, m8, m9]) == render_member(m6) + seq![','] + render_members(seq![m7, m8, m9]));
    assert(seq![m5, m6, m7, m8, m9].skip(1) =~= seq![m6, m7, m8, m9]);
    assert(render_members(seq![m5, m6, m7, m8, m9]) == render_member(m5) + seq![','] + render_members(seq![m6, m7, m8, m9]));
    assert(seq![m4, m5, m6, m7, m8, m9].skip(1) =~= seq![m5, m6, m7, m8, m9]);
    assert(render_members(seq![m4, m5, m6, m7, m8, m9]) == render_member(m4) + seq![','] + render_members(seq![m5, m6, m7, m8, m9]));
    assert(seq![m3, m4, m5, m6, m7, m8, m9].skip(1) =~= seq![m4, m5, m6, m7, m8, m9]);
    assert(render_members(seq![m3, m4, m5, m6, m7, m8, m9]) == render_member(m3) + seq![','] + render_members(seq![m4, m5, m6, m7, m8, m9]));
    assert(seq![m2, m3, m4, m5, m6, m7, m8, m9].skip(1) =~= seq![m3, m4, m5, m6, m7, m8, m9]);
    assert(render_members(seq![m2, m3, m4, m5, m6, m7, m8, m9]) == render_member(m2) + seq![','] + render_members(seq![m3, m4, m5, m6, m7, m8, m9]));
    assert(seq![m1, m2, m3, m4, m5, m6, m7, m8, m9].skip(1) =~= seq![m2, m3, m4, m5, m6, m7, m8, m9]);
    assert(render_members(seq![m1, m2, m3, m4, m5, m6, m7, m8, m9]) == render_member(m1) + seq![','] + render_members(seq![m2, m3, m4, m5, m6, m7, m8, m9]));
    assert(seq![m0, m1, m2, m3, m4, m5, m6, m7, m8, m9].skip(1) =~= seq![m1, m2, m3, m4, m5, m6, m7, m8, m9]);
    assert(render_members(seq![m0, m1, m2, m3, m4, m5, m6, m7, m8, m9]) == render_member(m0) + seq![','] + render_members(seq![m1, m2, m3, m4, m5, m6, m7, m8, m9]));
    assert(ev_member(d, 9) == m9);
    assert(ev_sfx(d, 9) =~= render_members(seq![m9]) + seq!['}']);
    assert(ev_member(d, 8) == m8);
    assert(ev_sfx(d, 8) =~= render_members(seq![m8, m9]) + seq!['}']);
    assert(ev_member(d, 7) == m7);
    assert(ev_sfx(d, 7) =~= render_members(seq![m7, m8, m9]) + seq!['}']);
    assert(ev_member(d, 6) == m6);
    assert(ev_sfx(d, 6) =~= render_members(seq![m6, m7, m8, m9]) + seq!['}']);
    assert(ev_member(d, 5) == m5);
    assert(ev_sfx(d, 5) =~= render_members(seq![m5, m6, m7, m8, m9]) + seq!['}']);
    assert(ev_member(d, 4) == m4);
    assert(ev_sfx(d, 4) =~= render_members(seq![m4, m5, m6, m7, m8, m9]) + seq!['}']);
    assert(ev_member(d, 3) == m3);
    assert(ev_sfx(d, 3) =~= render_members(seq![m3, m4, m5, m6, m7, m8, m9]) + seq!['}']);
    assert(ev_member(d, 2) == m2);
    assert(ev_sfx(d, 2) =~= render_members(seq![m2, m3, m4, m5, m6, m7, m8, m9]) + seq!['}']);
    assert(ev_member(d, 1) == m1);
    assert(ev_sfx(d, 1) =~= render_members(seq![m1, m2, m3, m4, m5, m6, m7, m8, m9]) + seq!['}']);
    assert(ev_member(d, 0) == m0);
    assert(ev_sfx(d, 0) =~= render_members(seq![m0, m1, m2, m3, m4, m5, m6, m7, m8, m9]) + seq!['}']);
    let s = event_json(d);
    assert(s == seq!['{'] + render_members(event_pairs(d)) + seq!['}']);
    assert(s[0] == '{');
    assert(!is_ws(s[0]));
    assert(skip_ws(s) == s);
    assert(s.skip(1) =~= ev_sfx(d, 0));
    assert(ev_sfx(d, 0)[0] == '"');
    assert(skip_ws(ev_sfx(d, 0)) == ev_sfx(d, 0));
    lemma_ev_chain(d, 0);
    assert(ev_acc(d, 0) == acc_empty());
    assert(skip_ws(Seq::<char>::empty()).len() == 0);
    assert(crate::parse::p_event_acc(s) == Some(ev_acc(d, 10)));
    assert(ev_acc(d, 1) == (EventAcc { name: Some(d.name), instance: None, x: None, y: None, button: None, event: None, relative_x: None, relative_y: None, width: None, height: None }));
    assert(ev_acc(d, 2) == (EventAcc { name: Some(d.name), instance: Some(d.instance), x: None, y: None, button: None, event: None, relative_x: None, relative_y: None, width: None, height: None }));
    assert(ev_acc(d, 3) == (EventAcc { name: Some(d.name), instance: Some(d.instance), x: Some(d.x), y: None, button: None, event: None, relative_x: None, relative_y: None, width: None, height: None }));
    assert(ev_acc(d, 4) == (EventAcc { name: Some(d.name), instance: Some(d.instance), x: Some(d.x), y: Some(d.y), button: None, event: None, relative_x: None, relative_y: None, width: None, height: None }));
    assert(ev_acc(d, 5) == (EventAcc { name: Some(d.name), instance: Some(d.instance), x: Some(d.x), y: Some(d.y), button: Some(d.button), event: None, relative_x: None, relative_y: None, width: None, height: None }));
    assert(ev_acc(d, 6) == (EventAcc { name: Some(d.name), instance: Some(d.instance), x: Some(d.x), y: Some(d.y), button: Some(d.button), event: Some(d.event), relative_x: None, relative_y: None, width: None, height: None }));
    assert(ev_acc(d, 7) == (EventAcc { name: Some(d.name), instance: Some(d.instance), x: Some(d.x), y: Some(d.y), button: Some(d.button), event: Some(d.event), relative_x: Some(d.relative_x), relative_y: None, width: None, height: None }));
    assert(ev_acc(d, 8) == (EventAcc { name: Some(d.name), instance: Some(d.instance), x: Some(d.x), y: Some(d.y), button: Some(d.button), event: Some(d.event), relative_x: Some(d.relative_x), relative_y: Some(d.relative_y), width: None, height: None }));
    assert(ev_acc(d, 9) == (EventAcc { name: Some(d.name), instance: Some(d.instance), x: Some(d.x), y: Some(d.y), button: Some(d.button), event: Some(d.event), relative_x: Some(d.relative_x), relative_y: Some(d.relative_y), width: Some(d.width), height: None }));
    assert(ev_acc(d, 10) == (EventAcc { name: Some(d.name), instance: Some(d.instance), x: Some(d.x), y: Some(d.y), button: Some(d.button), event: Some(d.event), relative_x: Some(d.relative_x), relative_y: Some(d.relative_y), width: Some(d.width), height: Some(d.height) }));
    assert(crate::parse::p_event(s) == Some(d));
}

/// Round trip at the exec level: every `ClientEvent` is decoded back,
/// field for field, from its own canonical encoding.
pub proof fn lemma_client_event_roundtrip(e: ClientEvent)
    ensures
        crate::parse::p_event(event_json(e@)) == Some(e@),
{
    lemma_event_roundtrip(e@);
}

/// Every member key of a block's encoding is free of quotes and
/// backslashes, so its rendering scans clean.
#[verifier::rlimit(100)]
#[verifier::spinoff_prover]
proof fn lemma_scan_block(b: Block)
    ensures
        scan_end(ScanPos::Outside, block_json(b)) == ScanPos::Outside,
        count_unquoted(ScanPos::Outside, block_json(b), ']') == 0,
{
    assert(quote_free(k_full_text()));
    assert(quote_free(k_short_text()));
    assert(quote_free(k_name()));
    assert(quote_free(k_color()));
    assert(quote_free(k_background()));
    assert(quote_free(k_border()));
    assert(quote_free(k_border_top()));
    assert(quote_free(k_border_right()));
    assert(quote_free(k_border_bottom()));
    assert(quote_free(k_border_left()));
    assert(quote_free(k_min_width()));
    assert(quote_free(k_align()));
    assert(quote_free(k_instance()));
    assert(quote_free(k_urgent()));
    assert(quote_free(k_separator()));
    assert(quote_free(k_separator_block_width()));
    assert(quote_free(k_markup()));
    let ms0 = seq![(k_full_text(), JsonVal::VStr(b.full_text@))];
    lemma_keys_single((k_full_text(), JsonVal::VStr(b.full_text@)));
    let ms1 = opt_str_pair(ms0, k_short_text(), b.short_text);
    lemma_keys_opt_str(ms0, k_short_text(), b.short_text);
    let ms2 = opt_str_pair(ms1, k_name(), b.name);
    lemma_keys_opt_str(ms1, k_name(), b.name);
    let ms3 = opt_str_pair(ms2, k_color(), b.color);
    lemma_keys_opt_str(ms2, k_color(), b.color);
    let ms4 = opt_str_pair(ms3, k_background(), b.background);
    lemma_keys_opt_str(ms3, k_background(), b.background);
    let ms5 = opt_str_pair(ms4, k_border(), b.border);
    lemma_keys_opt_str(ms4, k_border(), b.border);
    let ms6 = opt_u8_pair(ms5, k_border_top(), b.border_top);
    lemma_keys_opt_u8(ms5, k_border_top(), b.border_top);
    let ms7 = opt_u8_pair(ms6, k_border_right(), b.border_right);
    lemma_keys_opt_u8(ms6, k_border_right(), b.border_right);
    let ms8 = opt_u8_pair(ms7, k_border_bottom(), b.border_bottom);
    lemma_keys_opt_u8(ms7, k_border_bottom(), b.border_bottom);
    let ms9 = opt_u8_pair(ms8, k_border_left(), b.border_left);
    lemma_keys_opt_u8(ms8, k_border_left(), b.border_left);
    let ms10 = opt_u32_pair(ms9, k_min_width(), b.min_width);
    lemma_keys_opt_u32(ms9, k_min_width(), b.min_width);
    let ms11 = opt_str_pair(ms10, k_align(), b.align);
    lemma_keys_opt_str(ms10, k_align(), b.align);
    let ms12 = opt_str_pair(ms11, k_instance(), b.instance);
    lemma_keys_opt_str(ms11, k_instance(), b.instance);
    let ms13 = opt_bool_pair(ms12, k_urgent(), b.urgent);
    lemma_keys_opt_bool(ms12, k_urgent(), b.urgent);
    let ms14 = opt_bool_pair(ms13, k_separator(), b.separator);
    lemma_keys_opt_bool(ms13, k_separator(), b.separator);
    let ms15 = opt_u32_pair(ms14, k_separator_block_width(), b.separator_block_width);
    lemma_keys_opt_u32(ms14, k_separator_block_width(), b.separator_block_width);
    let ms16 = opt_str_pair(ms15, k_markup(), b.markup);
    lemma_keys_opt_str(ms15, k_markup(), b.markup);
    assert(block_pairs(b) == ms16);
    assert forall|i: int| 0 <= i < block_pairs(b).len() implies quote_free(
        #[trigger] block_pairs(b)[i].0,
    ) by {
        let x = block_pairs(b)[i];
        assert(block_pairs(b).contains(x));
    }
    lemma_scan_obj(block_pairs(b));
}

/// The header line scans clean: fixed quote-free keys, digit and
/// boolean values.
proof fn lemma_scan_header(h: Header)
    ensures
        scan_end(ScanPos::Outside, header_json(h)) == ScanPos::Outside,
        count_unquoted(ScanPos::Outside, header_json(h), ']') == 0,
{
    assert(quote_free(k_version()));
    assert(quote_free(k_click_events()));
    assert(quote_free(k_const_signal()));
    assert(quote_free(k_stop_signal()));
    let ms = header_pairs(h);
    assert forall|i: int| 0 <= i < ms.len() implies quote_free(#[trigger] ms[i].0) by {
        let m = ms[i];
    }
    lemma_scan_obj(ms);
}

/// After N ticks the stream holds exactly N closing brackets outside
/// of string literals — one per snapshot fragment, whatever the block
/// texts hold — and the scan ends between tokens: the outer array is
/// never closed.
pub proof fn lemma_stream_never_closed(h: Header, bs: Seq<Block>)
    ensures
        stream_output(h, bs) == stream_prefix(h) + snapshot_stream(bs),
        count_unquoted(ScanPos::Outside, stream_output(h, bs), ']') == bs.len(),
        scan_end(ScanPos::Outside, stream_output(h, bs)) == ScanPos::Outside,
    decreases bs.len(),
{
    lemma_scan_header(h);
    assert(seq!['\n', '['] =~= seq!['\n'] + seq!['[']);
    lemma_scan_one(ScanPos::Outside, '\n', ']');
    lemma_scan_one(ScanPos::Outside, '[', ']');
    lemma_scan_append(ScanPos::Outside, seq!['\n'], seq!['['], ']');
    lemma_scan_append(ScanPos::Outside, header_json(h), seq!['\n', '['], ']');
    if bs.len() == 0 {
        lemma_scan_append(ScanPos::Outside, stream_prefix(h), snapshot_stream(bs), ']');
    } else {
        lemma_stream_never_closed(h, bs.drop_last());
        let b = bs.last();
        lemma_scan_block(b);
        lemma_scan_one(ScanPos::Outside, ']', ']');
        lemma_scan_one(ScanPos::Outside, ',', ']');
        assert(seq![']', ','] =~= seq![']'] + seq![',']);
        lemma_scan_append(ScanPos::Outside, seq![']'], seq![','], ']');
        lemma_scan_append(ScanPos::Outside, seq!['['], block_json(b), ']');
        lemma_scan_append(ScanPos::Outside, seq!['['] + block_json(b), seq![']', ','], ']');
        assert(count_unquoted(ScanPos::Outside, snapshot_fragment(b), ']') == 1);
        assert(scan_end(ScanPos::Outside, snapshot_fragment(b)) == ScanPos::Outside);
        lemma_scan_append(
            ScanPos::Outside,
            snapshot_stream(bs.drop_last()),
            snapshot_fragment(b),
            ']',
        );
        lemma_scan_append(ScanPos::Outside, stream_prefix(h), snapshot_stream(bs.drop_last()), ']');
        lemma_scan_append(ScanPos::Outside, stream_prefix(h), snapshot_stream(bs), ']');
        assert(stream_prefix(h) + (snapshot_stream(bs.drop_last()) + snapshot_fragment(b)) =~= (
        stream_prefix(h) + snapshot_stream(bs.drop_last())) + snapshot_fragment(b));
    }
}

} // verus!
