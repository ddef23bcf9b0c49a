//! Decoding of click-event objects read back from the host.
//!
//! The input is one JSON object, framed by the caller up to a closing
//! brace.  The ten known fields take strings (with the standard JSON
//! escapes, surrogate pairs included) and non-negative integers that
//! fit in 32 bits.  Unknown members are ignored for forward
//! compatibility: their value may be any well-formed JSON value —
//! strings, numbers of any shape, booleans, `null`, and arrays and
//! objects nested up to a fixed depth.  The spec parser here pins the
//! accepted language and the decoded fields down exactly; the exec
//! decoder is proved equal to it.

use crate::protocol::{
    lemma_event_keys_distinct,
    ClientEvent, EventData, MalformedEvent, k_button, k_event, k_height, k_instance, k_name,
    k_relative_x, k_relative_y, k_width, k_x, k_y,
};
use vstd::prelude::*;
use vstd::utf8::char_u32_cast;

verus! {

/// JSON inter-token whitespace.
pub open spec fn is_ws(c: char) -> bool {
    c == ' ' || c == '\t' || c == '\n' || c == '\r'
}

/// Decimal digit character.
pub open spec fn is_digit(c: char) -> bool {
    0x30 <= (c as u32) && (c as u32) <= 0x39
}

/// Numeric value of a decimal digit character.
pub open spec fn digit_val(c: char) -> nat
    recommends
        is_digit(c),
{
    ((c as u32) - 0x30) as nat
}

/// Numeric value of a hexadecimal digit character, either case.
pub open spec fn hex_val(c: char) -> Option<nat> {
    let u = c as u32;
    if 0x30 <= u && u <= 0x39 {
        Some(((u - 0x30) as nat))
    } else if 0x61 <= u && u <= 0x66 {
        Some(((u - 0x57) as nat))
    } else if 0x41 <= u && u <= 0x46 {
        Some(((u - 0x37) as nat))
    } else {
        None
    }
}

/// The character a two-character escape stands for, if the second
/// character is one of the eight short escapes.
pub open spec fn unescape_short(c: char) -> Option<char> {
    if c == '"' {
        Some('"')
    } else if c == '\\' {
        Some('\\')
    } else if c == '/' {
        Some('/')
    } else if c == 'b' {
        Some('\u{8}')
    } else if c == 'f' {
        Some('\u{c}')
    } else if c == 'n' {
        Some('\n')
    } else if c == 'r' {
        Some('\r')
    } else if c == 't' {
        Some('\t')
    } else {
        None
    }
}

/// Whether a code point is a Unicode scalar value, hence a `char`.
pub open spec fn valid_scalar(code: nat) -> bool {
    code < 0xD800 || (0xE000 <= code && code <= 0x10FFFF)
}

/// The character with the given scalar value.
pub open spec fn code_char(code: nat) -> char
    recommends
        valid_scalar(code),
{
    (code as u32) as char
}

/// The input with its leading whitespace dropped.
pub open spec fn skip_ws(s: Seq<char>) -> Seq<char>
    decreases s.len(),
{
    if s.len() > 0 && is_ws(s[0]) {
        skip_ws(s.skip(1))
    } else {
        s
    }
}

/// A parse result with one decoded character prepended to the text.
pub open spec fn cons_result(c: char, r: Option<(Seq<char>, Seq<char>)>) -> Option<
    (Seq<char>, Seq<char>),
> {
    match r {
        Some((t, rest)) => Some((seq![c] + t, rest)),
        None => None,
    }
}

/// String-literal body after the opening quote: the decoded text and the
/// input after the closing quote.  Raw control characters are refused;
/// `\uXXXX` must name a scalar value, or be a high surrogate followed
/// at once by a low-surrogate escape, the pair naming one scalar.
pub open spec fn p_string_body(s: Seq<char>) -> Option<(Seq<char>, Seq<char>)>
    decreases s.len(),
{
    if s.len() == 0 {
        None
    } else if s[0] == '"' {
        Some((Seq::empty(), s.skip(1)))
    } else if s[0] == '\\' {
        if s.len() < 2 {
            None
        } else if s[1] == 'u' {
            if s.len() < 6 {
                None
            } else {
                match (hex_val(s[2]), hex_val(s[3]), hex_val(s[4]), hex_val(s[5])) {
                    (Some(h1), Some(h2), Some(h3), Some(h4)) => {
                        let code = h1 * 4096 + h2 * 256 + h3 * 16 + h4;
                        if valid_scalar(code) {
                            cons_result(code_char(code), p_string_body(s.skip(6)))
                        } else if 0xD800 <= code && code <= 0xDBFF {
                            if s.len() < 12 || s[6] != '\\' || s[7] != 'u' {
                                None
                            } else {
                                match (hex_val(s[8]), hex_val(s[9]), hex_val(s[10]), hex_val(
                                    s[11],
                                )) {
                                    (Some(g1), Some(g2), Some(g3), Some(g4)) => {
                                        let low = g1 * 4096 + g2 * 256 + g3 * 16 + g4;
                                        if 0xDC00 <= low && low <= 0xDFFF {
                                            let combined = 0x10000 + (code - 0xD800) * 0x400 + (low
                                                - 0xDC00);
                                            cons_result(
                                                code_char(combined as nat),
                                                p_string_body(s.skip(12)),
                                            )
                                        } else {
                                            None
                                        }
                                    },
                                    _ => None,
                                }
                            }
                        } else {
                            None
                        }
                    },
                    _ => None,
                }
            }
        } else {
            match unescape_short(s[1]) {
                Some(c) => cons_result(c, p_string_body(s.skip(2))),
                None => None,
            }
        }
    } else if (s[0] as u32) < 0x20 {
        None
    } else {
        cons_result(s[0], p_string_body(s.skip(1)))
    }
}

/// A string value: an opening quote followed by a string-literal body.
pub open spec fn p_str_value(s: Seq<char>) -> Option<(Seq<char>, Seq<char>)> {
    if s.len() > 0 && s[0] == '"' {
        p_string_body(s.skip(1))
    } else {
        None
    }
}

/// Greedy run of decimal digits folded onto an accumulator.
pub open spec fn p_digits(s: Seq<char>, acc: nat) -> (nat, Seq<char>)
    decreases s.len(),
{
    if s.len() > 0 && is_digit(s[0]) {
        p_digits(s.skip(1), acc * 10 + digit_val(s[0]))
    } else {
        (acc, s)
    }
}

/// A non-negative integer that fits in 32 bits.  A leading zero stands
/// alone, as JSON requires.
pub open spec fn p_number(s: Seq<char>) -> Option<(nat, Seq<char>)> {
    if s.len() == 0 || !is_digit(s[0]) {
        None
    } else if s[0] == '0' {
        Some((0, s.skip(1)))
    } else {
        let (n, r) = p_digits(s, 0);
        if n <= 0xFFFF_FFFF {
            Some((n, r))
        } else {
            None
        }
    }
}

/// How deep an ignored member's value may nest arrays and objects.
/// Bounding the depth keeps decoding in constant stack on any input.
pub const MAX_VALUE_NESTING: u32 = 128;

/// The input with its leading run of decimal digits dropped.
pub open spec fn digits_end(s: Seq<char>) -> Seq<char>
    decreases s.len(),
{
    if s.len() > 0 && is_digit(s[0]) {
        digits_end(s.skip(1))
    } else {
        s
    }
}

/// The optional fraction part of a JSON number: `.` and at least one
/// digit, or nothing.
pub open spec fn p_skip_frac(s: Seq<char>) -> Option<Seq<char>> {
    if s.len() > 0 && s[0] == '.' {
        if s.len() >= 2 && is_digit(s[1]) {
            Some(digits_end(s.skip(1)))
        } else {
            None
        }
    } else {
        Some(s)
    }
}

/// The optional exponent part of a JSON number: `e` or `E`, an optional
/// sign, and at least one digit, or nothing.
pub open spec fn p_skip_exp(s: Seq<char>) -> Option<Seq<char>> {
    if s.len() > 0 && (s[0] == 'e' || s[0] == 'E') {
        let s1 = if s.len() >= 2 && (s[1] == '+' || s[1] == '-') {
            s.skip(2)
        } else {
            s.skip(1)
        };
        if s1.len() > 0 && is_digit(s1[0]) {
            Some(digits_end(s1))
        } else {
            None
        }
    } else {
        Some(s)
    }
}

/// A JSON number of any shape, consumed without computing its value:
/// optional minus, integer part (a lone zero or a nonzero-led run),
/// optional fraction, optional exponent.
pub open spec fn p_skip_number(s: Seq<char>) -> Option<Seq<char>> {
    let s1 = if s.len() > 0 && s[0] == '-' {
        s.skip(1)
    } else {
        s
    };
    if s1.len() == 0 || !is_digit(s1[0]) {
        None
    } else {
        let s2 = if s1[0] == '0' {
            s1.skip(1)
        } else {
            digits_end(s1)
        };
        match p_skip_frac(s2) {
            Some(s3) => p_skip_exp(s3),
            None => None,
        }
    }
}

/// A value whose content is ignored — any well-formed JSON value, with
/// arrays and objects nested at most `depth` deep.
pub open spec fn p_skip_value(s: Seq<char>, depth: nat) -> Option<Seq<char>>
    decreases depth, s.len(), 0int,
{
    if s.len() == 0 {
        None
    } else if s[0] == '"' {
        match p_string_body(s.skip(1)) {
            Some((t, r)) => Some(r),
            None => None,
        }
    } else if s[0] == '-' || is_digit(s[0]) {
        p_skip_number(s)
    } else if s[0] == '[' {
        if depth == 0 {
            None
        } else {
            p_skip_array(s.skip(1), (depth - 1) as nat)
        }
    } else if s[0] == '{' {
        if depth == 0 {
            None
        } else {
            p_skip_object(s.skip(1), (depth - 1) as nat)
        }
    } else if s.len() >= 4 && s[0] == 't' && s[1] == 'r' && s[2] == 'u' && s[3] == 'e' {
        Some(s.skip(4))
    } else if s.len() >= 5 && s[0] == 'f' && s[1] == 'a' && s[2] == 'l' && s[3] == 's' && s[4]
        == 'e' {
        Some(s.skip(5))
    } else if s.len() >= 4 && s[0] == 'n' && s[1] == 'u' && s[2] == 'l' && s[3] == 'l' {
        Some(s.skip(4))
    } else {
        None
    }
}

/// An ignored array after its opening bracket: empty, or items.
pub open spec fn p_skip_array(s: Seq<char>, depth: nat) -> Option<Seq<char>>
    decreases depth, s.len(), 2int,
{
    let s1 = skip_ws(s);
    if s1.len() > 0 && s1[0] == ']' {
        Some(s1.skip(1))
    } else if s1.len() <= s.len() {
        p_skip_items(s1, depth)
    } else {
        None
    }
}

/// The remaining items of an ignored array, the input standing at the
/// start of a value: values separated by commas, closed by a bracket.
pub open spec fn p_skip_items(s: Seq<char>, depth: nat) -> Option<Seq<char>>
    decreases depth, s.len(), 1int,
{
    match p_skip_value(s, depth) {
        Some(r) => {
            let r1 = skip_ws(r);
            if r1.len() == 0 {
                None
            } else if r1[0] == ',' {
                let r2 = skip_ws(r1.skip(1));
                if r2.len() < s.len() {
                    p_skip_items(r2, depth)
                } else {
                    None
                }
            } else if r1[0] == ']' {
                Some(r1.skip(1))
            } else {
                None
            }
        },
        None => None,
    }
}

/// An ignored object after its opening brace: empty, or members.
pub open spec fn p_skip_object(s: Seq<char>, depth: nat) -> Option<Seq<char>>
    decreases depth, s.len(), 2int,
{
    let s1 = skip_ws(s);
    if s1.len() > 0 && s1[0] == '}' {
        Some(s1.skip(1))
    } else if s1.len() <= s.len() {
        p_skip_obj_members(s1, depth)
    } else {
        None
    }
}

/// The remaining members of an ignored object, the input standing at
/// the start of a key: `"key": value` pairs separated by commas,
/// closed by a brace.
pub open spec fn p_skip_obj_members(s: Seq<char>, depth: nat) -> Option<Seq<char>>
    decreases depth, s.len(), 1int,
{
    if s.len() == 0 || s[0] != '"' {
        None
    } else {
        match p_string_body(s.skip(1)) {
            Some((k, r)) => {
                let r1 = skip_ws(r);
                if r1.len() == 0 || r1[0] != ':' {
                    None
                } else {
                    let r2 = skip_ws(r1.skip(1));
                    if r2.len() < s.len() {
                        match p_skip_value(r2, depth) {
                            Some(r3) => {
                                let r4 = skip_ws(r3);
                                if r4.len() == 0 {
                                    None
                                } else if r4[0] == ',' {
                                    let r5 = skip_ws(r4.skip(1));
                                    if r5.len() < s.len() {
                                        p_skip_obj_members(r5, depth)
                                    } else {
                                        None
                                    }
                                } else if r4[0] == '}' {
                                    Some(r4.skip(1))
                                } else {
                                    None
                                }
                            },
                            None => None,
                        }
                    } else {
                        None
                    }
                }
            },
            None => None,
        }
    }
}

/// The fields of an event object seen so far while parsing its members.
pub struct EventAcc {
    /// Decoded `name`, once seen.
    pub name: Option<Seq<char>>,
    /// Decoded `instance`, once seen.
    pub instance: Option<Seq<char>>,
    /// Decoded `x`, once seen.
    pub x: Option<nat>,
    /// Decoded `y`, once seen.
    pub y: Option<nat>,
    /// Decoded `button`, once seen.
    pub button: Option<nat>,
    /// Decoded `event`, once seen.
    pub event: Option<nat>,
    /// Decoded `relative_x`, once seen.
    pub relative_x: Option<nat>,
    /// Decoded `relative_y`, once seen.
    pub relative_y: Option<nat>,
    /// Decoded `width`, once seen.
    pub width: Option<nat>,
    /// Decoded `height`, once seen.
    pub height: Option<nat>,
}

/// The accumulator before any member was seen.
pub open spec fn acc_empty() -> EventAcc {
    EventAcc {
        name: None,
        instance: None,
        x: None,
        y: None,
        button: None,
        event: None,
        relative_x: None,
        relative_y: None,
        width: None,
        height: None,
    }
}

/// One member's value, dispatched on its key: the two known string
/// fields take a string, the eight known numeric fields an integer, and
/// any unknown key an ignored scalar.  A duplicate known key is refused.
pub open spec fn p_member_value(key: Seq<char>, s: Seq<char>, acc: EventAcc) -> Option<
    (EventAcc, Seq<char>),
> {
    if key == k_name() {
        if acc.name is Some {
            None
        } else {
            match p_str_value(s) {
                Some((v, r)) => Some((EventAcc { name: Some(v), ..acc }, r)),
                None => None,
            }
        }
    } else if key == k_instance() {
        if acc.instance is Some {
            None
        } else {
            match p_str_value(s) {
                Some((v, r)) => Some((EventAcc { instance: Some(v), ..acc }, r)),
                None => None,
            }
        }
    } else if key == k_x() {
        if acc.x is Some {
            None
        } else {
            match p_number(s) {
                Some((n, r)) => Some((EventAcc { x: Some(n), ..acc }, r)),
                None => None,
            }
        }
    } else if key == k_y() {
        if acc.y is Some {
            None
        } else {
            match p_number(s) {
                Some((n, r)) => Some((EventAcc { y: Some(n), ..acc }, r)),
                None => None,
            }
        }
    } else if key == k_button() {
        if acc.button is Some {
            None
        } else {
            match p_number(s) {
                Some((n, r)) => Some((EventAcc { button: Some(n), ..acc }, r)),
                None => None,
            }
        }
    } else if key == k_event() {
        if acc.event is Some {
            None
        } else {
            match p_number(s) {
                Some((n, r)) => Some((EventAcc { event: Some(n), ..acc }, r)),
                None => None,
            }
        }
    } else if key == k_relative_x() {
        if acc.relative_x is Some {
            None
        } else {
            match p_number(s) {
                Some((n, r)) => Some((EventAcc { relative_x: Some(n), ..acc }, r)),
                None => None,
            }
        }
    } else if key == k_relative_y() {
        if acc.relative_y is Some {
            None
        } else {
            match p_number(s) {
                Some((n, r)) => Some((EventAcc { relative_y: Some(n), ..acc }, r)),
                None => None,
            }
        }
    } else if key == k_width() {
        if acc.width is Some {
            None
        } else {
            match p_number(s) {
                Some((n, r)) => Some((EventAcc { width: Some(n), ..acc }, r)),
                None => None,
            }
        }
    } else if key == k_height() {
        if acc.height is Some {
            None
        } else {
            match p_number(s) {
                Some((n, r)) => Some((EventAcc { height: Some(n), ..acc }, r)),
                None => None,
            }
        }
    } else {
        match p_skip_value(s, MAX_VALUE_NESTING as nat) {
            Some(r) => Some((acc, r)),
            None => None,
        }
    }
}

/// One `"key": value` member, with whitespace allowed around tokens.
pub open spec fn p_member(s: Seq<char>, acc: EventAcc) -> Option<(EventAcc, Seq<char>)> {
    let s1 = skip_ws(s);
    if s1.len() == 0 || s1[0] != '"' {
        None
    } else {
        match p_string_body(s1.skip(1)) {
            Some((key, s2)) => {
                let s3 = skip_ws(s2);
                if s3.len() == 0 || s3[0] != ':' {
                    None
                } else {
                    p_member_value(key, skip_ws(s3.skip(1)), acc)
                }
            },
            None => None,
        }
    }
}

/// The members of an object after its opening brace: at least one
/// member, separated by commas, closed by a brace.
pub open spec fn p_members(s: Seq<char>, acc: EventAcc) -> Option<(EventAcc, Seq<char>)>
    decreases s.len(),
{
    match p_member(s, acc) {
        Some((acc2, r)) => {
            let r1 = skip_ws(r);
            if r1.len() == 0 {
                None
            } else if r1[0] == ',' {
                if r1.skip(1).len() < s.len() {
                    p_members(r1.skip(1), acc2)
                } else {
                    None
                }
            } else if r1[0] == '}' {
                Some((acc2, r1.skip(1)))
            } else {
                None
            }
        },
        None => None,
    }
}

/// A whole event object: braces around members (or nothing), with only
/// whitespace allowed after the closing brace.
pub open spec fn p_event_acc(s: Seq<char>) -> Option<EventAcc> {
    let s1 = skip_ws(s);
    if s1.len() == 0 || s1[0] != '{' {
        None
    } else {
        let s2 = s1.skip(1);
        let s3 = skip_ws(s2);
        if s3.len() > 0 && s3[0] == '}' {
            if skip_ws(s3.skip(1)).len() == 0 {
                Some(acc_empty())
            } else {
                None
            }
        } else {
            match p_members(s2, acc_empty()) {
                Some((acc, r)) => {
                    if skip_ws(r).len() == 0 {
                        Some(acc)
                    } else {
                        None
                    }
                },
                None => None,
            }
        }
    }
}

/// The decoded event: the parse succeeds and all ten fields are present.
pub open spec fn p_event(s: Seq<char>) -> Option<EventData> {
    match p_event_acc(s) {
        Some(acc) => match (acc.name, acc.instance, acc.x, acc.y, acc.button, acc.event,
            acc.relative_x, acc.relative_y, acc.width, acc.height) {
            (
                Some(name),
                Some(instance),
                Some(x),
                Some(y),
                Some(button),
                Some(event),
                Some(relative_x),
                Some(relative_y),
                Some(width),
                Some(height),
            ) => Some(
                EventData {
                    name,
                    instance,
                    x,
                    y,
                    button,
                    event,
                    relative_x,
                    relative_y,
                    width,
                    height,
                },
            ),
            _ => None,
        },
        None => None,
    }
}

/// Dropping whitespace never lengthens the input.
pub proof fn lemma_skip_ws_len(s: Seq<char>)
    ensures
        skip_ws(s).len() <= s.len(),
    decreases s.len(),
{
    if s.len() > 0 && is_ws(s[0]) {
        lemma_skip_ws_len(s.skip(1));
    }
}

/// A parsed string body consumes at least its closing quote.
pub proof fn lemma_string_body_len(s: Seq<char>)
    ensures
        match p_string_body(s) {
            Some((t, r)) => r.len() < s.len(),
            None => true,
        },
    decreases s.len(),
{
    if s.len() == 0 {
    } else if s[0] == '"' {
    } else if s[0] == '\\' {
        if s.len() < 2 {
        } else if s[1] == 'u' {
            if s.len() >= 6 {
                lemma_string_body_len(s.skip(6));
            }
            if s.len() >= 12 {
                lemma_string_body_len(s.skip(12));
            }
        } else {
            lemma_string_body_len(s.skip(2));
        }
    } else {
        lemma_string_body_len(s.skip(1));
    }
}

/// A digit run never lengthens the input.
pub proof fn lemma_digits_len(s: Seq<char>, acc: nat)
    ensures
        p_digits(s, acc).1.len() <= s.len(),
    decreases s.len(),
{
    if s.len() > 0 && is_digit(s[0]) {
        lemma_digits_len(s.skip(1), acc * 10 + digit_val(s[0]));
    }
}

/// A parsed number consumes at least one digit.
pub proof fn lemma_number_len(s: Seq<char>)
    ensures
        match p_number(s) {
            Some((n, r)) => r.len() < s.len(),
            None => true,
        },
{
    if s.len() > 0 && is_digit(s[0]) && s[0] != '0' {
        lemma_digits_len(s.skip(1), digit_val(s[0]));
    }
}

/// A dropped digit run never lengthens the input.
pub proof fn lemma_digits_end_len(s: Seq<char>)
    ensures
        digits_end(s).len() <= s.len(),
    decreases s.len(),
{
    if s.len() > 0 && is_digit(s[0]) {
        lemma_digits_end_len(s.skip(1));
    }
}

/// A skipped number consumes at least one character.
pub proof fn lemma_skip_number_len(s: Seq<char>)
    ensures
        match p_skip_number(s) {
            Some(r) => r.len() < s.len(),
            None => true,
        },
{
    let s1 = if s.len() > 0 && s[0] == '-' {
        s.skip(1)
    } else {
        s
    };
    if s1.len() > 0 && is_digit(s1[0]) {
        lemma_digits_end_len(s1.skip(1));
        let s2 = if s1[0] == '0' {
            s1.skip(1)
        } else {
            digits_end(s1)
        };
        assert(s2.len() < s1.len());
        if s2.len() > 0 && s2[0] == '.' && s2.len() >= 2 && is_digit(s2[1]) {
            lemma_digits_end_len(s2.skip(1));
        }
        match p_skip_frac(s2) {
            Some(s3) => {
                assert(s3.len() <= s2.len());
                if s3.len() > 0 && (s3[0] == 'e' || s3[0] == 'E') {
                    lemma_digits_end_len(s3.skip(1));
                    lemma_digits_end_len(s3.skip(2));
                }
            },
            None => {},
        }
    }
}

/// A skipped value consumes at least one character.
pub proof fn lemma_skip_value_len(s: Seq<char>, depth: nat)
    ensures
        match p_skip_value(s, depth) {
            Some(r) => r.len() < s.len(),
            None => true,
        },
    decreases depth, s.len(), 0int,
{
    if s.len() > 0 && s[0] == '"' {
        lemma_string_body_len(s.skip(1));
    }
    lemma_skip_number_len(s);
    if s.len() > 0 && s[0] == '[' && depth > 0 {
        lemma_skip_array_len(s.skip(1), (depth - 1) as nat);
    }
    if s.len() > 0 && s[0] == '{' && depth > 0 {
        lemma_skip_object_len(s.skip(1), (depth - 1) as nat);
    }
}

/// A skipped array tail consumes at least its closing bracket.
pub proof fn lemma_skip_array_len(s: Seq<char>, depth: nat)
    ensures
        match p_skip_array(s, depth) {
            Some(r) => r.len() < s.len(),
            None => true,
        },
    decreases depth, s.len(), 2int,
{
    lemma_skip_ws_len(s);
    let s1 = skip_ws(s);
    if !(s1.len() > 0 && s1[0] == ']') && s1.len() <= s.len() {
        lemma_skip_items_len(s1, depth);
    }
}

/// Skipped array items consume at least one value and the bracket.
pub proof fn lemma_skip_items_len(s: Seq<char>, depth: nat)
    ensures
        match p_skip_items(s, depth) {
            Some(r) => r.len() < s.len(),
            None => true,
        },
    decreases depth, s.len(), 1int,
{
    lemma_skip_value_len(s, depth);
    match p_skip_value(s, depth) {
        Some(r) => {
            lemma_skip_ws_len(r);
            let r1 = skip_ws(r);
            if r1.len() > 0 && r1[0] == ',' {
                lemma_skip_ws_len(r1.skip(1));
                let r2 = skip_ws(r1.skip(1));
                if r2.len() < s.len() {
                    lemma_skip_items_len(r2, depth);
                }
            }
        },
        None => {},
    }
}

/// A skipped object tail consumes at least its closing brace.
pub proof fn lemma_skip_object_len(s: Seq<char>, depth: nat)
    ensures
        match p_skip_object(s, depth) {
            Some(r) => r.len() < s.len(),
            None => true,
        },
    decreases depth, s.len(), 2int,
{
    lemma_skip_ws_len(s);
    let s1 = skip_ws(s);
    if !(s1.len() > 0 && s1[0] == '}') && s1.len() <= s.len() {
        lemma_skip_obj_members_len(s1, depth);
    }
}

/// Skipped object members consume at least one pair and the brace.
pub proof fn lemma_skip_obj_members_len(s: Seq<char>, depth: nat)
    ensures
        match p_skip_obj_members(s, depth) {
            Some(r) => r.len() < s.len(),
            None => true,
        },
    decreases depth, s.len(), 1int,
{
    if s.len() > 0 && s[0] == '"' {
        lemma_string_body_len(s.skip(1));
        match p_string_body(s.skip(1)) {
            Some((k, r)) => {
                lemma_skip_ws_len(r);
                let r1 = skip_ws(r);
                if r1.len() > 0 && r1[0] == ':' {
                    lemma_skip_ws_len(r1.skip(1));
                    let r2 = skip_ws(r1.skip(1));
                    if r2.len() < s.len() {
                        lemma_skip_value_len(r2, depth);
                        match p_skip_value(r2, depth) {
                            Some(r3) => {
                                lemma_skip_ws_len(r3);
                                let r4 = skip_ws(r3);
                                if r4.len() > 0 && r4[0] == ',' {
                                    lemma_skip_ws_len(r4.skip(1));
                                    let r5 = skip_ws(r4.skip(1));
                                    if r5.len() < s.len() {
                                        lemma_skip_obj_members_len(r5, depth);
                                    }
                                }
                            },
                            None => {},
                        }
                    }
                }
            },
            None => {},
        }
    }
}

/// A parse result with a previously decoded prefix prepended to the
/// text.
pub open spec fn pre_result(r: Option<(Seq<char>, Seq<char>)>, pre: Seq<char>) -> Option<
    (Seq<char>, Seq<char>),
> {
    match r {
        Some((t, rest)) => Some((pre + t, rest)),
        None => None,
    }
}

/// Prepending nothing changes nothing.
proof fn lemma_pre_empty(r: Option<(Seq<char>, Seq<char>)>)
    ensures
        pre_result(r, Seq::empty()) == r,
{
    match r {
        Some((t, rest)) => {
            assert(Seq::<char>::empty() + t =~= t);
        },
        None => {},
    }
}

/// Moving a decoded character from the result onto the prefix.
proof fn lemma_pre_cons(pre: Seq<char>, c: char, r: Option<(Seq<char>, Seq<char>)>)
    ensures
        pre_result(cons_result(c, r), pre) == pre_result(r, pre.push(c)),
{
    match r {
        Some((t, rest)) => {
            assert(pre + (seq![c] + t) =~= pre.push(c) + t);
        },
        None => {},
    }
}

/// Skipping twice skips the sum.
proof fn lemma_skip_skip(s: Seq<char>, i: int, k: int)
    requires
        0 <= i,
        0 <= k,
        i + k <= s.len(),
    ensures
        s.skip(i).skip(k) == s.skip(i + k),
{
    assert(s.skip(i).skip(k) =~= s.skip(i + k));
}

/// A digit run can only grow the accumulator.
proof fn lemma_digits_lower(s: Seq<char>, acc: nat)
    ensures
        p_digits(s, acc).0 >= acc,
    decreases s.len(),
{
    if s.len() > 0 && is_digit(s[0]) {
        lemma_digits_lower(s.skip(1), acc * 10 + digit_val(s[0]));
    }
}

/// A parsed member leaves a strictly shorter input.
pub proof fn lemma_member_len(s: Seq<char>, acc: EventAcc)
    ensures
        match p_member(s, acc) {
            Some((a, r)) => r.len() < s.len(),
            None => true,
        },
{
    let s1 = skip_ws(s);
    lemma_skip_ws_len(s);
    if s1.len() > 0 && s1[0] == '"' {
        lemma_string_body_len(s1.skip(1));
        match p_string_body(s1.skip(1)) {
            Some((key, s2)) => {
                let s3 = skip_ws(s2);
                lemma_skip_ws_len(s2);
                if s3.len() > 0 && s3[0] == ':' {
                    let s4 = skip_ws(s3.skip(1));
                    lemma_skip_ws_len(s3.skip(1));
                    lemma_string_body_len(s4.skip(1));
                    lemma_number_len(s4);
                    lemma_skip_value_len(s4, MAX_VALUE_NESTING as nat);
                }
            },
            None => {},
        }
    }
}

/// Relies on `char::from_u32`: `Some` exactly on Unicode scalar values,
/// returning the character with that value.
pub assume_specification[ char::from_u32 ](i: u32) -> (r: Option<char>)
    ensures
        match r {
            Some(c) => valid_scalar(i as nat) && c as u32 == i,
            None => !valid_scalar(i as nat),
        },
;

/// The index where the whitespace run starting at `i` ends.
fn ws_end(s: &str, i: usize) -> (j: usize)
    requires
        i <= s@.len(),
    ensures
        i <= j <= s@.len(),
        skip_ws(s@.skip(i as int)) == s@.skip(j as int),
{
    let n: usize = s.unicode_len();
    let mut j: usize = i;
    while j < n
        invariant
            i <= j <= n,
            n == s@.len(),
            skip_ws(s@.skip(i as int)) == skip_ws(s@.skip(j as int)),
        decreases n - j,
    {
        let c = s.get_char(j);
        proof {
            assert(s@.skip(j as int)[0] == s@[j as int]);
        }
        if c == ' ' || c == '\t' || c == '\n' || c == '\r' {
            proof {
                lemma_skip_skip(s@, j as int, 1);
            }
            j = j + 1;
        } else {
            return j;
        }
    }
    proof {
        assert(s@.skip(j as int).len() == 0);
    }
    j
}

/// The value of one hexadecimal digit character, either case.
fn hex_digit_at(c: char) -> (r: Option<u8>)
    ensures
        match r {
            Some(v) => v < 16 && hex_val(c) == Some(v as nat),
            None => hex_val(c) is None,
        },
{
    let u: u32 = c as u32;
    if 0x30 <= u && u <= 0x39 {
        Some((u - 0x30) as u8)
    } else if 0x61 <= u && u <= 0x66 {
        Some((u - 0x57) as u8)
    } else if 0x41 <= u && u <= 0x46 {
        Some((u - 0x37) as u8)
    } else {
        None
    }
}

/// Decodes a string-literal body starting at `i` (just past the opening
/// quote), returning the text and the index past the closing quote.
fn string_body_at(s: &str, i: usize) -> (r: Option<(String, usize)>)
    requires
        i <= s@.len(),
    ensures
        match r {
            Some((t, j)) => i <= j <= s@.len() && p_string_body(s@.skip(i as int)) == Some(
                (t@, s@.skip(j as int)),
            ),
            None => p_string_body(s@.skip(i as int)) is None,
        },
{
    let n: usize = s.unicode_len();
    let mut acc = String::new();
    let mut cur: usize = i;
    proof {
        lemma_pre_empty(p_string_body(s@.skip(i as int)));
    }
    while cur < n
        invariant
            i <= cur <= n,
            n == s@.len(),
            p_string_body(s@.skip(i as int)) == pre_result(
                p_string_body(s@.skip(cur as int)),
                acc@,
            ),
        decreases n - cur,
    {
        let c = s.get_char(cur);
        proof {
            assert(s@.skip(cur as int)[0] == s@[cur as int]);
            assert(s@.skip(cur as int).len() == n - cur);
        }
        if c == '"' {
            proof {
                lemma_skip_skip(s@, cur as int, 1);
                assert(acc@ + Seq::<char>::empty() =~= acc@);
            }
            return Some((acc, cur + 1));
        } else if c == '\\' {
            if cur + 1 >= n {
                return None;
            }
            let e = s.get_char(cur + 1);
            proof {
                assert(s@.skip(cur as int)[1] == s@[cur as int + 1]);
            }
            if e == 'u' {
                if n - cur < 6 {
                    return None;
                }
                let c1 = s.get_char(cur + 2);
                let c2 = s.get_char(cur + 3);
                let c3 = s.get_char(cur + 4);
                let c4 = s.get_char(cur + 5);
                proof {
                    assert(s@.skip(cur as int)[2] == s@[cur as int + 2]);
                    assert(s@.skip(cur as int)[3] == s@[cur as int + 3]);
                    assert(s@.skip(cur as int)[4] == s@[cur as int + 4]);
                    assert(s@.skip(cur as int)[5] == s@[cur as int + 5]);
                }
                let h1 = match hex_digit_at(c1) {
                    Some(v) => v,
                    None => { return None; },
                };
                let h2 = match hex_digit_at(c2) {
                    Some(v) => v,
                    None => { return None; },
                };
                let h3 = match hex_digit_at(c3) {
                    Some(v) => v,
                    None => { return None; },
                };
                let h4 = match hex_digit_at(c4) {
                    Some(v) => v,
                    None => { return None; },
                };
                let code: u32 = (h1 as u32) * 4096 + (h2 as u32) * 256 + (h3 as u32) * 16 + (
                h4 as u32);
                match char::from_u32(code) {
                    Some(ch) => {
                        proof {
                            char_u32_cast(ch, code);
                            assert(ch == code_char(code as nat));
                            lemma_skip_skip(s@, cur as int, 6);
                            lemma_pre_cons(
                                acc@,
                                ch,
                                p_string_body(s@.skip(cur as int + 6)),
                            );
                        }
                        acc.push(ch);
                        cur = cur + 6;
                    },
                    None => {
                        if !(0xD800 <= code && code <= 0xDBFF) {
                            return None;
                        }
                        if n - cur < 12 {
                            return None;
                        }
                        proof {
                            assert(s@.skip(cur as int)[6] == s@[cur as int + 6]);
                            assert(s@.skip(cur as int)[7] == s@[cur as int + 7]);
                            assert(s@.skip(cur as int)[8] == s@[cur as int + 8]);
                            assert(s@.skip(cur as int)[9] == s@[cur as int + 9]);
                            assert(s@.skip(cur as int)[10] == s@[cur as int + 10]);
                            assert(s@.skip(cur as int)[11] == s@[cur as int + 11]);
                        }
                        if s.get_char(cur + 6) != '\\' || s.get_char(cur + 7) != 'u' {
                            return None;
                        }
                        let g1 = match hex_digit_at(s.get_char(cur + 8)) {
                            Some(v) => v,
                            None => { return None; },
                        };
                        let g2 = match hex_digit_at(s.get_char(cur + 9)) {
                            Some(v) => v,
                            None => { return None; },
                        };
                        let g3 = match hex_digit_at(s.get_char(cur + 10)) {
                            Some(v) => v,
                            None => { return None; },
                        };
                        let g4 = match hex_digit_at(s.get_char(cur + 11)) {
                            Some(v) => v,
                            None => { return None; },
                        };
                        let low: u32 = (g1 as u32) * 4096 + (g2 as u32) * 256 + (g3 as u32) * 16
                            + (g4 as u32);
                        if !(0xDC00 <= low && low <= 0xDFFF) {
                            return None;
                        }
                        let combined: u32 = 0x10000 + (code - 0xD800) * 0x400 + (low - 0xDC00);
                        proof {
                            assert(valid_scalar(combined as nat));
                        }
                        match char::from_u32(combined) {
                            Some(ch) => {
                                proof {
                                    char_u32_cast(ch, combined);
                                    assert(ch == code_char(combined as nat));
                                    lemma_skip_skip(s@, cur as int, 12);
                                    lemma_pre_cons(
                                        acc@,
                                        ch,
                                        p_string_body(s@.skip(cur as int + 12)),
                                    );
                                }
                                acc.push(ch);
                                cur = cur + 12;
                            },
                            None => {
                                proof {
                                    assert(false);
                                }
                                return None;
                            },
                        }
                    },
                }
            } else {
                let ch: char;
                if e == '"' {
                    ch = '"';
                } else if e == '\\' {
                    ch = '\\';
                } else if e == '/' {
                    ch = '/';
                } else if e == 'b' {
                    ch = '\u{8}';
                } else if e == 'f' {
                    ch = '\u{c}';
                } else if e == 'n' {
                    ch = '\n';
                } else if e == 'r' {
                    ch = '\r';
                } else if e == 't' {
                    ch = '\t';
                } else {
                    return None;
                }
                proof {
                    assert(unescape_short(e) == Some(ch));
                    lemma_skip_skip(s@, cur as int, 2);
                    lemma_pre_cons(acc@, ch, p_string_body(s@.skip(cur as int + 2)));
                }
                acc.push(ch);
                cur = cur + 2;
            }
        } else if (c as u32) < 0x20 {
            return None;
        } else {
            proof {
                lemma_skip_skip(s@, cur as int, 1);
                lemma_pre_cons(acc@, c, p_string_body(s@.skip(cur as int + 1)));
            }
            acc.push(c);
            cur = cur + 1;
        }
    }
    proof {
        assert(s@.skip(cur as int).len() == 0);
    }
    None
}

/// Decodes a non-negative 32-bit integer starting at `i`.
fn number_at(s: &str, i: usize) -> (r: Option<(u32, usize)>)
    requires
        i <= s@.len(),
    ensures
        match r {
            Some((v, j)) => i <= j <= s@.len() && p_number(s@.skip(i as int)) == Some(
                (v as nat, s@.skip(j as int)),
            ),
            None => p_number(s@.skip(i as int)) is None,
        },
{
    let n: usize = s.unicode_len();
    if i >= n {
        proof {
            assert(s@.skip(i as int).len() == 0);
        }
        return None;
    }
    let c0 = s.get_char(i);
    proof {
        assert(s@.skip(i as int)[0] == s@[i as int]);
    }
    if !('0' <= c0 && c0 <= '9') {
        proof {
            assert(!is_digit(s@.skip(i as int)[0]));
        }
        return None;
    }
    if c0 == '0' {
        proof {
            lemma_skip_skip(s@, i as int, 1);
        }
        return Some((0, i + 1));
    }
    let mut acc: u64 = 0;
    let mut cur: usize = i;
    while cur < n
        invariant
            i <= cur <= n,
            n == s@.len(),
            acc <= 0xFFFF_FFFF,
            s@.skip(i as int).len() > 0,
            is_digit(s@.skip(i as int)[0]),
            s@.skip(i as int)[0] != '0',
            p_digits(s@.skip(i as int), 0) == p_digits(s@.skip(cur as int), acc as nat),
        decreases n - cur,
    {
        let c = s.get_char(cur);
        proof {
            assert(s@.skip(cur as int)[0] == s@[cur as int]);
        }
        if '0' <= c && c <= '9' {
            let d: u32 = (c as u32) - 0x30;
            let next: u64 = acc * 10 + (d as u64);
            proof {
                lemma_skip_skip(s@, cur as int, 1);
                assert(p_digits(s@.skip(cur as int), acc as nat) == p_digits(
                    s@.skip(cur as int + 1),
                    (acc * 10 + d) as nat,
                ));
            }
            if next > 0xFFFF_FFFF {
                proof {
                    lemma_digits_lower(s@.skip(cur as int + 1), next as nat);
                }
                return None;
            }
            acc = next;
            cur = cur + 1;
        } else {
            return Some((acc as u32, cur));
        }
    }
    proof {
        assert(s@.skip(cur as int).len() == 0);
    }
    Some((acc as u32, n))
}

/// The index where the digit run starting at `i` ends.
fn digits_run_end(s: &str, i: usize) -> (j: usize)
    requires
        i <= s@.len(),
    ensures
        i <= j <= s@.len(),
        digits_end(s@.skip(i as int)) == s@.skip(j as int),
{
    let n: usize = s.unicode_len();
    let mut j: usize = i;
    while j < n
        invariant
            i <= j <= n,
            n == s@.len(),
            digits_end(s@.skip(i as int)) == digits_end(s@.skip(j as int)),
        decreases n - j,
    {
        let c = s.get_char(j);
        proof {
            assert(s@.skip(j as int)[0] == s@[j as int]);
        }
        if '0' <= c && c <= '9' {
            proof {
                lemma_skip_skip(s@, j as int, 1);
            }
            j = j + 1;
        } else {
            return j;
        }
    }
    proof {
        assert(s@.skip(j as int).len() == 0);
    }
    j
}

/// Skips one JSON number of any shape starting at `i`.
fn skip_number_at(s: &str, i: usize) -> (r: Option<usize>)
    requires
        i <= s@.len(),
    ensures
        match r {
            Some(j) => i <= j <= s@.len() && p_skip_number(s@.skip(i as int)) == Some(
                s@.skip(j as int),
            ),
            None => p_skip_number(s@.skip(i as int)) is None,
        },
{
    let n: usize = s.unicode_len();
    let mut p: usize = i;
    proof {
        assert(s@.skip(i as int).len() == n - i);
        if i < n {
            assert(s@.skip(i as int)[0] == s@[i as int]);
        }
    }
    if p < n && s.get_char(p) == '-' {
        proof {
            lemma_skip_skip(s@, p as int, 1);
        }
        p = p + 1;
    }
    if p >= n {
        proof {
            assert(s@.skip(p as int).len() == 0);
        }
        return None;
    }
    let c = s.get_char(p);
    proof {
        assert(s@.skip(p as int)[0] == s@[p as int]);
    }
    if !('0' <= c && c <= '9') {
        return None;
    }
    let q: usize = if c == '0' {
        proof {
            lemma_skip_skip(s@, p as int, 1);
        }
        p + 1
    } else {
        digits_run_end(s, p)
    };
    proof {
        assert(s@.skip(q as int).len() == n - q);
        if q < n {
            assert(s@.skip(q as int)[0] == s@[q as int]);
        }
    }
    let q2: usize;
    if q < n && s.get_char(q) == '.' {
        if q + 1 < n && '0' <= s.get_char(q + 1) && s.get_char(q + 1) <= '9' {
            proof {
                assert(s@.skip(q as int)[1] == s@[q as int + 1]);
                lemma_skip_skip(s@, q as int, 1);
            }
            q2 = digits_run_end(s, q + 1);
        } else {
            proof {
                if q + 1 < n {
                    assert(s@.skip(q as int)[1] == s@[q as int + 1]);
                }
            }
            return None;
        }
    } else {
        q2 = q;
    }
    proof {
        assert(p_skip_frac(s@.skip(q as int)) == Some(s@.skip(q2 as int)));
        assert(s@.skip(q2 as int).len() == n - q2);
        if q2 < n {
            assert(s@.skip(q2 as int)[0] == s@[q2 as int]);
        }
    }
    if q2 < n && (s.get_char(q2) == 'e' || s.get_char(q2) == 'E') {
        let mut q3: usize = q2 + 1;
        proof {
            if q2 + 1 < n {
                assert(s@.skip(q2 as int)[1] == s@[q2 as int + 1]);
            }
            lemma_skip_skip(s@, q2 as int, 1);
        }
        if q3 < n && (s.get_char(q3) == '+' || s.get_char(q3) == '-') {
            proof {
                lemma_skip_skip(s@, q2 as int, 2);
            }
            q3 = q3 + 1;
        }
        if q3 >= n {
            proof {
                assert(s@.skip(q3 as int).len() == 0);
            }
            return None;
        }
        let c3 = s.get_char(q3);
        proof {
            assert(s@.skip(q3 as int)[0] == s@[q3 as int]);
        }
        if !('0' <= c3 && c3 <= '9') {
            return None;
        }
        let q4 = digits_run_end(s, q3);
        Some(q4)
    } else {
        Some(q2)
    }
}

/// Skips one ignored JSON value of any shape starting at `i`, nesting
/// at most `depth` containers deep.
fn skip_value_at(s: &str, i: usize, depth: u32) -> (r: Option<usize>)
    requires
        i <= s@.len(),
    ensures
        match r {
            Some(j) => i <= j <= s@.len() && p_skip_value(s@.skip(i as int), depth as nat) == Some(
                s@.skip(j as int),
            ),
            None => p_skip_value(s@.skip(i as int), depth as nat) is None,
        },
    decreases depth,
{
    let n: usize = s.unicode_len();
    if i >= n {
        proof {
            assert(s@.skip(i as int).len() == 0);
        }
        return None;
    }
    let c = s.get_char(i);
    proof {
        assert(s@.skip(i as int)[0] == s@[i as int]);
        assert(s@.skip(i as int).len() == n - i);
    }
    if c == '"' {
        proof {
            lemma_skip_skip(s@, i as int, 1);
        }
        match string_body_at(s, i + 1) {
            Some((_t, j)) => Some(j),
            None => None,
        }
    } else if c == '-' || ('0' <= c && c <= '9') {
        skip_number_at(s, i)
    } else if c == '[' {
        if depth == 0 {
            return None;
        }
        proof {
            lemma_skip_skip(s@, i as int, 1);
            lemma_skip_ws_len(s@.skip(i as int + 1));
        }
        let j0 = ws_end(s, i + 1);
        proof {
            assert(s@.skip(j0 as int).len() == n - j0);
            if j0 < n {
                assert(s@.skip(j0 as int)[0] == s@[j0 as int]);
            }
        }
        if j0 < n && s.get_char(j0) == ']' {
            proof {
                lemma_skip_skip(s@, j0 as int, 1);
            }
            return Some(j0 + 1);
        }
        let ghost d1: nat = (depth - 1) as nat;
        proof {
            assert(p_skip_array(s@.skip(i as int + 1), d1) == p_skip_items(s@.skip(j0 as int), d1));
        }
        let mut cur: usize = j0;
        loop
            invariant
                i < cur <= n,
                n == s@.len(),
                depth >= 1,
                d1 == (depth - 1) as nat,
                p_skip_value(s@.skip(i as int), depth as nat) == p_skip_items(
                    s@.skip(cur as int),
                    d1,
                ),
            decreases n - cur,
        {
            proof {
                lemma_skip_value_len(s@.skip(cur as int), d1);
            }
            match skip_value_at(s, cur, depth - 1) {
                None => {
                    return None;
                },
                Some(j) => {
                    proof {
                        lemma_skip_ws_len(s@.skip(j as int));
                    }
                    let j1 = ws_end(s, j);
                    if j1 >= n {
                        proof {
                            assert(skip_ws(s@.skip(j as int)).len() == 0);
                        }
                        return None;
                    }
                    let c1 = s.get_char(j1);
                    proof {
                        assert(s@.skip(j1 as int)[0] == s@[j1 as int]);
                    }
                    if c1 == ',' {
                        proof {
                            lemma_skip_skip(s@, j1 as int, 1);
                            lemma_skip_ws_len(s@.skip(j1 as int + 1));
                        }
                        let j2 = ws_end(s, j1 + 1);
                        cur = j2;
                    } else if c1 == ']' {
                        proof {
                            lemma_skip_skip(s@, j1 as int, 1);
                        }
                        return Some(j1 + 1);
                    } else {
                        return None;
                    }
                },
            }
        }
    } else if c == '{' {
        if depth == 0 {
            return None;
        }
        proof {
            lemma_skip_skip(s@, i as int, 1);
            lemma_skip_ws_len(s@.skip(i as int + 1));
        }
        let j0 = ws_end(s, i + 1);
        proof {
            assert(s@.skip(j0 as int).len() == n - j0);
            if j0 < n {
                assert(s@.skip(j0 as int)[0] == s@[j0 as int]);
            }
        }
        if j0 < n && s.get_char(j0) == '}' {
            proof {
                lemma_skip_skip(s@, j0 as int, 1);
            }
            return Some(j0 + 1);
        }
        let ghost d1: nat = (depth - 1) as nat;
        proof {
            assert(p_skip_object(s@.skip(i as int + 1), d1) == p_skip_obj_members(
                s@.skip(j0 as int),
                d1,
            ));
        }
        let mut cur: usize = j0;
        loop
            invariant
                i < cur <= n,
                n == s@.len(),
                depth >= 1,
                d1 == (depth - 1) as nat,
                p_skip_value(s@.skip(i as int), depth as nat) == p_skip_obj_members(
                    s@.skip(cur as int),
                    d1,
                ),
            decreases n - cur,
        {
            if cur >= n {
                proof {
                    assert(s@.skip(cur as int).len() == 0);
                }
                return None;
            }
            let ck = s.get_char(cur);
            proof {
                assert(s@.skip(cur as int)[0] == s@[cur as int]);
            }
            if ck != '"' {
                return None;
            }
            proof {
                lemma_skip_skip(s@, cur as int, 1);
                lemma_string_body_len(s@.skip(cur as int + 1));
            }
            match string_body_at(s, cur + 1) {
                None => {
                    return None;
                },
                Some((_k, j)) => {
                    proof {
                        lemma_skip_ws_len(s@.skip(j as int));
                    }
                    let j1 = ws_end(s, j);
                    if j1 >= n {
                        proof {
                            assert(skip_ws(s@.skip(j as int)).len() == 0);
                        }
                        return None;
                    }
                    let c1 = s.get_char(j1);
                    proof {
                        assert(s@.skip(j1 as int)[0] == s@[j1 as int]);
                    }
                    if c1 != ':' {
                        return None;
                    }
                    proof {
                        lemma_skip_skip(s@, j1 as int, 1);
                        lemma_skip_ws_len(s@.skip(j1 as int + 1));
                    }
                    let j2 = ws_end(s, j1 + 1);
                    proof {
                        lemma_skip_value_len(s@.skip(j2 as int), d1);
                    }
                    match skip_value_at(s, j2, depth - 1) {
                        None => {
                            return None;
                        },
                        Some(j3) => {
                            proof {
                                lemma_skip_ws_len(s@.skip(j3 as int));
                            }
                            let j4 = ws_end(s, j3);
                            if j4 >= n {
                                proof {
                                    assert(skip_ws(s@.skip(j3 as int)).len() == 0);
                                }
                                return None;
                            }
                            let c4 = s.get_char(j4);
                            proof {
                                assert(s@.skip(j4 as int)[0] == s@[j4 as int]);
                            }
                            if c4 == ',' {
                                proof {
                                    lemma_skip_skip(s@, j4 as int, 1);
                                    lemma_skip_ws_len(s@.skip(j4 as int + 1));
                                }
                                let j5 = ws_end(s, j4 + 1);
                                cur = j5;
                            } else if c4 == '}' {
                                proof {
                                    lemma_skip_skip(s@, j4 as int, 1);
                                }
                                return Some(j4 + 1);
                            } else {
                                return None;
                            }
                        },
                    }
                },
            }
        }
    } else if c == 't' {
        if n - i >= 4 && s.get_char(i + 1) == 'r' && s.get_char(i + 2) == 'u' && s.get_char(i + 3)
            == 'e' {
            proof {
                assert(s@.skip(i as int)[1] == s@[i as int + 1]);
                assert(s@.skip(i as int)[2] == s@[i as int + 2]);
                assert(s@.skip(i as int)[3] == s@[i as int + 3]);
                lemma_skip_skip(s@, i as int, 4);
            }
            Some(i + 4)
        } else {
            proof {
                if n - i >= 4 {
                    assert(s@.skip(i as int)[1] == s@[i as int + 1]);
                    assert(s@.skip(i as int)[2] == s@[i as int + 2]);
                    assert(s@.skip(i as int)[3] == s@[i as int + 3]);
                }
            }
            None
        }
    } else if c == 'f' {
        if n - i >= 5 && s.get_char(i + 1) == 'a' && s.get_char(i + 2) == 'l' && s.get_char(i + 3)
            == 's' && s.get_char(i + 4) == 'e' {
            proof {
                assert(s@.skip(i as int)[1] == s@[i as int + 1]);
                assert(s@.skip(i as int)[2] == s@[i as int + 2]);
                assert(s@.skip(i as int)[3] == s@[i as int + 3]);
                assert(s@.skip(i as int)[4] == s@[i as int + 4]);
                lemma_skip_skip(s@, i as int, 5);
            }
            Some(i + 5)
        } else {
            proof {
                if n - i >= 5 {
                    assert(s@.skip(i as int)[1] == s@[i as int + 1]);
                    assert(s@.skip(i as int)[2] == s@[i as int + 2]);
                    assert(s@.skip(i as int)[3] == s@[i as int + 3]);
                    assert(s@.skip(i as int)[4] == s@[i as int + 4]);
                }
            }
            None
        }
    } else if c == 'n' {
        if n - i >= 4 && s.get_char(i + 1) == 'u' && s.get_char(i + 2) == 'l' && s.get_char(i + 3)
            == 'l' {
            proof {
                assert(s@.skip(i as int)[1] == s@[i as int + 1]);
                assert(s@.skip(i as int)[2] == s@[i as int + 2]);
                assert(s@.skip(i as int)[3] == s@[i as int + 3]);
                lemma_skip_skip(s@, i as int, 4);
            }
            Some(i + 4)
        } else {
            proof {
                if n - i >= 4 {
                    assert(s@.skip(i as int)[1] == s@[i as int + 1]);
                    assert(s@.skip(i as int)[2] == s@[i as int + 2]);
                    assert(s@.skip(i as int)[3] == s@[i as int + 3]);
                }
            }
            None
        }
    } else {
        None
    }
}

/// The fields gathered so far by the exec decoder, mirroring `EventAcc`.
struct AccState {
    name: Option<String>,
    instance: Option<String>,
    x: Option<u32>,
    y: Option<u32>,
    button: Option<u32>,
    event: Option<u32>,
    relative_x: Option<u32>,
    relative_y: Option<u32>,
    width: Option<u32>,
    height: Option<u32>,
}

impl View for AccState {
    type V = EventAcc;

    closed spec fn view(&self) -> EventAcc {
        EventAcc {
            name: match self.name {
                Some(s) => Some(s@),
                None => None,
            },
            instance: match self.instance {
                Some(s) => Some(s@),
                None => None,
            },
            x: match self.x {
                Some(n) => Some(n as nat),
                None => None,
            },
            y: match self.y {
                Some(n) => Some(n as nat),
                None => None,
            },
            button: match self.button {
                Some(n) => Some(n as nat),
                None => None,
            },
            event: match self.event {
                Some(n) => Some(n as nat),
                None => None,
            },
            relative_x: match self.relative_x {
                Some(n) => Some(n as nat),
                None => None,
            },
            relative_y: match self.relative_y {
                Some(n) => Some(n as nat),
                None => None,
            },
            width: match self.width {
                Some(n) => Some(n as nat),
                None => None,
            },
            height: match self.height {
                Some(n) => Some(n as nat),
                None => None,
            },
        }
    }
}

/// Decodes one member's value starting at `i`, dispatched on the key
/// just as `p_member_value` is, storing a recognized field into `st`.
#[verifier::rlimit(100)]
#[verifier::spinoff_prover]
fn member_value_at(s: &str, key: &String, i: usize, st: &mut AccState) -> (r: Option<usize>)
    requires
        i <= s@.len(),
    ensures
        match r {
            Some(j) => i <= j <= s@.len() && p_member_value(key@, s@.skip(i as int), old(st)@)
                == Some((final(st)@, s@.skip(j as int))),
            None => p_member_value(key@, s@.skip(i as int), old(st)@) is None && *final(st) == *old(
                st,
            ),
        },
{
    let n: usize = s.unicode_len();
    proof {
        lemma_event_keys_distinct();
        assert(s@.skip(i as int).len() == n - i);
        if i < n {
            assert(s@.skip(i as int)[0] == s@[i as int]);
        }
    }
    if *key == String::from_str("name") {
        proof {
            reveal_strlit("name");
            assert("name"@ =~= k_name());
        }
        if st.name.is_some() {
            return None;
        }
        if i >= n || s.get_char(i) != '"' {
            return None;
        }
        proof {
            lemma_skip_skip(s@, i as int, 1);
        }
        match string_body_at(s, i + 1) {
            Some((v, j)) => {
                st.name = Some(v);
                Some(j)
            },
            None => None,
        }
    } else if *key == String::from_str("instance") {
        proof {
            reveal_strlit("instance");
            assert("instance"@ =~= k_instance());
        }
        if st.instance.is_some() {
            return None;
        }
        if i >= n || s.get_char(i) != '"' {
            return None;
        }
        proof {
            lemma_skip_skip(s@, i as int, 1);
        }
        match string_body_at(s, i + 1) {
            Some((v, j)) => {
                st.instance = Some(v);
                Some(j)
            },
            None => None,
        }
    } else if *key == String::from_str("x") {
        proof {
            reveal_strlit("x");
            assert("x"@ =~= k_x());
        }
        if st.x.is_some() {
            return None;
        }
        match number_at(s, i) {
            Some((v, j)) => {
                st.x = Some(v);
                Some(j)
            },
            None => None,
        }
    } else if *key == String::from_str("y") {
        proof {
            reveal_strlit("y");
            assert("y"@ =~= k_y());
        }
        if st.y.is_some() {
            return None;
        }
        match number_at(s, i) {
            Some((v, j)) => {
                st.y = Some(v);
                Some(j)
            },
            None => None,
        }
    } else if *key == String::from_str("button") {
        proof {
            reveal_strlit("button");
            assert("button"@ =~= k_button());
        }
        if st.button.is_some() {
            return None;
        }
        match number_at(s, i) {
            Some((v, j)) => {
                st.button = Some(v);
                Some(j)
            },
            None => None,
        }
    } else if *key == String::from_str("event") {
        proof {
            reveal_strlit("event");
            assert("event"@ =~= k_event());
        }
        if st.event.is_some() {
            return None;
        }
        match number_at(s, i) {
            Some((v, j)) => {
                st.event = Some(v);
                Some(j)
            },
            None => None,
        }
    } else if *key == String::from_str("relative_x") {
        proof {
            reveal_strlit("relative_x");
            assert("relative_x"@ =~= k_relative_x());
        }
        if st.relative_x.is_some() {
            return None;
        }
        match number_at(s, i) {
            Some((v, j)) => {
                st.relative_x = Some(v);
                Some(j)
            },
            None => None,
        }
    } else if *key == String::from_str("relative_y") {
        proof {
            reveal_strlit("relative_y");
            assert("relative_y"@ =~= k_relative_y());
        }
        if st.relative_y.is_some() {
            return None;
        }
        match number_at(s, i) {
            Some((v, j)) => {
                st.relative_y = Some(v);
                Some(j)
            },
            None => None,
        }
    } else if *key == String::from_str("width") {
        proof {
            reveal_strlit("width");
            assert("width"@ =~= k_width());
        }
        if st.width.is_some() {
            return None;
        }
        match number_at(s, i) {
            Some((v, j)) => {
                st.width = Some(v);
                Some(j)
            },
            None => None,
        }
    } else if *key == String::from_str("height") {
        proof {
            reveal_strlit("height");
            assert("height"@ =~= k_height());
        }
        if st.height.is_some() {
            return None;
        }
        match number_at(s, i) {
            Some((v, j)) => {
                st.height = Some(v);
                Some(j)
            },
            None => None,
        }
    } else {
        proof {
            reveal_strlit("name");
            reveal_strlit("instance");
            reveal_strlit("x");
            reveal_strlit("y");
            reveal_strlit("button");
            reveal_strlit("event");
            reveal_strlit("relative_x");
            reveal_strlit("relative_y");
            reveal_strlit("width");
            reveal_strlit("height");
            assert("name"@ =~= k_name());
            assert("instance"@ =~= k_instance());
            assert("x"@ =~= k_x());
            assert("y"@ =~= k_y());
            assert("button"@ =~= k_button());
            assert("event"@ =~= k_event());
            assert("relative_x"@ =~= k_relative_x());
            assert("relative_y"@ =~= k_relative_y());
            assert("width"@ =~= k_width());
            assert("height"@ =~= k_height());
        }
        match skip_value_at(s, i, MAX_VALUE_NESTING) {
            Some(j) => Some(j),
            None => None,
        }
    }
}

/// Decodes one member starting at `i`, storing a recognized field into
/// `st` and returning the index just past the member's value.
fn member_at(s: &str, i: usize, st: &mut AccState) -> (r: Option<usize>)
    requires
        i <= s@.len(),
    ensures
        match r {
            Some(j) => i <= j <= s@.len() && p_member(s@.skip(i as int), old(st)@) == Some(
                (final(st)@, s@.skip(j as int)),
            ),
            None => p_member(s@.skip(i as int), old(st)@) is None && *final(st) == *old(st),
        },
{
    let n: usize = s.unicode_len();
    let j0 = ws_end(s, i);
    if j0 >= n {
        proof {
            assert(skip_ws(s@.skip(i as int)).len() == 0);
        }
        return None;
    }
    let c = s.get_char(j0);
    proof {
        assert(s@.skip(j0 as int)[0] == s@[j0 as int]);
    }
    if c != '"' {
        return None;
    }
    proof {
        lemma_skip_skip(s@, j0 as int, 1);
    }
    let parsed_key = match string_body_at(s, j0 + 1) {
        Some(kj) => kj,
        None => { return None; },
    };
    let key = parsed_key.0;
    let j1 = parsed_key.1;
    let j2 = ws_end(s, j1);
    if j2 >= n {
        proof {
            assert(skip_ws(s@.skip(j1 as int)).len() == 0);
        }
        return None;
    }
    let c2 = s.get_char(j2);
    proof {
        assert(s@.skip(j2 as int)[0] == s@[j2 as int]);
    }
    if c2 != ':' {
        return None;
    }
    proof {
        lemma_skip_skip(s@, j2 as int, 1);
    }
    let j3 = ws_end(s, j2 + 1);
    member_value_at(s, &key, j3, st)
}

impl ClientEvent {
    /// Decodes one click-event payload, as framed by the caller up to a
    /// closing brace.  Returns the event exactly when the input parses
    /// as a well-formed event object (`p_event`); any malformed, short
    /// or trailing-garbage input is rejected and can be discarded.
    pub fn decode(s: &str) -> (r: Result<ClientEvent, MalformedEvent>)
        ensures
            match p_event(s@) {
                Some(d) => r matches Ok(ev) && ev@ == d,
                None => r is Err,
            },
    {
        let n: usize = s.unicode_len();
        proof {
            assert(s@.skip(0) =~= s@);
        }
        let i0 = ws_end(s, 0);
        if i0 >= n {
            proof {
                assert(skip_ws(s@).len() == 0);
            }
            return Err(MalformedEvent);
        }
        let c0 = s.get_char(i0);
        proof {
            assert(s@.skip(i0 as int)[0] == s@[i0 as int]);
        }
        if c0 != '{' {
            return Err(MalformedEvent);
        }
        let i1 = i0 + 1;
        proof {
            lemma_skip_skip(s@, i0 as int, 1);
        }
        let i2 = ws_end(s, i1);
        if i2 < n {
            let c2 = s.get_char(i2);
            proof {
                assert(s@.skip(i2 as int)[0] == s@[i2 as int]);
            }
            if c2 == '}' {
                proof {
                    lemma_skip_skip(s@, i2 as int, 1);
                }
                let e0 = ws_end(s, i2 + 1);
                proof {
                    if e0 == n {
                        assert(p_event_acc(s@) == Some(acc_empty()));
                    } else {
                        assert(skip_ws(s@.skip(i2 as int + 1)).len() > 0);
                    }
                }
                return Err(MalformedEvent);
            }
        }
        let mut st = AccState {
            name: None,
            instance: None,
            x: None,
            y: None,
            button: None,
            event: None,
            relative_x: None,
            relative_y: None,
            width: None,
            height: None,
        };
        let mut cur: usize = i1;
        proof {
            assert(st@ == acc_empty());
            if i2 >= n {
                assert(skip_ws(s@.skip(i1 as int)).len() == 0);
            } else {
                assert(skip_ws(s@.skip(i1 as int))[0] != '}');
            }
        }
        loop
            invariant
                i1 <= cur <= n,
                n == s@.len(),
                p_event_acc(s@) == (match p_members(s@.skip(cur as int), st@) {
                    Some((acc, rr)) => if skip_ws(rr).len() == 0 {
                        Some(acc)
                    } else {
                        None
                    },
                    None => None,
                }),
            decreases n - cur,
        {
            let ghost pre = st@;
            match member_at(s, cur, &mut st) {
                None => {
                    return Err(MalformedEvent);
                },
                Some(j) => {
                    proof {
                        lemma_member_len(s@.skip(cur as int), pre);
                        lemma_skip_ws_len(s@.skip(j as int));
                    }
                    let j1 = ws_end(s, j);
                    if j1 >= n {
                        proof {
                            assert(skip_ws(s@.skip(j as int)).len() == 0);
                        }
                        return Err(MalformedEvent);
                    }
                    let c = s.get_char(j1);
                    proof {
                        assert(s@.skip(j1 as int)[0] == s@[j1 as int]);
                    }
                    if c == ',' {
                        proof {
                            lemma_skip_skip(s@, j1 as int, 1);
                        }
                        cur = j1 + 1;
                    } else if c == '}' {
                        proof {
                            lemma_skip_skip(s@, j1 as int, 1);
                        }
                        let e = ws_end(s, j1 + 1);
                        if e < n {
                            proof {
                                assert(skip_ws(s@.skip(j1 as int + 1)).len() > 0);
                            }
                            return Err(MalformedEvent);
                        }
                        proof {
                            assert(skip_ws(s@.skip(j1 as int + 1)).len() == 0);
                            assert(p_event_acc(s@) == Some(st@));
                        }
                        let AccState {
                            name,
                            instance,
                            x,
                            y,
                            button,
                            event,
                            relative_x,
                            relative_y,
                            width,
                            height,
                        } = st;
                        match (name,
                            instance,
                            x,
                            y,
                            button,
                            event,
                            relative_x,
                            relative_y,
                            width,
                            height,
                        ) {
                            (
                                Some(name),
                                Some(instance),
                                Some(x),
                                Some(y),
                                Some(button),
                                Some(event),
                                Some(relative_x),
                                Some(relative_y),
                                Some(width),
                                Some(height),
                            ) => {
                                return Ok(
                                    ClientEvent {
                                        name,
                                        instance,
                                        x,
                                        y,
                                        button,
                                        event,
                                        relative_x,
                                        relative_y,
                                        width,
                                        height,
                                    },
                                );
                            },
                            _ => {
                                return Err(MalformedEvent);
                            },
                        }
                    } else {
                        return Err(MalformedEvent);
                    }
                },
            }
        }
    }
}

} // verus!
