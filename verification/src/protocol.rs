//! The three wire entities of the feed and their canonical JSON forms.
//!
//! Each type encodes to a single-line JSON object whose members stand in
//! declaration order; an optional field that is unset contributes no
//! member at all (omission is structural, never an explicit null).

use crate::json::{
    JsonVal, lemma_obj_step, lemma_render_members_snoc, push_bool_member, push_num_member,
    push_str_member, render_member, render_members, render_obj,
};
use vstd::prelude::*;

verus! {

/// The one-time header object: emitted once, before the body array opens.
pub struct Header {
    /// Protocol version identifier; the supported protocol value is 1.
    pub version: u8,
    /// Whether the host should send click events back on the input stream.
    pub click_events: Option<bool>,
    /// Advisory signal number the host may send to resume the producer.
    pub const_signal: Option<u32>,
    /// Advisory signal number the host may send to pause the producer.
    pub stop_signal: Option<u32>,
}

/// Member key of the `version` field.
pub open spec fn k_version() -> Seq<char> {
    seq!['v', 'e', 'r', 's', 'i', 'o', 'n']
}

/// Member key of the `click_events` field.
pub open spec fn k_click_events() -> Seq<char> {
    seq!['c', 'l', 'i', 'c', 'k', '_', 'e', 'v', 'e', 'n', 't', 's']
}

/// Member key of the `const_signal` field.
pub open spec fn k_const_signal() -> Seq<char> {
    seq!['c', 'o', 'n', 's', 't', '_', 's', 'i', 'g', 'n', 'a', 'l']
}

/// Member key of the `stop_signal` field.
pub open spec fn k_stop_signal() -> Seq<char> {
    seq!['s', 't', 'o', 'p', '_', 's', 'i', 'g', 'n', 'a', 'l']
}

/// The members a header encodes to, in declaration order: `version`
/// always, then exactly the optional fields that are set.
pub open spec fn header_pairs(h: Header) -> Seq<(Seq<char>, JsonVal)> {
    seq![(k_version(), JsonVal::VNum(h.version as nat))] + (match h.click_events {
        Some(b) => seq![(k_click_events(), JsonVal::VBool(b))],
        None => Seq::empty(),
    }) + (match h.const_signal {
        Some(n) => seq![(k_const_signal(), JsonVal::VNum(n as nat))],
        None => Seq::empty(),
    }) + (match h.stop_signal {
        Some(n) => seq![(k_stop_signal(), JsonVal::VNum(n as nat))],
        None => Seq::empty(),
    })
}

/// The exact single-line JSON rendering of a header.
pub open spec fn header_json(h: Header) -> Seq<char> {
    render_obj(header_pairs(h))
}

impl Header {
    /// A header with the given version and every optional field unset.
    pub fn new(version: u8) -> (h: Header)
        ensures
            h.version == version,
            h.click_events is None,
            h.const_signal is None,
            h.stop_signal is None,
    {
        Header { version, click_events: None, const_signal: None, stop_signal: None }
    }

    /// The canonical encoding of this header, exactly `header_json`.
    pub fn to_json(&self) -> (r: String)
        ensures
            r@ == header_json(*self),
    {
        let mut out = String::new();
        out.push('{');
        let ghost mut ms: Seq<(Seq<char>, JsonVal)> = Seq::empty();
        push_num_member(&mut out, "version", self.version as u32);
        proof {
            reveal_strlit("version");
            assert("version"@ =~= k_version());
            lemma_render_members_snoc(ms, (k_version(), JsonVal::VNum(self.version as nat)));
            assert(Seq::<char>::empty().push('{') =~= seq!['{']);
            ms = ms.push((k_version(), JsonVal::VNum(self.version as nat)));
            assert(out@ == seq!['{'] + render_members(ms));
        }
        if let Some(b) = self.click_events {
            out.push(',');
            push_bool_member(&mut out, "click_events", b);
            proof {
                reveal_strlit("click_events");
                assert("click_events"@ =~= k_click_events());
                lemma_render_members_snoc(ms, (k_click_events(), JsonVal::VBool(b)));
                lemma_obj_step(render_members(ms), render_member((k_click_events(), JsonVal::VBool(b))));
                ms = ms.push((k_click_events(), JsonVal::VBool(b)));
                assert(out@ == seq!['{'] + render_members(ms));
            }
        }
        if let Some(n) = self.const_signal {
            out.push(',');
            push_num_member(&mut out, "const_signal", n);
            proof {
                reveal_strlit("const_signal");
                assert("const_signal"@ =~= k_const_signal());
                lemma_render_members_snoc(ms, (k_const_signal(), JsonVal::VNum(n as nat)));
                lemma_obj_step(render_members(ms), render_member((k_const_signal(), JsonVal::VNum(n as nat))));
                ms = ms.push((k_const_signal(), JsonVal::VNum(n as nat)));
                assert(out@ == seq!['{'] + render_members(ms));
            }
        }
        if let Some(n) = self.stop_signal {
            out.push(',');
            push_num_member(&mut out, "stop_signal", n);
            proof {
                reveal_strlit("stop_signal");
                assert("stop_signal"@ =~= k_stop_signal());
                lemma_render_members_snoc(ms, (k_stop_signal(), JsonVal::VNum(n as nat)));
                lemma_obj_step(render_members(ms), render_member((k_stop_signal(), JsonVal::VNum(n as nat))));
                ms = ms.push((k_stop_signal(), JsonVal::VNum(n as nat)));
                assert(out@ == seq!['{'] + render_members(ms));
            }
        }
        out.push('}');
        proof {
            assert(ms == header_pairs(*self));
            assert((seq!['{'] + render_members(ms)).push('}') =~= render_obj(header_pairs(*self)));
        }
        out
    }
}

/// One styled segment of a status-line snapshot.  Only `full_text` is
/// required; every other field is omitted from the encoding when unset.
pub struct Block {
    /// The text the host displays for this segment.
    pub full_text: String,
    /// Shorter text the host may fall back to when space is tight.
    pub short_text: Option<String>,
    /// Identity for click correlation; the name/instance pair should be
    /// unique over the blocks of one snapshot when present.
    pub name: Option<String>,
    /// Text color in `#RRGGBBAA` or `#RRGGBB` notation.
    pub color: Option<String>,
    /// Background color in `#RRGGBBAA` or `#RRGGBB` notation.
    pub background: Option<String>,
    /// Border color in `#RRGGBBAA` or `#RRGGBB` notation.
    pub border: Option<String>,
    /// Height in pixels of the top border.
    pub border_top: Option<u8>,
    /// Width in pixels of the right border.
    pub border_right: Option<u8>,
    /// Height in pixels of the bottom border.
    pub border_bottom: Option<u8>,
    /// Width in pixels of the left border.
    pub border_left: Option<u8>,
    /// Minimum width of the block in pixels.
    pub min_width: Option<u32>,
    /// Text alignment inside the block: `left`, `right` or `center`.
    pub align: Option<String>,
    /// Instance part of the click-correlation identity pair.
    pub instance: Option<String>,
    /// Whether the block is displayed as urgent.
    pub urgent: Option<bool>,
    /// Whether the bar separator is drawn after the block.
    pub separator: Option<bool>,
    /// Pixels left blank after the block, around the separator text.
    pub separator_block_width: Option<u32>,
    /// Markup used when parsing the text: `pango` or `none`.
    pub markup: Option<String>,
}

/// Member key of the `full_text` field.
pub open spec fn k_full_text() -> Seq<char> {
    seq!['f', 'u', 'l', 'l', '_', 't', 'e', 'x', 't']
}

/// Member key of the `short_text` field.
pub open spec fn k_short_text() -> Seq<char> {
    seq!['s', 'h', 'o', 'r', 't', '_', 't', 'e', 'x', 't']
}

/// Member key of the `name` field.
pub open spec fn k_name() -> Seq<char> {
    seq!['n', 'a', 'm', 'e']
}

/// Member key of the `color` field.
pub open spec fn k_color() -> Seq<char> {
    seq!['c', 'o', 'l', 'o', 'r']
}

/// Member key of the `background` field.
pub open spec fn k_background() -> Seq<char> {
    seq!['b', 'a', 'c', 'k', 'g', 'r', 'o', 'u', 'n', 'd']
}

/// Member key of the `border` field.
pub open spec fn k_border() -> Seq<char> {
    seq!['b', 'o', 'r', 'd', 'e', 'r']
}

/// Member key of the `border_top` field.
pub open spec fn k_border_top() -> Seq<char> {
    seq!['b', 'o', 'r', 'd', 'e', 'r', '_', 't', 'o', 'p']
}

/// Member key of the `border_right` field.
pub open spec fn k_border_right() -> Seq<char> {
    seq!['b', 'o', 'r', 'd', 'e', 'r', '_', 'r', 'i', 'g', 'h', 't']
}

/// Member key of the `border_bottom` field.
pub open spec fn k_border_bottom() -> Seq<char> {
    seq!['b', 'o', 'r', 'd', 'e', 'r', '_', 'b', 'o', 't', 't', 'o', 'm']
}

/// Member key of the `border_left` field.
pub open spec fn k_border_left() -> Seq<char> {
    seq!['b', 'o', 'r', 'd', 'e', 'r', '_', 'l', 'e', 'f', 't']
}

/// Member key of the `min_width` field.
pub open spec fn k_min_width() -> Seq<char> {
    seq!['m', 'i', 'n', '_', 'w', 'i', 'd', 't', 'h']
}

/// Member key of the `align` field.
pub open spec fn k_align() -> Seq<char> {
    seq!['a', 'l', 'i', 'g', 'n']
}

/// Member key of the `instance` field.
pub open spec fn k_instance() -> Seq<char> {
    seq!['i', 'n', 's', 't', 'a', 'n', 'c', 'e']
}

/// Member key of the `urgent` field.
pub open spec fn k_urgent() -> Seq<char> {
    seq!['u', 'r', 'g', 'e', 'n', 't']
}

/// Member key of the `separator` field.
pub open spec fn k_separator() -> Seq<char> {
    seq!['s', 'e', 'p', 'a', 'r', 'a', 't', 'o', 'r']
}

/// Member key of the `separator_block_width` field.
pub open spec fn k_separator_block_width() -> Seq<char> {
    seq!['s', 'e', 'p', 'a', 'r', 'a', 't', 'o', 'r', '_', 'b', 'l', 'o', 'c', 'k', '_', 'w', 'i',
        'd', 't', 'h']
}

/// Member key of the `markup` field.
pub open spec fn k_markup() -> Seq<char> {
    seq!['m', 'a', 'r', 'k', 'u', 'p']
}

/// The seventeen block member keys are pairwise distinct.
pub proof fn lemma_block_keys_distinct()
    ensures
        k_full_text() != k_short_text(),
        k_full_text() != k_name(),
        k_full_text() != k_color(),
        k_full_text() != k_background(),
        k_full_text() != k_border(),
        k_full_text() != k_border_top(),
        k_full_text() != k_border_right(),
        k_full_text() != k_border_bottom(),
        k_full_text() != k_border_left(),
        k_full_text() != k_min_width(),
        k_full_text() != k_align(),
        k_full_text() != k_instance(),
        k_full_text() != k_urgent(),
        k_full_text() != k_separator(),
        k_full_text() != k_separator_block_width(),
        k_full_text() != k_markup(),
        k_short_text() != k_name(),
        k_short_text() != k_color(),
        k_short_text() != k_background(),
        k_short_text() != k_border(),
        k_short_text() != k_border_top(),
        k_short_text() != k_border_right(),
        k_short_text() != k_border_bottom(),
        k_short_text() != k_border_left(),
        k_short_text() != k_min_width(),
        k_short_text() != k_align(),
        k_short_text() != k_instance(),
        k_short_text() != k_urgent(),
        k_short_text() != k_separator(),
        k_short_text() != k_separator_block_width(),
        k_short_text() != k_markup(),
        k_name() != k_color(),
        k_name() != k_background(),
        k_name() != k_border(),
        k_name() != k_border_top(),
        k_name() != k_border_right(),
        k_name() != k_border_bottom(),
        k_name() != k_border_left(),
        k_name() != k_min_width(),
        k_name() != k_align(),
        k_name() != k_instance(),
        k_name() != k_urgent(),
        k_name() != k_separator(),
        k_name() != k_separator_block_width(),
        k_name() != k_markup(),
        k_color() != k_background(),
        k_color() != k_border(),
        k_color() != k_border_top(),
        k_color() != k_border_right(),
        k_color() != k_border_bottom(),
        k_color() != k_border_left(),
        k_color() != k_min_width(),
        k_color() != k_align(),
        k_color() != k_instance(),
        k_color() != k_urgent(),
        k_color() != k_separator(),
        k_color() != k_separator_block_width(),
        k_color() != k_markup(),
        k_background() != k_border(),
        k_background() != k_border_top(),
        k_background() != k_border_right(),
        k_background() != k_border_bottom(),
        k_background() != k_border_left(),
        k_background() != k_min_width(),
        k_background() != k_align(),
        k_background() != k_instance(),
        k_background() != k_urgent(),
        k_background() != k_separator(),
        k_background() != k_separator_block_width(),
        k_background() != k_markup(),
        k_border() != k_border_top(),
        k_border() != k_border_right(),
        k_border() != k_border_bottom(),
        k_border() != k_border_left(),
        k_border() != k_min_width(),
        k_border() != k_align(),
        k_border() != k_instance(),
        k_border() != k_urgent(),
        k_border() != k_separator(),
        k_border() != k_separator_block_width(),
        k_border() != k_markup(),
        k_border_top() != k_border_right(),
        k_border_top() != k_border_bottom(),
        k_border_top() != k_border_left(),
        k_border_top() != k_min_width(),
        k_border_top() != k_align(),
        k_border_top() != k_instance(),
        k_border_top() != k_urgent(),
        k_border_top() != k_separator(),
        k_border_top() != k_separator_block_width(),
        k_border_top() != k_markup(),
        k_border_right() != k_border_bottom(),
        k_border_right() != k_border_left(),
        k_border_right() != k_min_width(),
        k_border_right() != k_align(),
        k_border_right() != k_instance(),
        k_border_right() != k_urgent(),
        k_border_right() != k_separator(),
        k_border_right() != k_separator_block_width(),
        k_border_right() != k_markup(),
        k_border_bottom() != k_border_left(),
        k_border_bottom() != k_min_width(),
        k_border_bottom() != k_align(),
        k_border_bottom() != k_instance(),
        k_border_bottom() != k_urgent(),
        k_border_bottom() != k_separator(),
        k_border_bottom() != k_separator_block_width(),
        k_border_bottom() != k_markup(),
        k_border_left() != k_min_width(),
        k_border_left() != k_align(),
        k_border_left() != k_instance(),
        k_border_left() != k_urgent(),
        k_border_left() != k_separator(),
        k_border_left() != k_separator_block_width(),
        k_border_left() != k_markup(),
        k_min_width() != k_align(),
        k_min_width() != k_instance(),
        k_min_width() != k_urgent(),
        k_min_width() != k_separator(),
        k_min_width() != k_separator_block_width(),
        k_min_width() != k_markup(),
        k_align() != k_instance(),
        k_align() != k_urgent(),
        k_align() != k_separator(),
        k_align() != k_separator_block_width(),
        k_align() != k_markup(),
        k_instance() != k_urgent(),
        k_instance() != k_separator(),
        k_instance() != k_separator_block_width(),
        k_instance() != k_markup(),
        k_urgent() != k_separator(),
        k_urgent() != k_separator_block_width(),
        k_urgent() != k_markup(),
        k_separator() != k_separator_block_width(),
        k_separator() != k_markup(),
        k_separator_block_width() != k_markup(),
{
    assert(k_full_text().len() == 9);
    assert(k_short_text().len() == 10);
    assert(k_name().len() == 4);
    assert(k_color().len() == 5);
    assert(k_background().len() == 10);
    assert(k_border().len() == 6);
    assert(k_border_top().len() == 10);
    assert(k_border_right().len() == 12);
    assert(k_border_bottom().len() == 13);
    assert(k_border_left().len() == 11);
    assert(k_min_width().len() == 9);
    assert(k_align().len() == 5);
    assert(k_instance().len() == 8);
    assert(k_urgent().len() == 6);
    assert(k_separator().len() == 9);
    assert(k_separator_block_width().len() == 21);
    assert(k_markup().len() == 6);
    assert(k_full_text()[0] == 'f');
    assert(k_short_text()[0] == 's');
    assert(k_name()[0] == 'n');
    assert(k_color()[0] == 'c');
    assert(k_background()[0] == 'b');
    assert(k_border()[0] == 'b');
    assert(k_border_top()[0] == 'b');
    assert(k_border_right()[0] == 'b');
    assert(k_border_bottom()[0] == 'b');
    assert(k_border_left()[0] == 'b');
    assert(k_min_width()[0] == 'm');
    assert(k_align()[0] == 'a');
    assert(k_instance()[0] == 'i');
    assert(k_urgent()[0] == 'u');
    assert(k_separator()[0] == 's');
    assert(k_separator_block_width()[0] == 's');
    assert(k_markup()[0] == 'm');
    assert(k_background()[1] == 'a');
    assert(k_border_top()[1] == 'o');
    assert(k_short_text()[1] == 'h');
}

/// A member list with a string member appended when the field is set.
pub open spec fn opt_str_pair(ms: Seq<(Seq<char>, JsonVal)>, k: Seq<char>, f: Option<String>) -> Seq<
    (Seq<char>, JsonVal),
> {
    match f {
        Some(s) => ms.push((k, JsonVal::VStr(s@))),
        None => ms,
    }
}

/// A member list with a numeric member appended when the field is set.
pub open spec fn opt_u32_pair(ms: Seq<(Seq<char>, JsonVal)>, k: Seq<char>, f: Option<u32>) -> Seq<
    (Seq<char>, JsonVal),
> {
    match f {
        Some(n) => ms.push((k, JsonVal::VNum(n as nat))),
        None => ms,
    }
}

/// A member list with a small numeric member appended when the field is set.
pub open spec fn opt_u8_pair(ms: Seq<(Seq<char>, JsonVal)>, k: Seq<char>, f: Option<u8>) -> Seq<
    (Seq<char>, JsonVal),
> {
    match f {
        Some(n) => ms.push((k, JsonVal::VNum(n as nat))),
        None => ms,
    }
}

/// A member list with a boolean member appended when the field is set.
pub open spec fn opt_bool_pair(ms: Seq<(Seq<char>, JsonVal)>, k: Seq<char>, f: Option<bool>) -> Seq<
    (Seq<char>, JsonVal),
> {
    match f {
        Some(b) => ms.push((k, JsonVal::VBool(b))),
        None => ms,
    }
}

/// The members a block encodes to, in declaration order: `full_text`
/// always, then exactly the optional fields that are set.
pub open spec fn block_pairs(b: Block) -> Seq<(Seq<char>, JsonVal)> {
    let ms = seq![(k_full_text(), JsonVal::VStr(b.full_text@))];
    let ms = opt_str_pair(ms, k_short_text(), b.short_text);
    let ms = opt_str_pair(ms, k_name(), b.name);
    let ms = opt_str_pair(ms, k_color(), b.color);
    let ms = opt_str_pair(ms, k_background(), b.background);
    let ms = opt_str_pair(ms, k_border(), b.border);
    let ms = opt_u8_pair(ms, k_border_top(), b.border_top);
    let ms = opt_u8_pair(ms, k_border_right(), b.border_right);
    let ms = opt_u8_pair(ms, k_border_bottom(), b.border_bottom);
    let ms = opt_u8_pair(ms, k_border_left(), b.border_left);
    let ms = opt_u32_pair(ms, k_min_width(), b.min_width);
    let ms = opt_str_pair(ms, k_align(), b.align);
    let ms = opt_str_pair(ms, k_instance(), b.instance);
    let ms = opt_bool_pair(ms, k_urgent(), b.urgent);
    let ms = opt_bool_pair(ms, k_separator(), b.separator);
    let ms = opt_u32_pair(ms, k_separator_block_width(), b.separator_block_width);
    let ms = opt_str_pair(ms, k_markup(), b.markup);
    ms
}

/// The exact single-line JSON rendering of a block.
pub open spec fn block_json(b: Block) -> Seq<char> {
    render_obj(block_pairs(b))
}

impl Block {
    /// A block with the given display text and every optional field unset.
    pub fn new(full_text: String) -> (b: Block)
        ensures
            b == (Block {
                full_text: full_text,
                short_text: None,
                name: None,
                color: None,
                background: None,
                border: None,
                border_top: None,
                border_right: None,
                border_bottom: None,
                border_left: None,
                min_width: None,
                align: None,
                instance: None,
                urgent: None,
                separator: None,
                separator_block_width: None,
                markup: None,
            }),
    {
        Block {
            full_text,
            short_text: None,
            name: None,
            color: None,
            background: None,
            border: None,
            border_top: None,
            border_right: None,
            border_bottom: None,
            border_left: None,
            min_width: None,
            align: None,
            instance: None,
            urgent: None,
            separator: None,
            separator_block_width: None,
            markup: None,
        }
    }

    /// Sets the text color, leaving every other field as it was.
    pub fn color(&mut self, color: String)
        ensures
            *final(self) == (Block { color: Some(color), ..*old(self) }),
    {
        self.color = Some(color);
    }

    /// Sets the background color, leaving every other field as it was.
    pub fn background(&mut self, background: String)
        ensures
            *final(self) == (Block { background: Some(background), ..*old(self) }),
    {
        self.background = Some(background);
    }

    /// Marks the separator as drawn after the block, leaving every other
    /// field as it was.
    pub fn with_seperator(&mut self)
        ensures
            *final(self) == (Block { separator: Some(true), ..*old(self) }),
    {
        self.separator = Some(true);
    }

    /// The canonical encoding of this block, exactly `block_json`.
    pub fn to_json(&self) -> (r: String)
        ensures
            r@ == block_json(*self),
    {
        let mut out = String::new();
        out.push('{');
        push_str_member(&mut out, "full_text", self.full_text.as_str());
        proof {
            reveal_strlit("full_text");
            assert("full_text"@ =~= k_full_text());
            lemma_render_members_snoc(
                Seq::empty(),
                (k_full_text(), JsonVal::VStr(self.full_text@)),
            );
            assert(Seq::<char>::empty().push('{') =~= seq!['{']);
        }
        let ghost ms0: Seq<(Seq<char>, JsonVal)> = seq![
            (k_full_text(), JsonVal::VStr(self.full_text@)),
        ];
        proof {
            assert(Seq::empty().push((k_full_text(), JsonVal::VStr(self.full_text@))) =~= ms0);
            assert(out@ == seq!['{'] + render_members(ms0));
        }
        let Ghost(ms1) = push_opt_str_field(&mut out, "short_text", &self.short_text, Ghost(ms0));
        let Ghost(ms2) = push_opt_str_field(&mut out, "name", &self.name, Ghost(ms1));
        let Ghost(ms3) = push_opt_str_field(&mut out, "color", &self.color, Ghost(ms2));
        let Ghost(ms4) = push_opt_str_field(&mut out, "background", &self.background, Ghost(ms3));
        let Ghost(ms5) = push_opt_str_field(&mut out, "border", &self.border, Ghost(ms4));
        let Ghost(ms6) = push_opt_u8_field(&mut out, "border_top", self.border_top, Ghost(ms5));
        let Ghost(ms7) = push_opt_u8_field(&mut out, "border_right", self.border_right, Ghost(ms6));
        let Ghost(ms8) = push_opt_u8_field(
            &mut out,
            "border_bottom",
            self.border_bottom,
            Ghost(ms7),
        );
        let Ghost(ms9) = push_opt_u8_field(&mut out, "border_left", self.border_left, Ghost(ms8));
        let Ghost(ms10) = push_opt_u32_field(&mut out, "min_width", self.min_width, Ghost(ms9));
        let Ghost(ms11) = push_opt_str_field(&mut out, "align", &self.align, Ghost(ms10));
        let Ghost(ms12) = push_opt_str_field(&mut out, "instance", &self.instance, Ghost(ms11));
        let Ghost(ms13) = push_opt_bool_field(&mut out, "urgent", self.urgent, Ghost(ms12));
        let Ghost(ms14) = push_opt_bool_field(&mut out, "separator", self.separator, Ghost(ms13));
        let Ghost(ms15) = push_opt_u32_field(
            &mut out,
            "separator_block_width",
            self.separator_block_width,
            Ghost(ms14),
        );
        let Ghost(ms16) = push_opt_str_field(&mut out, "markup", &self.markup, Ghost(ms15));
        out.push('}');
        proof {
            reveal_strlit("short_text");
            assert("short_text"@ =~= k_short_text());
            reveal_strlit("name");
            assert("name"@ =~= k_name());
            reveal_strlit("color");
            assert("color"@ =~= k_color());
            reveal_strlit("background");
            assert("background"@ =~= k_background());
            reveal_strlit("border");
            assert("border"@ =~= k_border());
            reveal_strlit("border_top");
            assert("border_top"@ =~= k_border_top());
            reveal_strlit("border_right");
            assert("border_right"@ =~= k_border_right());
            reveal_strlit("border_bottom");
            assert("border_bottom"@ =~= k_border_bottom());
            reveal_strlit("border_left");
            assert("border_left"@ =~= k_border_left());
            reveal_strlit("min_width");
            assert("min_width"@ =~= k_min_width());
            reveal_strlit("align");
            assert("align"@ =~= k_align());
            reveal_strlit("instance");
            assert("instance"@ =~= k_instance());
            reveal_strlit("urgent");
            assert("urgent"@ =~= k_urgent());
            reveal_strlit("separator");
            assert("separator"@ =~= k_separator());
            reveal_strlit("separator_block_width");
            assert("separator_block_width"@ =~= k_separator_block_width());
            reveal_strlit("markup");
            assert("markup"@ =~= k_markup());
            assert(ms16 == block_pairs(*self));
            assert((seq!['{'] + render_members(ms16)).push('}') =~= render_obj(block_pairs(*self)));
        }
        out
    }
}

/// A click notification sent back by the host when the user interacts
/// with a block.  All ten fields are required on the wire; unknown extra
/// fields are ignored when decoding.
pub struct ClientEvent {
    /// Name of the clicked block, echoing its identity pair.
    pub name: String,
    /// Instance of the clicked block, echoing its identity pair.
    pub instance: String,
    /// Absolute horizontal pointer position.
    pub x: u32,
    /// Absolute vertical pointer position.
    pub y: u32,
    /// Button code of the click.
    pub button: u32,
    /// Event code of the click.
    pub event: u32,
    /// Horizontal pointer position within the block.
    pub relative_x: u32,
    /// Vertical pointer position within the block.
    pub relative_y: u32,
    /// Width of the clicked block.
    pub width: u32,
    /// Height of the clicked block.
    pub height: u32,
}

/// The mathematical content of a `ClientEvent`: its two identity
/// strings and eight non-negative integers.
pub struct EventData {
    /// Name of the clicked block.
    pub name: Seq<char>,
    /// Instance of the clicked block.
    pub instance: Seq<char>,
    /// Absolute horizontal pointer position.
    pub x: nat,
    /// Absolute vertical pointer position.
    pub y: nat,
    /// Button code of the click.
    pub button: nat,
    /// Event code of the click.
    pub event: nat,
    /// Horizontal pointer position within the block.
    pub relative_x: nat,
    /// Vertical pointer position within the block.
    pub relative_y: nat,
    /// Width of the clicked block.
    pub width: nat,
    /// Height of the clicked block.
    pub height: nat,
}

impl View for ClientEvent {
    type V = EventData;

    open spec fn view(&self) -> EventData {
        EventData {
            name: self.name@,
            instance: self.instance@,
            x: self.x as nat,
            y: self.y as nat,
            button: self.button as nat,
            event: self.event as nat,
            relative_x: self.relative_x as nat,
            relative_y: self.relative_y as nat,
            width: self.width as nat,
            height: self.height as nat,
        }
    }
}

/// The condition under which a click payload is discarded: the bytes up
/// to the delimiter do not decode into a well-formed event object.
#[derive(Debug, PartialEq, Eq)]
pub struct MalformedEvent;

/// Member key of the `x` field.
pub open spec fn k_x() -> Seq<char> {
    seq!['x']
}

/// Member key of the `y` field.
pub open spec fn k_y() -> Seq<char> {
    seq!['y']
}

/// Member key of the `button` field.
pub open spec fn k_button() -> Seq<char> {
    seq!['b', 'u', 't', 't', 'o', 'n']
}

/// Member key of the `event` field.
pub open spec fn k_event() -> Seq<char> {
    seq!['e', 'v', 'e', 'n', 't']
}

/// Member key of the `relative_x` field.
pub open spec fn k_relative_x() -> Seq<char> {
    seq!['r', 'e', 'l', 'a', 't', 'i', 'v', 'e', '_', 'x']
}

/// Member key of the `relative_y` field.
pub open spec fn k_relative_y() -> Seq<char> {
    seq!['r', 'e', 'l', 'a', 't', 'i', 'v', 'e', '_', 'y']
}

/// Member key of the `width` field.
pub open spec fn k_width() -> Seq<char> {
    seq!['w', 'i', 'd', 't', 'h']
}

/// Member key of the `height` field.
pub open spec fn k_height() -> Seq<char> {
    seq!['h', 'e', 'i', 'g', 'h', 't']
}

/// The ten event member keys are pairwise distinct.
pub proof fn lemma_event_keys_distinct()
    ensures
        k_name() != k_instance(),
        k_name() != k_x(),
        k_name() != k_y(),
        k_name() != k_button(),
        k_name() != k_event(),
        k_name() != k_relative_x(),
        k_name() != k_relative_y(),
        k_name() != k_width(),
        k_name() != k_height(),
        k_instance() != k_x(),
        k_instance() != k_y(),
        k_instance() != k_button(),
        k_instance() != k_event(),
        k_instance() != k_relative_x(),
        k_instance() != k_relative_y(),
        k_instance() != k_width(),
        k_instance() != k_height(),
        k_x() != k_y(),
        k_x() != k_button(),
        k_x() != k_event(),
        k_x() != k_relative_x(),
        k_x() != k_relative_y(),
        k_x() != k_width(),
        k_x() != k_height(),
        k_y() != k_button(),
        k_y() != k_event(),
        k_y() != k_relative_x(),
        k_y() != k_relative_y(),
        k_y() != k_width(),
        k_y() != k_height(),
        k_button() != k_event(),
        k_button() != k_relative_x(),
        k_button() != k_relative_y(),
        k_button() != k_width(),
        k_button() != k_height(),
        k_event() != k_relative_x(),
        k_event() != k_relative_y(),
        k_event() != k_width(),
        k_event() != k_height(),
        k_relative_x() != k_relative_y(),
        k_relative_x() != k_width(),
        k_relative_x() != k_height(),
        k_relative_y() != k_width(),
        k_relative_y() != k_height(),
        k_width() != k_height(),
{
    assert(k_name().len() == 4);
    assert(k_instance().len() == 8);
    assert(k_x().len() == 1);
    assert(k_y().len() == 1);
    assert(k_button().len() == 6);
    assert(k_event().len() == 5);
    assert(k_relative_x().len() == 10);
    assert(k_relative_y().len() == 10);
    assert(k_width().len() == 5);
    assert(k_height().len() == 6);
    assert(k_x()[0] == 'x');
    assert(k_y()[0] == 'y');
    assert(k_button()[0] == 'b');
    assert(k_height()[0] == 'h');
    assert(k_event()[0] == 'e');
    assert(k_width()[0] == 'w');
    assert(k_relative_x()[9] == 'x');
    assert(k_relative_y()[9] == 'y');
}

/// The members an event encodes to: all ten fields, in declaration
/// order.
pub open spec fn event_pairs(d: EventData) -> Seq<(Seq<char>, JsonVal)> {
    seq![
        (k_name(), JsonVal::VStr(d.name)),
        (k_instance(), JsonVal::VStr(d.instance)),
        (k_x(), JsonVal::VNum(d.x)),
        (k_y(), JsonVal::VNum(d.y)),
        (k_button(), JsonVal::VNum(d.button)),
        (k_event(), JsonVal::VNum(d.event)),
        (k_relative_x(), JsonVal::VNum(d.relative_x)),
        (k_relative_y(), JsonVal::VNum(d.relative_y)),
        (k_width(), JsonVal::VNum(d.width)),
        (k_height(), JsonVal::VNum(d.height)),
    ]
}

/// The exact single-line JSON rendering of a click event.
pub open spec fn event_json(d: EventData) -> Seq<char> {
    render_obj(event_pairs(d))
}

impl ClientEvent {
    /// The canonical encoding of this event, exactly `event_json`.
    #[verifier::rlimit(50)]
    pub fn to_json(&self) -> (r: String)
        ensures
            r@ == event_json(self@),
    {
        let mut out = String::new();
        out.push('{');
        push_str_member(&mut out, "name", self.name.as_str());
        proof {
            reveal_strlit("name");
            assert("name"@ =~= k_name());
            lemma_render_members_snoc(Seq::empty(), (k_name(), JsonVal::VStr(self.name@)));
            assert(Seq::<char>::empty().push('{') =~= seq!['{']);
        }
        let ghost mut ms: Seq<(Seq<char>, JsonVal)> = seq![(k_name(), JsonVal::VStr(self.name@))];
        proof {
            assert(Seq::empty().push((k_name(), JsonVal::VStr(self.name@))) =~= ms);
            assert(out@ == seq!['{'] + render_members(ms));
        }
        out.push(',');
        push_str_member(&mut out, "instance", self.instance.as_str());
        proof {
            reveal_strlit("instance");
            assert("instance"@ =~= k_instance());
            lemma_render_members_snoc(ms, (k_instance(), JsonVal::VStr(self.instance@)));
            lemma_obj_step(
                render_members(ms),
                render_member((k_instance(), JsonVal::VStr(self.instance@))),
            );
            ms = ms.push((k_instance(), JsonVal::VStr(self.instance@)));
            assert(out@ == seq!['{'] + render_members(ms));
        }
        out.push(',');
        push_num_member(&mut out, "x", self.x);
        proof {
            reveal_strlit("x");
            assert("x"@ =~= k_x());
            lemma_render_members_snoc(ms, (k_x(), JsonVal::VNum(self.x as nat)));
            lemma_obj_step(render_members(ms), render_member((k_x(), JsonVal::VNum(self.x as nat))));
            ms = ms.push((k_x(), JsonVal::VNum(self.x as nat)));
            assert(out@ == seq!['{'] + render_members(ms));
        }
        out.push(',');
        push_num_member(&mut out, "y", self.y);
        proof {
            reveal_strlit("y");
            assert("y"@ =~= k_y());
            lemma_render_members_snoc(ms, (k_y(), JsonVal::VNum(self.y as nat)));
            lemma_obj_step(render_members(ms), render_member((k_y(), JsonVal::VNum(self.y as nat))));
            ms = ms.push((k_y(), JsonVal::VNum(self.y as nat)));
            assert(out@ == seq!['{'] + render_members(ms));
        }
        out.push(',');
        push_num_member(&mut out, "button", self.button);
        proof {
            reveal_strlit("button");
            assert("button"@ =~= k_button());
            lemma_render_members_snoc(ms, (k_button(), JsonVal::VNum(self.button as nat)));
            lemma_obj_step(
                render_members(ms),
                render_member((k_button(), JsonVal::VNum(self.button as nat))),
            );
            ms = ms.push((k_button(), JsonVal::VNum(self.button as nat)));
            assert(out@ == seq!['{'] + render_members(ms));
        }
        out.push(',');
        push_num_member(&mut out, "event", self.event);
        proof {
            reveal_strlit("event");
            assert("event"@ =~= k_event());
            lemma_render_members_snoc(ms, (k_event(), JsonVal::VNum(self.event as nat)));
            lemma_obj_step(
                render_members(ms),
                render_member((k_event(), JsonVal::VNum(self.event as nat))),
            );
            ms = ms.push((k_event(), JsonVal::VNum(self.event as nat)));
            assert(out@ == seq!['{'] + render_members(ms));
        }
        out.push(',');
        push_num_member(&mut out, "relative_x", self.relative_x);
        proof {
            reveal_strlit("relative_x");
            assert("relative_x"@ =~= k_relative_x());
            lemma_render_members_snoc(ms, (k_relative_x(), JsonVal::VNum(self.relative_x as nat)));
            lemma_obj_step(
                render_members(ms),
                render_member((k_relative_x(), JsonVal::VNum(self.relative_x as nat))),
            );
            ms = ms.push((k_relative_x(), JsonVal::VNum(self.relative_x as nat)));
            assert(out@ == seq!['{'] + render_members(ms));
        }
        out.push(',');
        push_num_member(&mut out, "relative_y", self.relative_y);
        proof {
            reveal_strlit("relative_y");
            assert("relative_y"@ =~= k_relative_y());
            lemma_render_members_snoc(ms, (k_relative_y(), JsonVal::VNum(self.relative_y as nat)));
            lemma_obj_step(
                render_members(ms),
                render_member((k_relative_y(), JsonVal::VNum(self.relative_y as nat))),
            );
            ms = ms.push((k_relative_y(), JsonVal::VNum(self.relative_y as nat)));
            assert(out@ == seq!['{'] + render_members(ms));
        }
        out.push(',');
        push_num_member(&mut out, "width", self.width);
        proof {
            reveal_strlit("width");
            assert("width"@ =~= k_width());
            lemma_render_members_snoc(ms, (k_width(), JsonVal::VNum(self.width as nat)));
            lemma_obj_step(
                render_members(ms),
                render_member((k_width(), JsonVal::VNum(self.width as nat))),
            );
            ms = ms.push((k_width(), JsonVal::VNum(self.width as nat)));
            assert(out@ == seq!['{'] + render_members(ms));
        }
        out.push(',');
        push_num_member(&mut out, "height", self.height);
        proof {
            reveal_strlit("height");
            assert("height"@ =~= k_height());
            lemma_render_members_snoc(ms, (k_height(), JsonVal::VNum(self.height as nat)));
            lemma_obj_step(
                render_members(ms),
                render_member((k_height(), JsonVal::VNum(self.height as nat))),
            );
            ms = ms.push((k_height(), JsonVal::VNum(self.height as nat)));
            assert(out@ == seq!['{'] + render_members(ms));
        }
        out.push('}');
        proof {
            assert(ms =~= event_pairs(self@));
            assert((seq!['{'] + render_members(ms)).push('}') =~= render_obj(event_pairs(self@)));
        }
        out
    }
}

/// Appends `,"key":"value"` when the field is set, tracking the member
/// list of the object rendered so far.
fn push_opt_str_field(
    out: &mut String,
    key: &str,
    f: &Option<String>,
    Ghost(ms): Ghost<Seq<(Seq<char>, JsonVal)>>,
) -> (r: Ghost<Seq<(Seq<char>, JsonVal)>>)
    requires
        old(out)@ == seq!['{'] + render_members(ms),
        ms.len() > 0,
    ensures
        r@ == opt_str_pair(ms, key@, *f),
        r@.len() >= ms.len(),
        final(out)@ == seq!['{'] + render_members(r@),
{
    if let Some(s) = f {
        out.push(',');
        push_str_member(out, key, s.as_str());
        proof {
            lemma_render_members_snoc(ms, (key@, JsonVal::VStr(s@)));
            lemma_obj_step(render_members(ms), render_member((key@, JsonVal::VStr(s@))));
        }
        Ghost(ms.push((key@, JsonVal::VStr(s@))))
    } else {
        Ghost(ms)
    }
}

/// Appends `,"key":n` when the field is set, tracking the member list of
/// the object rendered so far.
fn push_opt_u32_field(
    out: &mut String,
    key: &str,
    f: Option<u32>,
    Ghost(ms): Ghost<Seq<(Seq<char>, JsonVal)>>,
) -> (r: Ghost<Seq<(Seq<char>, JsonVal)>>)
    requires
        old(out)@ == seq!['{'] + render_members(ms),
        ms.len() > 0,
    ensures
        r@ == opt_u32_pair(ms, key@, f),
        r@.len() >= ms.len(),
        final(out)@ == seq!['{'] + render_members(r@),
{
    if let Some(n) = f {
        out.push(',');
        push_num_member(out, key, n);
        proof {
            lemma_render_members_snoc(ms, (key@, JsonVal::VNum(n as nat)));
            lemma_obj_step(render_members(ms), render_member((key@, JsonVal::VNum(n as nat))));
        }
        Ghost(ms.push((key@, JsonVal::VNum(n as nat))))
    } else {
        Ghost(ms)
    }
}

/// Appends `,"key":n` for a small numeric field when it is set, tracking
/// the member list of the object rendered so far.
fn push_opt_u8_field(
    out: &mut String,
    key: &str,
    f: Option<u8>,
    Ghost(ms): Ghost<Seq<(Seq<char>, JsonVal)>>,
) -> (r: Ghost<Seq<(Seq<char>, JsonVal)>>)
    requires
        old(out)@ == seq!['{'] + render_members(ms),
        ms.len() > 0,
    ensures
        r@ == opt_u8_pair(ms, key@, f),
        r@.len() >= ms.len(),
        final(out)@ == seq!['{'] + render_members(r@),
{
    if let Some(n) = f {
        out.push(',');
        push_num_member(out, key, n as u32);
        proof {
            lemma_render_members_snoc(ms, (key@, JsonVal::VNum(n as nat)));
            lemma_obj_step(render_members(ms), render_member((key@, JsonVal::VNum(n as nat))));
        }
        Ghost(ms.push((key@, JsonVal::VNum(n as nat))))
    } else {
        Ghost(ms)
    }
}

/// Appends `,"key":true` or `,"key":false` when the field is set,
/// tracking the member list of the object rendered so far.
fn push_opt_bool_field(
    out: &mut String,
    key: &str,
    f: Option<bool>,
    Ghost(ms): Ghost<Seq<(Seq<char>, JsonVal)>>,
) -> (r: Ghost<Seq<(Seq<char>, JsonVal)>>)
    requires
        old(out)@ == seq!['{'] + render_members(ms),
        ms.len() > 0,
    ensures
        r@ == opt_bool_pair(ms, key@, f),
        r@.len() >= ms.len(),
        final(out)@ == seq!['{'] + render_members(r@),
{
    if let Some(b) = f {
        out.push(',');
        push_bool_member(out, key, b);
        proof {
            lemma_render_members_snoc(ms, (key@, JsonVal::VBool(b)));
            lemma_obj_step(render_members(ms), render_member((key@, JsonVal::VBool(b))));
        }
        Ghost(ms.push((key@, JsonVal::VBool(b))))
    } else {
        Ghost(ms)
    }
}

} // verus!
