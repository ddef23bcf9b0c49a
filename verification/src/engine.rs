//! The streaming lifecycle of the feed.
//!
//! The output stream carries the header object on its own line, then the
//! opening bracket of an unbounded JSON array that is never closed, then
//! one `[block...],` element per tick.  The engine produces the exact
//! text of each step; the caller owns the streams, writes and flushes
//! each piece in order, and hands any input bytes back for decoding.

use crate::parse::p_event;
use crate::protocol::{Block, ClientEvent, Header, MalformedEvent, block_json, header_json};
use vstd::prelude::*;

verus! {

/// One snapshot element as written to the body array: `[block],`.  The
/// trailing comma keeps the stream syntactically open on purpose.
pub open spec fn snapshot_fragment(b: Block) -> Seq<char> {
    seq!['['] + block_json(b) + seq![']', ',']
}

/// What the stream holds immediately after starting: the header line and
/// the opening bracket of the never-closed body array.
pub open spec fn stream_prefix(h: Header) -> Seq<char> {
    header_json(h) + seq!['\n', '[']
}

/// Concatenation of the snapshot fragments of `bs`, oldest first.
pub open spec fn snapshot_stream(bs: Seq<Block>) -> Seq<char>
    decreases bs.len(),
{
    if bs.len() == 0 {
        Seq::empty()
    } else {
        snapshot_stream(bs.drop_last()) + snapshot_fragment(bs.last())
    }
}

/// Everything the engine has handed to the output stream once started
/// with header `h` and ticked once per element of `bs`.
pub open spec fn stream_output(h: Header, bs: Seq<Block>) -> Seq<char> {
    stream_prefix(h) + snapshot_stream(bs)
}

/// Drives the protocol lifecycle.  The engine owns no stream: it returns
/// the exact text of each protocol step, and `emitted` records the
/// snapshots handed out, so the whole text written so far is always
/// `stream_output(header, emitted)`.
pub struct Engine {
    /// The header of the feed, fixed at construction.
    pub header: Header,
    /// Whether the header line and array opener were produced.
    pub started: bool,
    /// The snapshots emitted so far, oldest first.
    pub emitted: Ghost<Seq<Block>>,
}

impl Engine {
    /// An engine that has not yet opened the stream.
    pub fn new(header: Header) -> (e: Engine)
        ensures
            e.header == header,
            !e.started,
            e.emitted@ == Seq::<Block>::empty(),
    {
        Engine { header, started: false, emitted: Ghost(Seq::empty()) }
    }

    /// The one-time opening of the stream: the header JSON, a newline,
    /// and the opening bracket of the body array.  Emitted exactly once,
    /// strictly before any snapshot element.
    pub fn start(&mut self) -> (s: String)
        requires
            !old(self).started,
        ensures
            final(self).started,
            final(self).header == old(self).header,
            final(self).emitted@ == Seq::<Block>::empty(),
            s@ == stream_prefix(old(self).header),
            s@ == stream_output(final(self).header, final(self).emitted@),
    {
        self.started = true;
        self.emitted = Ghost(Seq::empty());
        let mut s = self.header.to_json();
        s.push('\n');
        s.push('[');
        proof {
            assert(s@ =~= stream_prefix(self.header));
            assert(stream_prefix(self.header) + snapshot_stream(Seq::empty()) =~= stream_prefix(
                self.header,
            ));
        }
        s
    }

    /// One tick of the streaming loop: the next body element, a
    /// one-block snapshot rendered as `[block],` with the comma always
    /// appended.  The caller writes and flushes it before sleeping out
    /// the rest of the tick interval.
    pub fn tick(&mut self, b: &Block) -> (s: String)
        requires
            old(self).started,
        ensures
            final(self).started,
            final(self).header == old(self).header,
            final(self).emitted@ == old(self).emitted@.push(*b),
            s@ == snapshot_fragment(*b),
            stream_output(final(self).header, final(self).emitted@) == stream_output(
                old(self).header,
                old(self).emitted@,
            ) + s@,
    {
        let mut s = String::new();
        s.push('[');
        let body = b.to_json();
        s.append(body.as_str());
        s.push(']');
        s.push(',');
        proof {
            assert(s@ =~= snapshot_fragment(*b));
        }
        self.emitted = Ghost(self.emitted@.push(*b));
        proof {
            let bs = old(self).emitted@;
            assert(bs.push(*b).drop_last() =~= bs);
            assert(bs.push(*b).last() == *b);
            assert(snapshot_stream(bs.push(*b)) == snapshot_stream(bs) + snapshot_fragment(*b));
            assert(stream_prefix(self.header) + (snapshot_stream(bs) + snapshot_fragment(*b)) =~= (
            stream_prefix(self.header) + snapshot_stream(bs)) + snapshot_fragment(*b));
        }
        s
    }

    /// The read-back step of a tick: decode whatever the caller drained
    /// from the input stream, up to and including a `}` delimiter.  A
    /// malformed payload yields an error the caller discards; either
    /// way the engine — and with it the output stream and the cadence
    /// of the next tick — is left exactly as it was.
    pub fn read_event(&mut self, input: &str) -> (r: Result<ClientEvent, MalformedEvent>)
        ensures
            *final(self) == *old(self),
            match p_event(input@) {
                Some(d) => r matches Ok(ev) && ev@ == d,
                None => r is Err,
            },
    {
        ClientEvent::decode(input)
    }
}

} // verus!
