//! Link codec: serializes a key event to a fixed four-byte frame and
//! decodes a sliding four-byte window, one received byte at a time.
//!
//! A frame is `[tag, row, col, terminator]` with tag `'P'` for a press and
//! `'R'` for a release. The decoder keeps the last four bytes seen and
//! yields an event exactly when that window is a frame; anything else just
//! keeps sliding, which makes the link self-resynchronizing after a
//! corrupted byte.

use vstd::prelude::*;

use crate::event::KeyEvent;

verus! {

/// Frame tag of a press event (`'P'`).
pub const TAG_PRESS: u8 = 80;

/// Frame tag of a release event (`'R'`).
pub const TAG_RELEASE: u8 = 82;

/// Frame terminator (`'\n'`). Row and column values equal to it are not
/// representable in-band without risking a spurious decode during
/// resynchronization, so keymaps keep their dimensions below it or above.
pub const TERMINATOR: u8 = 10;

/// Number of bytes in one frame.
pub const FRAME_LEN: usize = 4;

/// The frame that `encode` produces for `e`.
pub open spec fn spec_encode(e: KeyEvent) -> Seq<u8> {
    match e {
        KeyEvent::Press(r, c) => seq![TAG_PRESS, r, c, TERMINATOR],
        KeyEvent::Release(r, c) => seq![TAG_RELEASE, r, c, TERMINATOR],
    }
}

/// The event a four-byte window holds: `Some` exactly when the window is
/// `[tag, row, col, terminator]` with a valid tag.
pub open spec fn spec_decode(w: Seq<u8>) -> Option<KeyEvent>
    recommends
        w.len() == FRAME_LEN,
{
    if w[3] == TERMINATOR && w[0] == TAG_PRESS {
        Some(KeyEvent::Press(w[1], w[2]))
    } else if w[3] == TERMINATOR && w[0] == TAG_RELEASE {
        Some(KeyEvent::Release(w[1], w[2]))
    } else {
        None
    }
}

/// How the sliding window advances: the oldest byte leaves, `b` enters.
pub open spec fn spec_slide(w: Seq<u8>, b: u8) -> Seq<u8>
    recommends
        w.len() == FRAME_LEN,
{
    w.subrange(1, FRAME_LEN as int).push(b)
}

/// Serializes one key event into its four-byte frame.
pub fn encode(e: KeyEvent) -> (frame: [u8; 4])
    ensures
        frame@ == spec_encode(e),
{
    let frame = match e {
        KeyEvent::Press(r, c) => [TAG_PRESS, r, c, TERMINATOR],
        KeyEvent::Release(r, c) => [TAG_RELEASE, r, c, TERMINATOR],
    };
    proof {
        assert(frame@ =~= spec_encode(e));
    }
    frame
}

/// Decodes a full four-byte window.
pub fn decode(w: &[u8; 4]) -> (r: Option<KeyEvent>)
    ensures
        r == spec_decode(w@),
{
    if w[3] == TERMINATOR && w[0] == TAG_PRESS {
        Some(KeyEvent::Press(w[1], w[2]))
    } else if w[3] == TERMINATOR && w[0] == TAG_RELEASE {
        Some(KeyEvent::Release(w[1], w[2]))
    } else {
        None
    }
}

/// The receiving side's sliding window over the byte stream.
pub struct FrameDecoder {
    window: [u8; 4],
}

impl View for FrameDecoder {
    type V = Seq<u8>;

    closed spec fn view(&self) -> Seq<u8> {
        self.window@
    }
}

impl FrameDecoder {
    /// A fresh decoder; the window holds no terminator, so nothing decodes
    /// until real frame bytes arrive.
    pub fn new() -> (d: FrameDecoder)
        ensures
            d@ == seq![0u8, 0u8, 0u8, 0u8],
    {
        let d = FrameDecoder { window: [0, 0, 0, 0] };
        proof {
            assert(d@ =~= seq![0u8, 0u8, 0u8, 0u8]);
        }
        d
    }

    /// Discards any partially received frame, as required when the link
    /// direction flips.
    pub fn reset(&mut self)
        ensures
            final(self)@ == seq![0u8, 0u8, 0u8, 0u8],
    {
        self.window = [0, 0, 0, 0];
        proof {
            assert(self@ =~= seq![0u8, 0u8, 0u8, 0u8]);
        }
    }

    /// Slides one received byte into the window and reports the event the
    /// new window holds, if any.
    pub fn push_byte(&mut self, b: u8) -> (r: Option<KeyEvent>)
        ensures
            final(self)@ == spec_slide(old(self)@, b),
            r == spec_decode(final(self)@),
    {
        self.window = [self.window[1], self.window[2], self.window[3], b];
        proof {
            assert(self@ =~= spec_slide(old(self)@, b));
        }
        decode(&self.window)
    }
}

/// Feeds a sequence of bytes through the sliding window.
pub open spec fn spec_feed(w: Seq<u8>, bs: Seq<u8>) -> Seq<u8>
    decreases bs.len(),
{
    if bs.len() == 0 {
        w
    } else {
        spec_feed(spec_slide(w, bs[0]), bs.drop_first())
    }
}

/// Round trip: decoding the frame that encodes `e` yields `e` back,
/// for every key event.
pub proof fn lemma_round_trip(e: KeyEvent)
    ensures
        spec_decode(spec_encode(e)) == Some(e),
{
}

/// Feeding one whole frame replaces the window with that frame, whatever
/// the window held before.
pub proof fn lemma_feed_frame(w: Seq<u8>, f: Seq<u8>)
    requires
        w.len() == FRAME_LEN,
        f.len() == FRAME_LEN,
    ensures
        spec_feed(w, f) == f,
{
    let f1 = f.drop_first();
    let f2 = f1.drop_first();
    let f3 = f2.drop_first();
    let f4 = f3.drop_first();
    let w1 = spec_slide(w, f[0]);
    let w2 = spec_slide(w1, f1[0]);
    let w3 = spec_slide(w2, f2[0]);
    let w4 = spec_slide(w3, f3[0]);
    assert(f1.len() == 3 && f2.len() == 2 && f3.len() == 1 && f4.len() == 0);
    assert(spec_feed(w, f) == spec_feed(w1, f1));
    assert(spec_feed(w1, f1) == spec_feed(w2, f2));
    assert(spec_feed(w2, f2) == spec_feed(w3, f3));
    assert(spec_feed(w3, f3) == spec_feed(w4, f4));
    assert(spec_feed(w4, f4) == w4);
    assert(f1[0] == f[1] && f2[0] == f[2] && f3[0] == f[3]);
    assert(w4 =~= f);
}

/// Recovery after corruption: from any window, one stray byte followed by a
/// valid frame whose row and column are not the terminator yields no event
/// on the four intermediate windows and exactly the frame's event on the
/// last, which then holds nothing but that frame.
pub proof fn lemma_resync(w: Seq<u8>, stray: u8, e: KeyEvent)
    requires
        w.len() == FRAME_LEN,
        stray != TERMINATOR,
        e.spec_row() != TERMINATOR,
        e.spec_col() != TERMINATOR,
    ensures
        spec_feed(w, seq![stray] + spec_encode(e)) == spec_encode(e),
        spec_decode(spec_slide(w, stray)) is None,
        spec_decode(spec_slide(spec_slide(w, stray), spec_encode(e)[0])) is None,
        spec_decode(
            spec_slide(spec_slide(spec_slide(w, stray), spec_encode(e)[0]), spec_encode(e)[1]),
        ) is None,
        spec_decode(
            spec_slide(
                spec_slide(spec_slide(spec_slide(w, stray), spec_encode(e)[0]), spec_encode(e)[1]),
                spec_encode(e)[2],
            ),
        ) is None,
        spec_decode(
            spec_slide(
                spec_slide(
                    spec_slide(
                        spec_slide(spec_slide(w, stray), spec_encode(e)[0]),
                        spec_encode(e)[1],
                    ),
                    spec_encode(e)[2],
                ),
                spec_encode(e)[3],
            ),
        ) == Some(e),
{
    let f = spec_encode(e);
    lemma_feed_frame(spec_slide(w, stray), f);
    assert((seq![stray] + f)[0] == stray);
    assert((seq![stray] + f).drop_first() =~= f);
    assert(spec_feed(w, seq![stray] + f) == spec_feed(spec_slide(w, stray), f));
    let w0 = spec_slide(w, stray);
    let w1 = spec_slide(w0, f[0]);
    let w2 = spec_slide(w1, f[1]);
    let w3 = spec_slide(w2, f[2]);
    let w4 = spec_slide(w3, f[3]);
    assert(w0[3] == stray);
    assert(w1[3] == f[0]);
    assert(w2[3] == f[1]);
    assert(w3[3] == f[2]);
    assert(w4 =~= f);
    lemma_round_trip(e);
}

} // verus!
