//! Role manager: each tick, the half that sees a configured USB device is
//! the primary and listens on the link; the other half transmits. A role
//! change tears the link down and rebuilds it in the other direction,
//! discarding any partially received frame.

use vstd::prelude::*;

use crate::codec;
use crate::codec::FrameDecoder;
use crate::event::KeyEvent;
use crate::layout::LayoutView;
use crate::layout::spec_apply;

verus! {

/// Which half this one currently is. The primary half is attached to the
/// USB host and authoritative for output; the secondary half relays its
/// events over the link.
#[derive(Clone, Copy, PartialEq, Eq, Structural, Debug)]
pub enum Role {
    Primary,
    Secondary,
}

/// Direction the half-duplex link is configured for.
#[derive(Clone, Copy, PartialEq, Eq, Structural, Debug)]
pub enum LinkMode {
    Transmit,
    Receive,
}

/// The role implied by the USB attachment state.
pub open spec fn spec_role(usb_configured: bool) -> Role {
    if usb_configured {
        Role::Primary
    } else {
        Role::Secondary
    }
}

/// Decides the role from the USB attachment state observed this tick.
pub fn role_for(usb_configured: bool) -> (r: Role)
    ensures
        r == spec_role(usb_configured),
{
    if usb_configured {
        Role::Primary
    } else {
        Role::Secondary
    }
}

/// The link direction a role needs: the primary listens for relayed
/// events, the secondary transmits its own.
pub open spec fn spec_required_mode(role: Role) -> LinkMode {
    match role {
        Role::Primary => LinkMode::Receive,
        Role::Secondary => LinkMode::Transmit,
    }
}

/// Computes the link direction required by a role.
pub fn required_mode(role: Role) -> (m: LinkMode)
    ensures
        m == spec_required_mode(role),
{
    match role {
        Role::Primary => LinkMode::Receive,
        Role::Secondary => LinkMode::Transmit,
    }
}

/// The logical state of the half-duplex link: its direction and, when
/// receiving, the sliding decode window.
pub struct LinkState {
    pub mode: LinkMode,
    pub decoder: FrameDecoder,
}

impl LinkState {
    /// A link configured in the given direction with an empty window.
    pub fn new(mode: LinkMode) -> (l: LinkState)
        ensures
            l.mode == mode,
            l.decoder@ == seq![0u8, 0u8, 0u8, 0u8],
    {
        LinkState { mode, decoder: FrameDecoder::new() }
    }

    /// Re-evaluates the link direction against the USB attachment state.
    /// On a direction change the decode window is discarded, so no
    /// partially received frame survives the reconfiguration; otherwise
    /// the link is left untouched.
    pub fn reconcile(&mut self, usb_configured: bool) -> (changed: bool)
        ensures
            final(self).mode == spec_required_mode(spec_role(usb_configured)),
            changed == (old(self).mode != final(self).mode),
            changed ==> final(self).decoder@ == seq![0u8, 0u8, 0u8, 0u8],
            !changed ==> final(self).decoder@ == old(self).decoder@,
    {
        let wanted = required_mode(role_for(usb_configured));
        if wanted != self.mode {
            self.mode = wanted;
            self.decoder.reset();
            true
        } else {
            false
        }
    }

    /// Handles one byte received on the link, sliding the decode window.
    pub fn receive_byte(&mut self, b: u8) -> (r: Option<KeyEvent>)
        requires
            old(self).mode is Receive,
        ensures
            final(self).mode == old(self).mode,
            final(self).decoder@ == codec::spec_slide(old(self).decoder@, b),
            r == codec::spec_decode(final(self).decoder@),
    {
        self.decoder.push_byte(b)
    }
}

/// What the tick handler does with one confirmed local event: the
/// secondary serializes it for the link, and both halves also apply it to
/// their own layout engine.
pub fn route_event(e: KeyEvent, role: Role) -> (r: (Option<[u8; 4]>, KeyEvent))
    ensures
        role is Secondary ==> (r.0 matches Some(f) && f@ == codec::spec_encode(e)),
        role is Primary ==> r.0 is None,
        r.1 == e,
{
    match role {
        Role::Secondary => (Some(codec::encode(e)), e),
        Role::Primary => (None, e),
    }
}

/// Role symmetry: an event the secondary mirrors into the unified column
/// space survives the link round trip exactly, so the primary's layout
/// engine sees it just as if the switch were wired directly to the primary
/// at the mirrored coordinate — whatever state the engine is in.
pub proof fn lemma_role_symmetry(e: KeyEvent, total_cols: u8)
    requires
        e.spec_col() < total_cols,
    ensures
        codec::spec_decode(codec::spec_encode(crate::event::spec_mirror(e, total_cols)))
            == Some(crate::event::spec_mirror(e, total_cols)),
        crate::event::spec_mirror(e, total_cols).spec_row() == e.spec_row(),
        crate::event::spec_mirror(e, total_cols).spec_col() == total_cols - 1 - e.spec_col(),
        crate::event::spec_mirror(e, total_cols).spec_is_press() == e.spec_is_press(),
        forall|v: LayoutView| #[trigger] spec_apply(v, crate::event::spec_mirror(e, total_cols))
            == spec_apply(
            v,
            if e.spec_is_press() {
                KeyEvent::Press(e.spec_row(), (total_cols - 1 - e.spec_col()) as u8)
            } else {
                KeyEvent::Release(e.spec_row(), (total_cols - 1 - e.spec_col()) as u8)
            },
        ),
{
    codec::lemma_round_trip(crate::event::spec_mirror(e, total_cols));
}

} // verus!
