//! Key events: the unit of communication between every component.

use vstd::prelude::*;

verus! {

/// One confirmed transition of a physical switch, identified by its
/// matrix coordinate `(row, col)`.
#[derive(Clone, Copy, PartialEq, Eq, Structural, Debug)]
pub enum KeyEvent {
    Press(u8, u8),
    Release(u8, u8),
}

impl KeyEvent {
    pub open spec fn spec_row(self) -> u8 {
        match self {
            KeyEvent::Press(r, _) => r,
            KeyEvent::Release(r, _) => r,
        }
    }

    pub open spec fn spec_col(self) -> u8 {
        match self {
            KeyEvent::Press(_, c) => c,
            KeyEvent::Release(_, c) => c,
        }
    }

    pub open spec fn spec_is_press(self) -> bool {
        self is Press
    }

    pub fn row(&self) -> (r: u8)
        ensures
            r == self.spec_row(),
    {
        match self {
            KeyEvent::Press(r, _) => *r,
            KeyEvent::Release(r, _) => *r,
        }
    }

    pub fn col(&self) -> (c: u8)
        ensures
            c == self.spec_col(),
    {
        match self {
            KeyEvent::Press(_, c) => *c,
            KeyEvent::Release(_, c) => *c,
        }
    }

    pub fn is_press(&self) -> (b: bool)
        ensures
            b == self.spec_is_press(),
    {
        match self {
            KeyEvent::Press(_, _) => true,
            KeyEvent::Release(_, _) => false,
        }
    }
}

/// The column mirror applied by a half whose columns are wired in the
/// opposite order, so that both halves share one unified column space.
pub open spec fn spec_mirror(e: KeyEvent, total_cols: u8) -> KeyEvent
    recommends
        e.spec_col() < total_cols,
{
    match e {
        KeyEvent::Press(r, c) => KeyEvent::Press(r, (total_cols - 1 - c) as u8),
        KeyEvent::Release(r, c) => KeyEvent::Release(r, (total_cols - 1 - c) as u8),
    }
}

/// Mirrors an event's column index: `col` becomes `total_cols - 1 - col`.
pub fn mirror(e: KeyEvent, total_cols: u8) -> (m: KeyEvent)
    requires
        e.spec_col() < total_cols,
    ensures
        m == spec_mirror(e, total_cols),
        m.spec_row() == e.spec_row(),
        m.spec_col() == total_cols - 1 - e.spec_col(),
        m.spec_is_press() == e.spec_is_press(),
{
    match e {
        KeyEvent::Press(r, c) => KeyEvent::Press(r, total_cols - 1 - c),
        KeyEvent::Release(r, c) => KeyEvent::Release(r, total_cols - 1 - c),
    }
}

/// Mirroring twice within the same column space restores the event.
pub proof fn lemma_mirror_involutive(e: KeyEvent, total_cols: u8)
    requires
        e.spec_col() < total_cols,
    ensures
        spec_mirror(spec_mirror(e, total_cols), total_cols) == e,
{
}

} // verus!
