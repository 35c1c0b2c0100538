//! Core logic of a two-half split keyboard firmware: matrix debouncing,
//! a layered keymap engine with hold-tap resolution, the inter-half link
//! codec with its self-resynchronizing decoder, role management for the
//! half-duplex link, HID report construction, and the event dispatch queue.

pub mod codec;
pub mod debounce;
pub mod dispatch;
pub mod event;
pub mod layout;
pub mod report;
pub mod role;
