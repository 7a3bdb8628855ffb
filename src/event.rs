//! The event types of termion, made visible to the verifier.

use vstd::prelude::*;
use termion::event::{Event, Key, MouseButton, MouseEvent};

verus! {

/// termion's `Event`: a key, a mouse action, or bytes kept verbatim.
#[verifier::external_type_specification]
pub struct TermEvent(Event);

/// termion's `Key`.
#[verifier::external_type_specification]
pub struct TermKey(Key);

/// termion's `MouseEvent`.
#[verifier::external_type_specification]
pub struct TermMouseEvent(MouseEvent);

/// termion's `MouseButton`.
#[verifier::external_type_specification]
pub struct TermMouseButton(MouseButton);

/// The escape byte, which opens every control sequence.
pub const ESC: u8 = 0x1B;

} // verus!
