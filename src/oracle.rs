//! termion's escape-sequence parser, as the decoder sees it.

use vstd::prelude::*;
use termion::event::Event;
use crate::frame::parser_safe;

verus! {

/// What termion's parser makes of `first` followed by the bytes `rest`: the
/// event, if it recognized one; how many bytes of `rest` it read; and whether
/// it asked for a byte past the end of `rest`.
pub uninterp spec fn parsed(first: u8, rest: Seq<u8>) -> (Option<Event>, nat, bool);

/// The parser's verdict on `first` and `rest` cannot change when more bytes
/// follow: it never asked for a byte past the end of `rest`.
pub open spec fn verdict_final(first: u8, rest: Seq<u8>) -> bool {
    !parsed(first, rest).2 ==> forall|x: Seq<u8>| #[trigger] parsed(first, rest + x) == parsed(first, rest)
}

/// Hands out the bytes of a slice one at a time, and records a request made
/// after the last one.
pub struct Puller {
    /// How many bytes were handed out.
    pub pos: usize,
    /// A byte was asked for after the last one.
    pub dry: bool,
}

impl Puller {
    /// The next byte of `rest`, or `None` (recorded) once all were handed out.
    pub fn pull(&mut self, rest: &[u8]) -> (r: Option<u8>)
        requires
            old(self).pos <= rest@.len(),
            old(self).dry ==> old(self).pos == rest@.len(),
        ensures
            final(self).pos <= rest@.len(),
            final(self).dry ==> final(self).pos == rest@.len(),
            old(self).pos < rest@.len() ==> r == Some(rest@[old(self).pos as int])
                && final(self).pos == old(self).pos + 1 && final(self).dry == old(self).dry,
            old(self).pos == rest@.len() ==> r is None && final(self).pos == old(self).pos
                && final(self).dry,
    {
        if self.pos < rest.len() {
            let b = rest[self.pos];
            self.pos = self.pos + 1;
            Some(b)
        } else {
            self.dry = true;
            None
        }
    }
}

/// Relies on `termion::event::parse_event`. It pulls the bytes after `first`
/// one at a time from an iterator and decides from the pulled bytes alone;
/// whenever the iterator runs dry it fails. So a verdict reached without
/// asking past the end of `rest` is the same when more bytes follow. It
/// panics on some incomplete or malformed parameter sequences, which
/// `parser_safe` leaves out.
#[verifier::external_body]
pub(crate) fn parse(first: u8, rest: &[u8]) -> (r: (Option<Event>, Puller))
    requires
        parser_safe(seq![first] + rest@),
    ensures
        r.0 == parsed(first, rest@).0,
        r.1.pos == parsed(first, rest@).1,
        r.1.dry == parsed(first, rest@).2,
        r.1.pos <= rest@.len(),
        r.1.dry ==> r.1.pos == rest@.len() && r.0 is None,
        !r.1.dry ==> forall|x: Seq<u8>|
            #[trigger] parsed(first, rest@ + x) == (r.0, r.1.pos as nat, r.1.dry),
{
    let mut puller = Puller { pos: 0, dry: false };
    let event = {
        let mut it = std::iter::from_fn(|| puller.pull(rest).map(Ok::<u8, std::io::Error>));
        termion::event::parse_event(first, &mut it).ok()
    };
    (event, puller)
}

} // verus!
