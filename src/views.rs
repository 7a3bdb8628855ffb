//! Narrower views of the decoded sequence: events without their bytes, and
//! key presses alone.

use vstd::prelude::*;
use termion::event::{Event, Key};

verus! {

/// The key presses among `events`, in order.
pub open spec fn keys_of(events: Seq<Event>) -> Seq<Key>
    decreases events.len(),
{
    if events.len() == 0 {
        seq![]
    } else {
        let front = keys_of(events.drop_last());
        match events.last() {
            Event::Key(k) => front.push(k),
            _ => front,
        }
    }
}

/// Drops the bytes from a decoded item; a read failure passes through.
pub fn event_item<E>(item: Result<(Event, Vec<u8>), E>) -> (r: Result<Event, E>)
    ensures
        match item {
            Ok((e, _)) => r == Ok::<Event, E>(e),
            Err(err) => r == Err::<Event, E>(err),
        },
{
    match item {
        Ok((event, _raw)) => Ok(event),
        Err(err) => Err(err),
    }
}

/// The key view of one item: a key press is kept, any other event is skipped,
/// a read failure passes through.
pub fn key_item<E>(item: Result<Event, E>) -> (r: Option<Result<Key, E>>)
    ensures
        match item {
            Ok(Event::Key(k)) => r == Some(Ok::<Key, E>(k)),
            Ok(_) => r is None,
            Err(err) => r == Some(Err::<Key, E>(err)),
        },
{
    match item {
        Ok(Event::Key(k)) => Some(Ok(k)),
        Ok(_) => None,
        Err(err) => Some(Err(err)),
    }
}

/// The key presses among `events`, in their order; mouse and unsupported
/// events are left out.
pub fn keys_only(events: &Vec<Event>) -> (r: Vec<Key>)
    ensures
        r@ == keys_of(events@),
{
    let mut keys: Vec<Key> = Vec::new();
    let mut i: usize = 0;
    while i < events.len()
        invariant
            i <= events@.len(),
            keys@ == keys_of(events@.take(i as int)),
        decreases events.len() - i,
    {
        assert(events@.take(i + 1).drop_last() =~= events@.take(i as int));
        match &events[i] {
            Event::Key(k) => keys.push(*k),
            _ => {},
        }
        i = i + 1;
    }
    assert(events@.take(i as int) =~= events@);
    keys
}

} // verus!
