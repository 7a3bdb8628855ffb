//! Framing of the control sequences that carry numeric parameters
//! (`ESC [ M`, `ESC [ <`, `ESC [ digit`): where such a frame ends, and
//! whether its parameters have the shape that termion's parser reads.

use vstd::prelude::*;

verus! {

pub open spec fn is_digit(b: u8) -> bool {
    0x30 <= b <= 0x39
}

/// The buffer opens a control sequence with numeric parameters.
pub open spec fn is_param_sequence(buf: Seq<u8>) -> bool {
    buf.len() >= 3 && buf[0] == 0x1B && buf[1] == 0x5B && (buf[2] == 0x4D || buf[2] == 0x3C
        || is_digit(buf[2]))
}

/// `b` closes a sequence whose third byte is `lead`.
pub open spec fn is_terminator(lead: u8, b: u8) -> bool {
    if lead == 0x3C {
        b == 0x4D || b == 0x6D
    } else {
        0x40 <= b <= 0x7E
    }
}

/// The first index at or after `i` that closes the sequence.
pub open spec fn first_terminator(buf: Seq<u8>, i: int) -> Option<int>
    decreases buf.len() - i,
{
    if i < 0 || i >= buf.len() {
        None
    } else if is_terminator(buf[2], buf[i]) {
        Some(i)
    } else {
        first_terminator(buf, i + 1)
    }
}

/// The length of the frame that opens the buffer, once all of it is there.
pub open spec fn frame_len(buf: Seq<u8>) -> Option<int> {
    if buf[2] == 0x4D {
        if buf.len() >= 6 {
            Some(6)
        } else {
            None
        }
    } else {
        match first_terminator(buf, 3) {
            Some(j) => Some(j + 1),
            None => None,
        }
    }
}

/// `str::parse` of an unsigned integer type takes a field: an optional `+`,
/// then one or more decimal digits whose value is at most `max`.
///
/// Reading `p` from index `i`, with `count` fields closed and, in the current
/// field, `signed` for a leading `+`, `nd` digits and value `val`: every field
/// that the parser reads is such a field, and there are at least `need` of
/// them. With `lax`, only the first `need` fields are read; what follows them
/// needs only to be ASCII.
pub open spec fn fields_from(
    p: Seq<u8>,
    max: nat,
    need: nat,
    lax: bool,
    i: int,
    count: nat,
    signed: bool,
    nd: nat,
    val: nat,
) -> bool
    decreases p.len() - i,
{
    if i < 0 || i >= p.len() {
        (lax && count >= need) || (nd >= 1 && count + 1 >= need)
    } else if lax && count >= need {
        p[i] < 0x80 && fields_from(p, max, need, lax, i + 1, count, signed, nd, val)
    } else if p[i] == 0x3B {
        nd >= 1 && fields_from(p, max, need, lax, i + 1, count + 1, false, 0, 0)
    } else if p[i] == 0x2B {
        nd == 0 && !signed && fields_from(p, max, need, lax, i + 1, count, true, 0, 0)
    } else if is_digit(p[i]) {
        let v = val * 10 + (p[i] - 0x30) as nat;
        v <= max && fields_from(p, max, need, lax, i + 1, count, signed, nd + 1, v)
    } else {
        false
    }
}

pub open spec fn fields_ok(p: Seq<u8>, max: nat, need: nat, lax: bool) -> bool {
    fields_from(p, max, need, lax, 0, 0, false, 0, 0)
}

/// A complete frame of length `n` that termion's parser reads without failing
/// an internal `unwrap`: a legacy mouse report whose button byte does not
/// overflow; an SGR mouse report whose first three fields are `u16`s; a
/// numbered sequence whose fields are all `u16`s (three at least) for a mouse
/// report, all `u8`s for the finals that termion reads as keys. termion reads
/// no field for other finals.
pub open spec fn frame_parsable(buf: Seq<u8>, n: int) -> bool {
    if buf[2] == 0x4D {
        !(0x80 <= buf[3] <= 0x9F)
    } else if buf[2] == 0x3C {
        fields_ok(buf.subrange(3, n - 1), 65535, 3, true)
    } else if buf[n - 1] == 0x4D {
        fields_ok(buf.subrange(2, n - 1), 65535, 3, false)
    } else if reads_u8_fields(buf[n - 1]) {
        fields_ok(buf.subrange(2, n - 1), 255, 1, false)
    } else {
        true
    }
}

/// The finals after which termion parses the fields as `u8`s.
pub open spec fn reads_u8_fields(f: u8) -> bool {
    f == 0x7E || f == 0x41 || f == 0x42 || f == 0x43 || f == 0x44 || f == 0x46 || f == 0x48
}

/// termion's parser returns, without panicking, on a buffer opening with these bytes.
pub open spec fn parser_safe(buf: Seq<u8>) -> bool {
    is_param_sequence(buf) ==> match frame_len(buf) {
        Some(n) => frame_parsable(buf, n),
        None => false,
    }
}

/// Finds the first terminator at or after `start`.
fn find_terminator(buf: &[u8], start: usize) -> (r: Option<usize>)
    requires
        buf@.len() >= 3,
        start >= 3,
    ensures
        match r {
            Some(j) => start <= j < buf@.len() && first_terminator(buf@, start as int) == Some(
                j as int,
            ),
            None => first_terminator(buf@, start as int) is None,
        },
{
    let lead = buf[2];
    let mut j: usize = start;
    while j < buf.len()
        invariant
            buf@.len() >= 3,
            lead == buf@[2],
            start <= j,
            first_terminator(buf@, start as int) == first_terminator(buf@, j as int),
        decreases buf.len() - j,
    {
        let b = buf[j];
        let closes = if lead == 0x3C {
            b == 0x4D || b == 0x6D
        } else {
            0x40 <= b && b <= 0x7E
        };
        if closes {
            return Some(j);
        }
        j = j + 1;
    }
    None
}

/// Whether `buf[lo..hi]` is a list of fields as `fields_ok` describes.
fn check_fields(buf: &[u8], lo: usize, hi: usize, max: u32, need: usize, lax: bool) -> (r: bool)
    requires
        lo <= hi <= buf@.len(),
        max <= 65535,
    ensures
        r == fields_ok(buf@.subrange(lo as int, hi as int), max as nat, need as nat, lax),
{
    let ghost p = buf@.subrange(lo as int, hi as int);
    let mut i: usize = lo;
    let mut count: usize = 0;
    let mut signed = false;
    let mut nd: usize = 0;
    let mut val: u32 = 0;
    while i < hi
        invariant
            lo <= i <= hi <= buf@.len(),
            p == buf@.subrange(lo as int, hi as int),
            max <= 65535,
            val <= max,
            nd == 0 ==> val == 0,
            count <= i - lo,
            nd <= i - lo,
            fields_ok(p, max as nat, need as nat, lax) == fields_from(
                p,
                max as nat,
                need as nat,
                lax,
                i - lo,
                count as nat,
                signed,
                nd as nat,
                val as nat,
            ),
        decreases hi - i,
    {
        let b = buf[i];
        assert(p[i - lo] == b);
        if lax && count >= need {
            if b >= 0x80 {
                return false;
            }
        } else if b == 0x3B {
            if nd < 1 {
                return false;
            }
            count = count + 1;
            signed = false;
            nd = 0;
            val = 0;
        } else if b == 0x2B {
            if nd != 0 || signed {
                return false;
            }
            signed = true;
        } else if 0x30 <= b && b <= 0x39 {
            let v = val * 10 + (b - 0x30) as u32;
            if v > max {
                return false;
            }
            nd = nd + 1;
            val = v;
        } else {
            return false;
        }
        i = i + 1;
    }
    (lax && count >= need) || (nd >= 1 && (need == 0 || need - 1 <= count))
}

/// How the parameter sequence that opens `buf` stands: `None` while its frame
/// is still incomplete, else its length and whether termion's parser takes it.
pub fn param_frame(buf: &[u8]) -> (r: Option<(usize, bool)>)
    requires
        is_param_sequence(buf@),
    ensures
        match r {
            Some((n, ok)) => frame_len(buf@) == Some(n as int) && ok == frame_parsable(
                buf@,
                n as int,
            ),
            None => frame_len(buf@) is None,
        },
{
    if buf[2] == 0x4D {
        if buf.len() >= 6 {
            let b = buf[3];
            Some((6, !(0x80 <= b && b <= 0x9F)))
        } else {
            None
        }
    } else {
        match find_terminator(buf, 3) {
            Some(j) => {
                let n = j + 1;
                let f = buf[j];
                let ok = if buf[2] == 0x3C {
                    check_fields(buf, 3, j, 65535, 3, true)
                } else if f == 0x4D {
                    check_fields(buf, 2, j, 65535, 3, false)
                } else if f == 0x7E || f == 0x41 || f == 0x42 || f == 0x43 || f == 0x44 || f
                    == 0x46 || f == 0x48 {
                    check_fields(buf, 2, j, 255, 1, false)
                } else {
                    true
                };
                Some((n, ok))
            },
            None => None,
        }
    }
}

} // verus!
