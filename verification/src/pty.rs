//! Decisions of the interactive terminal relay: the messages handed to its
//! dedicated transport thread, and the split of a byte burst at the last
//! complete UTF-8 character.

use vstd::prelude::*;

verus! {

/// A message for the terminal relay's transport thread.
pub enum PtyMsg {
    Write(Vec<u8>),
    Resize { cols: u32, rows: u32 },
    Stop,
}

/// The write request for a chunk of terminal input.
pub fn write_pty(data: Vec<u8>) -> (r: PtyMsg)
    ensures
        r matches PtyMsg::Write(v) && v@ == data@,
{
    PtyMsg::Write(data)
}

/// The resize request for new terminal dimensions.
pub fn resize_pty(cols: u32, rows: u32) -> (r: PtyMsg)
    ensures
        r matches PtyMsg::Resize { cols: c, rows: w } && c == cols && w == rows,
{
    PtyMsg::Resize { cols, rows }
}

/// The shutdown request.
pub fn stop_pty() -> (r: PtyMsg)
    ensures
        r is Stop,
{
    PtyMsg::Stop
}

/// The byte length a UTF-8 sequence starting with `b` announces; zero for
/// a continuation or malformed byte.
pub open spec fn utf8_expected_len(b: u8) -> int {
    if b & 0xE0 == 0xC0 {
        2
    } else if b & 0xF0 == 0xE0 {
        3
    } else if b & 0xF8 == 0xF0 {
        4
    } else {
        0
    }
}

/// The boundary scan over the last up-to-three bytes: the position where
/// complete text ends and where an unfinished trailing sequence begins.
pub open spec fn utf8_boundary_rec(data: Seq<u8>, i: int) -> (int, int)
    decreases 4 - i,
{
    let len = data.len() as int;
    if i < 1 || i > 3 || i > len {
        (len, len)
    } else {
        let pos = len - i;
        let b = data[pos];
        if b < 0x80 {
            (len, len)
        } else if utf8_expected_len(b) == 0 {
            utf8_boundary_rec(data, i + 1)
        } else if len - pos < utf8_expected_len(b) {
            (pos, pos)
        } else {
            (len, len)
        }
    }
}

/// The boundary split of a byte burst.
pub open spec fn utf8_boundary_spec(data: Seq<u8>) -> (int, int) {
    if data.len() == 0 {
        (0, 0)
    } else {
        utf8_boundary_rec(data, 1)
    }
}

/// Find where the valid prefix of a read burst ends and where the
/// unfinished trailing multi-byte character begins, scanning the last up
/// to three bytes for an incomplete leading byte.
pub fn find_utf8_boundary(data: &Vec<u8>) -> (r: (usize, usize))
    ensures
        (r.0 as int, r.1 as int) == utf8_boundary_spec(data@),
        r.0 <= data@.len(),
        r.1 <= data@.len(),
{
    let len = data.len();
    if len == 0 {
        return (0, 0);
    }
    let mut i: usize = 1;
    while i <= 3 && i <= len
        invariant
            1 <= i <= 4,
            len == data@.len(),
            utf8_boundary_spec(data@) == utf8_boundary_rec(data@, i as int),
        decreases 4 - i,
    {
        let pos = len - i;
        let b = data[pos];
        if b < 0x80 {
            return (len, len);
        }
        let expected: usize = if b & 0xE0 == 0xC0 {
            2
        } else if b & 0xF0 == 0xE0 {
            3
        } else if b & 0xF8 == 0xF0 {
            4
        } else {
            0
        };
        if expected != 0 {
            if len - pos < expected {
                return (pos, pos);
            } else {
                return (len, len);
            }
        }
        i += 1;
    }
    (len, len)
}

} // verus!
