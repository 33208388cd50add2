//! Parsing of the fixed-size request record through which a board
//! reaches the engine; reading the bytes from a stream is the caller's
//! business.

use vstd::prelude::*;

use crate::board::Board;

verus! {

/// The length in bytes of one request record: sixteen cell ranks in
/// column-major order (column fastest) followed by one reserved byte.
pub const REQUEST_LEN: usize = 17;

/// Why a request record was rejected.
#[derive(Clone, Copy, PartialEq, Eq, Structural, Debug)]
pub enum RequestError {
    /// The record does not hold exactly `REQUEST_LEN` bytes.
    Truncated,
}

/// Parse one request record into the board it carries and the reserved
/// trailing byte. Exactly the records of the right length are accepted.
pub fn read_request(raw: &Vec<u8>) -> (r: Result<(Board, u8), RequestError>)
    ensures
        raw@.len() == REQUEST_LEN ==> (r matches Ok(p) && (forall|x: int, y: int|
            0 <= x < 4 && 0 <= y < 4 ==> p.0.cell(x, y) == raw@[4 * y + x]) && p.1 == raw@[16]),
        raw@.len() != REQUEST_LEN ==> r == Result::<(Board, u8), RequestError>::Err(
            RequestError::Truncated,
        ),
{
    if raw.len() != REQUEST_LEN {
        return Result::Err(RequestError::Truncated);
    }
    let mut cells: Vec<u8> = Vec::new();
    let mut i: usize = 0;
    while i < 16
        invariant
            i <= 16,
            raw@.len() == 17,
            cells@ == raw@.take(i as int),
        decreases 16 - i,
    {
        cells.push(raw[i]);
        proof {
            assert(cells@ =~= raw@.take(i as int + 1));
        }
        i = i + 1;
    }
    let board = Board::from_raw(&cells);
    Result::Ok((board, raw[16]))
}

} // verus!
