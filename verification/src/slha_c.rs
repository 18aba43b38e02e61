//! The C ABI surface of SLHA v2: the context handle and the status codes of
//! `slha_process_tile`.
use vstd::prelude::*;

verus! {

/// Opaque handle for the SLHA context (currently stateless).
pub struct SlhaContext {
    _unused: [u8; 0],
}

/// `slha_process_tile` succeeded and wrote the score.
pub const SLHA_OK: i32 = 0;

/// `slha_process_tile` was given a null pointer.
pub const SLHA_ERR_NULL: i32 = -1;

/// `slha_process_tile` caught a panic while scoring.
pub const SLHA_ERR_PANIC: i32 = -2;

/// The status `slha_process_tile` returns before scoring: `SLHA_ERR_NULL` if
/// any of the tile, query, sign or output pointers is null, else `SLHA_OK`
/// (the score is then computed and written).
pub fn process_tile_status(
    tile_is_null: bool,
    q_coarse_is_null: bool,
    q_sign_is_null: bool,
    score_out_is_null: bool,
) -> (r: i32)
    ensures
        r == if tile_is_null || q_coarse_is_null || q_sign_is_null || score_out_is_null {
            SLHA_ERR_NULL
        } else {
            SLHA_OK
        },
{
    if tile_is_null || q_coarse_is_null || q_sign_is_null || score_out_is_null {
        SLHA_ERR_NULL
    } else {
        SLHA_OK
    }
}

} // verus!
