//! Random bytes from the operating system.

use vstd::prelude::*;

verus! {

/// The error type of `getrandom`, carried through unopened.
#[verifier::external_type_specification]
#[verifier::external_body]
pub struct ExGetrandomError(getrandom::Error);

/// Fills an array by `getrandom::fill`.
///
/// Trusted: that the call returns, with an array of the requested length or
/// with its error. Nothing is claimed of the bytes themselves, nor that two
/// calls differ.
#[verifier::external_body]
fn fill_array<const N: usize>() -> (r: Result<[u8; N], getrandom::Error>) {
    let mut bytes = [0u8; N];
    getrandom::fill(&mut bytes)?;
    Ok(bytes)
}

/// `bytes` are `N` bytes that the operating system may give when asked for them.
pub closed spec fn drawn<const N: usize>(bytes: Seq<u8>) -> bool {
    exists|a: [u8; N]|
        #[trigger] call_ensures(fill_array::<N>, (), Ok::<[u8; N], getrandom::Error>(a)) && a@
            == bytes
}

/// `e` is an error that the operating system may give when asked for `N` bytes.
pub closed spec fn draw_fails<const N: usize>(e: getrandom::Error) -> bool {
    call_ensures(fill_array::<N>, (), Err::<[u8; N], getrandom::Error>(e))
}

/// Draws `N` bytes.
pub(crate) fn random_array<const N: usize>() -> (r: Result<[u8; N], getrandom::Error>)
    ensures
        match r {
            Ok(bytes) => drawn::<N>(bytes@),
            Err(e) => draw_fails::<N>(e),
        },
{
    let r = fill_array::<N>();
    assert(call_ensures(fill_array::<N>, (), r));
    r
}

/// Drawn bytes are those that a call of the operating system returned, all of
/// them and unchanged, and a failed draw has the error of such a call.
proof fn law_drawn<const N: usize>(bytes: [u8; N], e: getrandom::Error)
    ensures
        drawn::<N>(bytes@) ==> exists|a: [u8; N]|
            a@ == bytes@ && #[trigger] call_ensures(
                fill_array::<N>,
                (),
                Ok::<[u8; N], getrandom::Error>(a),
            ),
        draw_fails::<N>(e) ==> call_ensures(
            fill_array::<N>,
            (),
            Err::<[u8; N], getrandom::Error>(e),
        ),
{
}

} // verus!
