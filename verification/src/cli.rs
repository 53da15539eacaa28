//! Decisions of the command line tool.

use std::path::PathBuf;
use vstd::prelude::*;

verus! {

/// Where the guest secret comes from.
#[derive(Debug, Clone)]
pub enum KeySource {
    /// A file that holds the secret itself.
    Key(PathBuf),
    /// A guest state file that holds it among other things.
    Vmgs(PathBuf),
}

/// The source that the two options of the command line name. Exactly one of them
/// is given.
pub fn key_source(key: Option<PathBuf>, vmgs: Option<PathBuf>) -> (source: KeySource)
    requires
        key is Some <==> vmgs is None,
    ensures
        source == match key {
            Some(path) => KeySource::Key(path),
            None => KeySource::Vmgs(vmgs->Some_0),
        },
{
    match key {
        Some(path) => KeySource::Key(path),
        None => KeySource::Vmgs(vmgs.unwrap()),
    }
}

/// What decrypting a capture came to.
#[derive(Debug, Clone, Copy, PartialEq, Eq, Structural)]
pub struct DecryptStats {
    pub records_ok: u64,
    pub records_failed: u64,
    pub sessions_observed: u64,
}

/// Exit code of decrypting a capture, from what it came to, if it ran to the
/// end: in strict mode a record that failed is a failure too.
pub fn decrypt_exit_code(stats: Option<DecryptStats>, strict: bool) -> (code: u8)
    ensures
        code == match stats {
            Some(stats) => if strict && stats.records_failed > 0 {
                1u8
            } else {
                0u8
            },
            None => 1u8,
        },
{
    match stats {
        Some(stats) => {
            if strict && stats.records_failed > 0 {
                1
            } else {
                0
            }
        },
        None => 1,
    }
}

/// Exit code of a stream, from whether it ran to the end.
pub fn stream_exit_code(finished: bool) -> (code: u8)
    ensures
        code == if finished {
            0u8
        } else {
            1u8
        },
{
    if finished {
        0
    } else {
        1
    }
}

/// Decrypting a capture succeeds exactly where it ran to the end and, in strict
/// mode, no record failed; how many opened and of how many sessions does not
/// matter. A failure is always the code 1.
pub proof fn law_decrypt_exit_code(stats: Option<DecryptStats>, strict: bool, code: u8)
    requires
        call_ensures(decrypt_exit_code, (stats, strict), code),
    ensures
        code == 0 || code == 1,
        code == 0 <==> (stats matches Some(s) && (!strict || s.records_failed == 0)),
{
}

/// A stream succeeds exactly where it ran to the end.
pub proof fn law_stream_exit_code(finished: bool, code: u8)
    requires
        call_ensures(stream_exit_code, (finished,), code),
    ensures
        code == 0 || code == 1,
        code == 0 <==> finished,
{
}

/// The source names the path of the option that was given, and its kind.
pub proof fn law_key_source(path: PathBuf, from_key: KeySource, from_vmgs: KeySource)
    requires
        call_ensures(key_source, (Some(path), None), from_key),
        call_ensures(key_source, (None, Some(path)), from_vmgs),
    ensures
        from_key matches KeySource::Key(p) && p == path,
        from_vmgs matches KeySource::Vmgs(p) && p == path,
{
}

} // verus!
