//! Seeding a guest secret for development.

use crate::random::{draw_fails, drawn, random_array};
use crate::record::GKS_LEN;
use std::path::PathBuf;
use vstd::prelude::*;

verus! {

/// `std::path::PathBuf`, carried through unopened.
#[verifier::external_type_specification]
#[verifier::external_body]
pub struct ExPathBuf(PathBuf);

/// `<std::path::PathBuf as Clone>::clone`. Nothing is claimed of the copy.
pub assume_specification[ <PathBuf as Clone>::clone ](path: &PathBuf) -> PathBuf;

/// Where the secret to write comes from.
#[derive(Debug, Clone)]
pub enum ProvisionSource {
    /// Random bytes, as many as the secret holds.
    Random,
    /// A file with at most as many bytes as the secret holds. A shorter one is
    /// padded with zeros.
    FromKey(PathBuf),
}

/// Why there is no secret to write. `E` is the error of reading a file.
pub enum PayloadError<E> {
    /// No random bytes could be drawn.
    Random(getrandom::Error),
    /// The file could not be read.
    Read(E),
    /// The file is empty.
    Empty,
    /// The file holds more bytes than the secret does.
    TooLong { len: usize },
}

/// `bytes` with zeros behind them, `len` in all.
pub open spec fn zero_padded(bytes: Seq<u8>, len: int) -> Seq<u8> {
    bytes + Seq::new((len - bytes.len()) as nat, |i: int| 0u8)
}

/// What a secret is for the contents of a key file.
pub open spec fn is_key_payload<E>(
    file: Result<Vec<u8>, E>,
    r: Result<[u8; GKS_LEN], PayloadError<E>>,
) -> bool {
    match file {
        Err(e) => r == Err::<[u8; GKS_LEN], PayloadError<E>>(PayloadError::Read(e)),
        Ok(bytes) => if bytes@.len() == 0 {
            r == Err::<[u8; GKS_LEN], PayloadError<E>>(PayloadError::Empty)
        } else if bytes@.len() > GKS_LEN {
            r == Err::<[u8; GKS_LEN], PayloadError<E>>(PayloadError::TooLong { len: bytes.len() })
        } else {
            r is Ok && r->Ok_0@ == zero_padded(bytes@, GKS_LEN as int)
        },
    }
}

/// The secret for a key file of 1 to 2048 bytes is the file, byte for byte, and
/// zeros behind it. An empty file and a longer one give none, and which it was
/// is said, with the length; a file that could not be read gives its error.
pub proof fn law_key_payload<E>(
    file: Result<Vec<u8>, E>,
    r: Result<[u8; GKS_LEN], PayloadError<E>>,
)
    requires
        is_key_payload(file, r),
    ensures
        file matches Ok(bytes) ==> {
            &&& 1 <= bytes@.len() <= 2048 ==> r is Ok
            &&& r matches Ok(p) ==> {
                &&& 1 <= bytes@.len() <= 2048
                &&& p@.len() == 2048
                &&& forall|i: int| 0 <= i < bytes@.len() ==> #[trigger] p@[i] == bytes@[i]
                &&& forall|i: int| bytes@.len() <= i < 2048 ==> #[trigger] p@[i] == 0
            }
            &&& bytes@.len() == 0 ==> (r matches Err(why) && why is Empty)
            &&& bytes@.len() > 2048 ==> (r matches Err(PayloadError::TooLong { len }) && len
                == bytes@.len())
        },
        file matches Err(e) ==> (r matches Err(PayloadError::Read(why)) && why == e),
{
}

/// Two key files give the same secret only where they differ in zeros at the
/// end.
pub proof fn law_key_payload_distinguishes<E>(
    a: Vec<u8>,
    b: Vec<u8>,
    p: [u8; GKS_LEN],
    q: [u8; GKS_LEN],
)
    requires
        is_key_payload(Ok::<Vec<u8>, E>(a), Ok(p)),
        is_key_payload(Ok::<Vec<u8>, E>(b), Ok(q)),
        p@ == q@,
        a@.len() <= b@.len(),
    ensures
        b@.take(a@.len() as int) == a@,
        forall|i: int| a@.len() <= i < b@.len() ==> #[trigger] b@[i] == 0,
{
    law_key_payload::<E>(Ok(a), Ok(p));
    law_key_payload::<E>(Ok(b), Ok(q));
    assert forall|i: int| 0 <= i < b@.len() implies #[trigger] b@[i] == p@[i] by {
        assert(q@[i] == b@[i]);
    }
    assert forall|i: int| 0 <= i < a@.len() implies #[trigger] a@[i] == b@[i] by {
        assert(p@[i] == a@[i]);
    }
    assert(b@.take(a@.len() as int) =~= a@);
    assert forall|i: int| a@.len() <= i < b@.len() implies #[trigger] b@[i] == 0 by {
        assert(p@[i] == 0);
    }
}

/// The secret for the contents of a key file.
pub fn key_payload<E>(file: Result<Vec<u8>, E>) -> (r: Result<[u8; GKS_LEN], PayloadError<E>>)
    ensures
        is_key_payload(file, r),
        file matches Ok(bytes) ==> (1 <= bytes@.len() <= 2048 <==> r is Ok),
        file matches Ok(bytes) ==> (r matches Ok(p) ==> {
            &&& forall|i: int| 0 <= i < bytes@.len() ==> p@[i] == bytes@[i]
            &&& forall|i: int| bytes@.len() <= i < 2048 ==> p@[i] == 0
        }),
{
    match file {
        Err(e) => Err(PayloadError::Read(e)),
        Ok(bytes) => {
            if bytes.len() == 0 {
                return Err(PayloadError::Empty);
            }
            if bytes.len() > GKS_LEN {
                return Err(PayloadError::TooLong { len: bytes.len() });
            }
            let mut buf: [u8; GKS_LEN] = [0u8; GKS_LEN];
            let mut i: usize = 0;
            while i < bytes.len()
                invariant
                    i <= bytes@.len() <= GKS_LEN,
                    buf@.len() == GKS_LEN,
                    forall|j: int| 0 <= j < i ==> buf@[j] == bytes@[j],
                    forall|j: int| i <= j < GKS_LEN ==> buf@[j] == 0,
                decreases bytes@.len() - i,
            {
                buf[i] = bytes[i];
                i += 1;
            }
            assert(buf@ =~= zero_padded(bytes@, GKS_LEN as int));
            Ok(buf)
        },
    }
}

/// The secret to write, from a source. `read` reads a file.
pub fn build_payload<R, E>(source: &ProvisionSource, read: R) -> (r: Result<
    [u8; GKS_LEN],
    PayloadError<E>,
>) where R: FnOnce(&PathBuf) -> Result<Vec<u8>, E>
    requires
        source matches ProvisionSource::FromKey(path) ==> read.requires((&path,)),
    ensures
        match *source {
            ProvisionSource::Random => match r {
                Ok(bytes) => drawn::<GKS_LEN>(bytes@),
                Err(PayloadError::Random(e)) => draw_fails::<GKS_LEN>(e),
                Err(_) => false,
            },
            ProvisionSource::FromKey(path) => exists|file: Result<Vec<u8>, E>| #[trigger]
                read.ensures((&path,), file) && is_key_payload(file, r),
        },
{
    match source {
        ProvisionSource::Random => match random_array::<GKS_LEN>() {
            Ok(bytes) => Ok(bytes),
            Err(e) => Err(PayloadError::Random(e)),
        },
        ProvisionSource::FromKey(path) => key_payload(read(path)),
    }
}

/// What is learned of the file to write the secret into.
#[derive(Debug, Clone, Copy, PartialEq, Eq, Structural)]
pub enum ProvisionEvent {
    /// It is open, and encrypted or not.
    Opened { encrypted: bool },
    /// Its slot for the secret was looked at, and holds one already or not.
    SlotRead { present: bool },
    /// Its slot for the secret is in use but cannot be read.
    SlotUnreadable,
}

/// Why a secret is not written.
#[derive(Debug, Clone, Copy, PartialEq, Eq, Structural)]
pub enum ProvisionRefusal {
    /// The file is encrypted.
    Encrypted,
    /// The slot holds a secret already, and overwriting was not asked for.
    AlreadyPresent,
    /// The slot is in use but cannot be read, and overwriting was not asked for.
    Unreadable,
}

/// What provisioning does next.
#[derive(Debug, Clone, Copy, PartialEq, Eq, Structural)]
pub enum ProvisionStep {
    /// Read the slot.
    ReadSlot,
    /// Write the secret.
    Write,
    /// Write nothing.
    Refuse(ProvisionRefusal),
}

/// What provisioning does after an event.
pub open spec fn provision_step_spec(event: ProvisionEvent, force: bool) -> ProvisionStep {
    match event {
        ProvisionEvent::Opened { encrypted } => if encrypted {
            ProvisionStep::Refuse(ProvisionRefusal::Encrypted)
        } else if force {
            ProvisionStep::Write
        } else {
            ProvisionStep::ReadSlot
        },
        ProvisionEvent::SlotRead { present } => if present && !force {
            ProvisionStep::Refuse(ProvisionRefusal::AlreadyPresent)
        } else {
            ProvisionStep::Write
        },
        ProvisionEvent::SlotUnreadable => if !force {
            ProvisionStep::Refuse(ProvisionRefusal::Unreadable)
        } else {
            ProvisionStep::Write
        },
    }
}

/// Decides what follows an event: an encrypted file is refused, and so is a slot
/// that is in use, whether it can be read or not, unless `force` asks to
/// overwrite it.
pub fn provision_step(event: ProvisionEvent, force: bool) -> (step: ProvisionStep)
    ensures
        step == provision_step_spec(event, force),
{
    match event {
        ProvisionEvent::Opened { encrypted } => {
            if encrypted {
                ProvisionStep::Refuse(ProvisionRefusal::Encrypted)
            } else if force {
                ProvisionStep::Write
            } else {
                ProvisionStep::ReadSlot
            }
        },
        ProvisionEvent::SlotRead { present } => {
            if present && !force {
                ProvisionStep::Refuse(ProvisionRefusal::AlreadyPresent)
            } else {
                ProvisionStep::Write
            }
        },
        ProvisionEvent::SlotUnreadable => {
            if !force {
                ProvisionStep::Refuse(ProvisionRefusal::Unreadable)
            } else {
                ProvisionStep::Write
            }
        },
    }
}

/// What the slot for the secret is like.
pub enum Slot {
    Free,
    Holds,
    Unreadable,
}

/// What is learned when a slot is looked at.
pub open spec fn slot_event(slot: Slot) -> ProvisionEvent {
    match slot {
        Slot::Free => ProvisionEvent::SlotRead { present: false },
        Slot::Holds => ProvisionEvent::SlotRead { present: true },
        Slot::Unreadable => ProvisionEvent::SlotUnreadable,
    }
}

/// The last step of provisioning a file that is encrypted or not and has such a
/// slot.
pub open spec fn provision_end(encrypted: bool, slot: Slot, force: bool) -> ProvisionStep {
    match provision_step_spec(ProvisionEvent::Opened { encrypted }, force) {
        ProvisionStep::ReadSlot => provision_step_spec(slot_event(slot), force),
        step => step,
    }
}

/// A secret is written exactly where the file is not encrypted and its slot is
/// free or overwriting was asked for; otherwise the refusal says why, encryption
/// first.
pub proof fn law_provision(encrypted: bool, slot: Slot, force: bool)
    ensures
        provision_end(encrypted, slot, force) is Write <==> !encrypted && (force || slot is Free),
        encrypted ==> provision_end(encrypted, slot, force) == ProvisionStep::Refuse(
            ProvisionRefusal::Encrypted,
        ),
        !encrypted && !force && slot is Holds ==> provision_end(encrypted, slot, force)
            == ProvisionStep::Refuse(ProvisionRefusal::AlreadyPresent),
        !encrypted && !force && slot is Unreadable ==> provision_end(encrypted, slot, force)
            == ProvisionStep::Refuse(ProvisionRefusal::Unreadable),
{
}

/// Where overwriting was asked for the slot is never looked at: the file is
/// written or refused at once. Where it was not, the slot is looked at before
/// anything is written.
pub proof fn law_provision_looks(encrypted: bool, force: bool)
    ensures
        provision_step_spec(ProvisionEvent::Opened { encrypted }, force) is ReadSlot
            <==> !encrypted && !force,
        provision_step_spec(ProvisionEvent::Opened { encrypted }, force) is Write <==> !encrypted
            && force,
        forall|event: ProvisionEvent|
            !(event is Opened) ==> !(#[trigger] provision_step_spec(event, force) is ReadSlot),
{
}

/// An encrypted file is never written, a slot in use only where overwriting was
/// asked for, and nothing is refused that is neither.
pub proof fn law_provision_step(event: ProvisionEvent, force: bool, step: ProvisionStep)
    requires
        call_ensures(provision_step, (event, force), step),
    ensures
        step is Write <==> match event {
            ProvisionEvent::Opened { encrypted } => !encrypted && force,
            ProvisionEvent::SlotRead { present } => force || !present,
            ProvisionEvent::SlotUnreadable => force,
        },
        step is ReadSlot <==> (event matches ProvisionEvent::Opened { encrypted } && !encrypted
            && !force),
        step is Refuse ==> step == ProvisionStep::Refuse(
            match event {
                ProvisionEvent::Opened { .. } => ProvisionRefusal::Encrypted,
                ProvisionEvent::SlotRead { .. } => ProvisionRefusal::AlreadyPresent,
                ProvisionEvent::SlotUnreadable => ProvisionRefusal::Unreadable,
            },
        ),
{
}

} // verus!
