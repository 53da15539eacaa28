//! Provisioning, waiting for a pipe, and the command line.

use encrypted_serial::bridge::{PipeAction, PipeWait, RetryNotice};
use encrypted_serial::cli::{
    decrypt_exit_code, key_source, stream_exit_code, DecryptStats, KeySource,
};
use encrypted_serial::lines::{find_line_end, next_line};
use encrypted_serial::provision::{
    build_payload, key_payload, provision_step, PayloadError, ProvisionEvent, ProvisionRefusal,
    ProvisionSource, ProvisionStep,
};
use encrypted_serial::record::GKS_LEN;
use std::path::PathBuf;

fn from_key(file: Vec<u8>) -> Result<[u8; GKS_LEN], PayloadError<String>> {
    let source = ProvisionSource::FromKey(PathBuf::from("k.bin")).clone();
    build_payload(&source, |path: &PathBuf| {
        assert_eq!(path, &PathBuf::from("k.bin"));
        Ok::<Vec<u8>, String>(file)
    })
}

#[test]
fn build_payload_from_key_pads_short_input() {
    let payload = match from_key(vec![0x42u8; 32]) {
        Ok(payload) => payload,
        Err(_) => panic!("payload"),
    };
    assert_eq!(&payload[..32], &[0x42u8; 32]);
    assert!(payload[32..].iter().all(|b| *b == 0));
}

#[test]
fn build_payload_rejects_empty_key_file() {
    assert!(matches!(from_key(Vec::new()), Err(PayloadError::Empty)));
}

#[test]
fn build_payload_rejects_oversized_key_file() {
    assert!(matches!(
        from_key(vec![0u8; GKS_LEN + 1]),
        Err(PayloadError::TooLong { len: 2049 })
    ));
    assert!(from_key(vec![7u8; GKS_LEN]).is_ok());
}

#[test]
fn build_payload_reports_a_read_error() {
    let source = ProvisionSource::FromKey(PathBuf::from("k.bin"));
    let r = build_payload(&source, |_: &PathBuf| Err::<Vec<u8>, _>(String::from("gone")));
    assert!(matches!(r, Err(PayloadError::Read(e)) if e == "gone"));
    assert!(matches!(
        key_payload(Err::<Vec<u8>, u8>(3)),
        Err(PayloadError::Read(3))
    ));
}

#[test]
fn build_payload_draws_random_bytes() {
    let read = |_: &PathBuf| -> Result<Vec<u8>, String> { panic!("no file to read") };
    let a = build_payload(&ProvisionSource::Random, read);
    let b = build_payload(&ProvisionSource::Random, read);
    match (a, b) {
        (Ok(a), Ok(b)) => {
            assert_ne!(a, [0u8; GKS_LEN]);
            assert_ne!(a, b);
        }
        _ => panic!("random bytes"),
    }
}

/// Runs the steps on a slot in memory.
fn provision(
    encrypted: bool,
    slot: &mut Option<u8>,
    secret: u8,
    force: bool,
) -> Result<(), ProvisionRefusal> {
    let mut event = ProvisionEvent::Opened { encrypted };
    loop {
        match provision_step(event, force) {
            ProvisionStep::ReadSlot => {
                event = ProvisionEvent::SlotRead { present: slot.is_some() };
            }
            ProvisionStep::Write => {
                *slot = Some(secret);
                return Ok(());
            }
            ProvisionStep::Refuse(why) => return Err(why),
        }
    }
}

#[test]
fn provision_refuses_overwrite_without_force() {
    let mut slot = None;
    assert_eq!(provision(false, &mut slot, 0x33, false), Ok(()));
    assert_eq!(
        provision(false, &mut slot, 0x44, false),
        Err(ProvisionRefusal::AlreadyPresent)
    );
    assert_eq!(slot, Some(0x33));
}

#[test]
fn provision_force_overwrites() {
    let mut slot = None;
    assert_eq!(provision(false, &mut slot, 0x11, false), Ok(()));
    assert_eq!(provision(false, &mut slot, 0x22, true), Ok(()));
    assert_eq!(slot, Some(0x22));
}

#[test]
fn provision_refuses_an_unreadable_slot_without_force() {
    assert_eq!(
        provision_step(ProvisionEvent::SlotUnreadable, false),
        ProvisionStep::Refuse(ProvisionRefusal::Unreadable)
    );
    assert_eq!(provision_step(ProvisionEvent::SlotUnreadable, true), ProvisionStep::Write);
}

#[test]
fn provision_refuses_an_encrypted_file() {
    let mut slot = None;
    for force in [false, true] {
        assert_eq!(
            provision(true, &mut slot, 1, force),
            Err(ProvisionRefusal::Encrypted)
        );
    }
    assert_eq!(slot, None);
}

#[test]
fn pipe_is_tried_once_without_wait() {
    let mut wait = PipeWait::new(false);
    assert_eq!(wait.on_failure(), PipeAction::Fail);
    assert!(!wait.announces_success());
}

#[test]
fn pipe_is_tried_again_with_wait() {
    let mut wait = PipeWait::new(true);
    for i in 0..45 {
        let notice = match i {
            0 => RetryNotice::Waiting,
            20 | 40 => RetryNotice::StillWaiting,
            _ => RetryNotice::Retry,
        };
        assert_eq!(wait.announces_success(), i > 0);
        assert_eq!(wait.on_failure(), PipeAction::Retry { notice, sleep_ms: 500 });
    }
}

#[test]
fn key_source_follows_the_options() {
    let path = PathBuf::from("p");
    assert!(matches!(key_source(Some(path.clone()), None), KeySource::Key(p) if p == path));
    assert!(matches!(key_source(None, Some(path.clone())), KeySource::Vmgs(p) if p == path));
}

#[test]
fn exit_codes() {
    let clean = DecryptStats { records_ok: 3, records_failed: 0, sessions_observed: 1 };
    let flawed = DecryptStats { records_ok: 3, records_failed: 2, sessions_observed: 1 };
    assert_eq!(decrypt_exit_code(Some(clean), true), 0);
    assert_eq!(decrypt_exit_code(Some(flawed), false), 0);
    assert_eq!(decrypt_exit_code(Some(flawed), true), 1);
    assert_eq!(decrypt_exit_code(None, false), 1);
    assert_eq!(stream_exit_code(true), 0);
    assert_eq!(stream_exit_code(false), 1);
}

#[test]
fn lines_end_at_line_feeds() {
    let s = b"ab\r\ncd\n\r\ne\rf\r";
    assert_eq!(find_line_end(s, 0), 3);
    assert_eq!(find_line_end(s, 10), 13);
    assert_eq!(next_line(s, 0), (&b"ab"[..], 4));
    assert_eq!(next_line(s, 4), (&b"cd"[..], 7));
    assert_eq!(next_line(s, 7), (&b""[..], 9));
    assert_eq!(next_line(s, 9), (&b"e\rf\r"[..], 13));
}
