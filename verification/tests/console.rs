//! The two sides of the console together, over a small codec: records are
//! framed as hexadecimal text and "encrypted" by a keyed byte stream with a
//! checksum as tag.

use encrypted_serial::bridge::{decrypt_loop, encrypt_loop, EncryptLoop, EncryptTotals, Scanner};
use encrypted_serial::decrypt::{stream_decrypt_io, NotUtf8};
use encrypted_serial::encrypt::{EncryptError, SessionError};
use encrypted_serial::encrypt_stream::{stream_encrypt_io, StreamError};
use encrypted_serial::record::{
    GksKeyMaterial, Record, RecordReader, RecordWriter, SentinelMatch, AES_KEY_LEN, GKS_LEN,
    SESSION_ID_LEN,
};
use encrypted_serial::serial::{
    close_step, flush_step, Answer, CloseAction, CloseEvent, DrainAction, Drained,
    EncryptedSerialBackendResolver, EncryptingSerialIo, FlushAction, FlushEvent, WriteAction,
    WriteOutcome,
};
use std::marker::PhantomData;
use std::sync::Arc;

const NONCE_LEN: usize = 12;
const MAX_PLAINTEXT_LEN: usize = 64;
const PREFIX: &[u8] = b"[[OHENC v1 ";
const SUFFIX: &[u8] = b"]]";
const TAG_LEN: usize = 4;

type Rec = Record<NONCE_LEN>;

fn find_from(haystack: &[u8], needle: &[u8], from: usize) -> Option<usize> {
    let mut at = from;
    while at + needle.len() <= haystack.len() {
        if &haystack[at..at + needle.len()] == needle {
            return Some(at);
        }
        at += 1;
    }
    None
}

fn from_hex(text: &[u8]) -> Option<Vec<u8>> {
    if text.len() % 2 != 0 {
        return None;
    }
    let mut out = Vec::new();
    for pair in text.chunks(2) {
        let hi = (pair[0] as char).to_digit(16)?;
        let lo = (pair[1] as char).to_digit(16)?;
        out.push((hi * 16 + lo) as u8);
    }
    Some(out)
}

fn find(line: &[u8], from: usize) -> SentinelMatch {
    match find_from(line, PREFIX, from) {
        None => SentinelMatch::NotFound,
        Some(start) => {
            let body = start + PREFIX.len();
            match find_from(line, SUFFIX, body) {
                None => SentinelMatch::Malformed { start },
                Some(end) => match from_hex(&line[body..end]) {
                    None => SentinelMatch::Malformed { start },
                    Some(payload) => SentinelMatch::Found {
                        start,
                        end: end + SUFFIX.len(),
                        payload,
                    },
                },
            }
        }
    }
}

fn parse(payload: &[u8]) -> Result<Rec, Vec<u8>> {
    let head = SESSION_ID_LEN + 8 + NONCE_LEN + TAG_LEN;
    if payload.len() < head {
        return Err(b"too short".to_vec());
    }
    let (id, rest) = payload.split_at(SESSION_ID_LEN);
    let (seq, rest) = rest.split_at(8);
    let (nonce, rest) = rest.split_at(NONCE_LEN);
    let (tag, ciphertext) = rest.split_at(TAG_LEN);
    Ok(Record {
        session_id: id.try_into().unwrap(),
        seq: u64::from_be_bytes(seq.try_into().unwrap()),
        nonce: nonce.try_into().unwrap(),
        ciphertext: ciphertext.to_vec(),
        tag: tag.to_vec(),
    })
}

fn encode(record: &Rec) -> Vec<u8> {
    let mut payload = Vec::new();
    payload.extend_from_slice(&record.session_id);
    payload.extend_from_slice(&record.seq.to_be_bytes());
    payload.extend_from_slice(&record.nonce);
    payload.extend_from_slice(&record.tag);
    payload.extend_from_slice(&record.ciphertext);
    let mut out = PREFIX.to_vec();
    for b in payload {
        out.extend_from_slice(format!("{:02x}", b).as_bytes());
    }
    out.extend_from_slice(SUFFIX);
    out
}

fn derive(gks: &GksKeyMaterial, id: &[u8; SESSION_ID_LEN]) -> [u8; AES_KEY_LEN] {
    let mut key = [0u8; AES_KEY_LEN];
    for (i, b) in gks.0.iter().enumerate() {
        key[i % AES_KEY_LEN] ^= b.rotate_left(i as u32 % 7);
    }
    for (i, b) in id.iter().enumerate() {
        key[i] = key[i].wrapping_add(*b);
        key[i + SESSION_ID_LEN] ^= *b;
    }
    key
}

fn derive_ok(gks: &GksKeyMaterial, id: &[u8; SESSION_ID_LEN]) -> Result<[u8; AES_KEY_LEN], String> {
    Ok(derive(gks, id))
}

fn derive_fails(_: &GksKeyMaterial, _: &[u8; SESSION_ID_LEN]) -> Result<[u8; AES_KEY_LEN], String> {
    Err(String::from("no key"))
}

fn mask(key: &[u8; AES_KEY_LEN], nonce: &[u8; NONCE_LEN], data: &[u8]) -> Vec<u8> {
    data.iter()
        .enumerate()
        .map(|(i, b)| b ^ key[i % AES_KEY_LEN] ^ nonce[i % NONCE_LEN])
        .collect()
}

fn checksum(
    key: &[u8; AES_KEY_LEN],
    id: &[u8; SESSION_ID_LEN],
    seq: u64,
    plaintext: &[u8],
) -> Vec<u8> {
    let mut sum: u32 = 7;
    for b in key.iter().chain(id).chain(&seq.to_be_bytes()).chain(plaintext) {
        sum = sum.wrapping_mul(31).wrapping_add(*b as u32);
    }
    sum.to_be_bytes().to_vec()
}

fn seal(
    key: &[u8; AES_KEY_LEN],
    id: &[u8; SESSION_ID_LEN],
    seq: u64,
    nonce: &[u8; NONCE_LEN],
    plaintext: &[u8],
) -> Result<(Vec<u8>, Vec<u8>), String> {
    Ok((mask(key, nonce, plaintext), checksum(key, id, seq, plaintext)))
}

/// As `seal`, but refuses the third record of a session.
fn seal_two(
    key: &[u8; AES_KEY_LEN],
    id: &[u8; SESSION_ID_LEN],
    seq: u64,
    nonce: &[u8; NONCE_LEN],
    plaintext: &[u8],
) -> Result<(Vec<u8>, Vec<u8>), String> {
    if seq == 2 {
        return Err(String::from("refused"));
    }
    seal(key, id, seq, nonce, plaintext)
}

fn open(key: &[u8; AES_KEY_LEN], record: &Rec) -> Result<Vec<u8>, Vec<u8>> {
    let plaintext = mask(key, &record.nonce, &record.ciphertext);
    if checksum(key, &record.session_id, record.seq, &plaintext) == record.tag {
        Ok(plaintext)
    } else {
        Err(b"bad tag".to_vec())
    }
}

fn encrypt_stream(
    gks: &GksKeyMaterial,
    input: &[u8],
    out: &mut Vec<u8>,
) -> Result<(), StreamError<String>> {
    let records = RecordWriter::<NONCE_LEN, _, _, _> {
        max_plaintext: MAX_PLAINTEXT_LEN,
        derive: derive_ok,
        seal,
        encode,
    };
    stream_encrypt_io(gks, input, out, &records)
}

fn decrypt_stream(gks: &GksKeyMaterial, input: &[u8], out: &mut Vec<u8>) -> Result<(), NotUtf8> {
    let reader = RecordReader { find, parse, derive, open };
    stream_decrypt_io(gks, input, out, &reader)
}

fn test_gks() -> GksKeyMaterial {
    let mut buf = [0u8; GKS_LEN];
    for (i, b) in buf.iter_mut().enumerate() {
        *b = (i & 0xff) as u8;
    }
    GksKeyMaterial(buf)
}

fn round_trip(input: &[u8]) -> Vec<u8> {
    let gks = test_gks();
    let mut encrypted = Vec::new();
    assert!(encrypt_stream(&gks, input, &mut encrypted).is_ok());
    let mut decrypted = Vec::new();
    assert!(decrypt_stream(&gks, &encrypted, &mut decrypted).is_ok());
    decrypted
}

/// The records in a stream of one record per line.
fn records_of(stream: &[u8]) -> Vec<Rec> {
    let mut out = Vec::new();
    for line in stream.split(|b| *b == b'\n') {
        if let SentinelMatch::Found { payload, .. } = find(line, 0) {
            out.push(parse(&payload).unwrap());
        }
    }
    out
}

/// The plaintexts of the records in a stream of one record per line.
fn plaintexts(gks: &GksKeyMaterial, stream: &[u8]) -> Vec<Vec<u8>> {
    records_of(stream)
        .iter()
        .map(|r| open(&derive(gks, &r.session_id), r).unwrap())
        .collect()
}

/// A record of a given session.
fn sample_record(gks: &GksKeyMaterial, id: [u8; SESSION_ID_LEN], seq: u64, plaintext: &[u8]) -> Rec {
    let nonce = [9u8; NONCE_LEN];
    let (ciphertext, tag) = seal(&derive(gks, &id), &id, seq, &nonce, plaintext).unwrap();
    Record { session_id: id, seq, nonce, ciphertext, tag }
}

#[test]
fn round_trip_single_line_lf_terminated() {
    let input = b"hello world\n";
    let output = round_trip(input);
    assert_eq!(output, input);
}

#[test]
fn round_trip_multi_line() {
    let input = b"line one\nline two\nline three\n";
    let output = round_trip(input);
    assert_eq!(output, input);
}

#[test]
fn round_trip_preserves_embedded_cr() {
    let input = b"long status line ending with cr\rshort overlay\n";
    let output = round_trip(input);
    assert_eq!(output, input);
}

#[test]
fn round_trip_preserves_utf8_ellipsis() {
    let mut input = Vec::new();
    input.extend_from_slice(b"Starting kmod-static-nodes.service");
    input.extend_from_slice(&[0xe2, 0x80, 0xa6]);
    input.extend_from_slice(b"eate List of Static Device Nodes...\n");
    let output = round_trip(&input);
    assert_eq!(output, input);
}

#[test]
fn stream_decrypt_does_not_add_newline_after_sentinel() {
    let input = b"abc\n";
    let output = round_trip(input);
    assert_eq!(output.iter().filter(|&&b| b == b'\n').count(), 1);
}

#[test]
fn stream_decrypt_passes_through_plaintext_with_newline() {
    let gks = test_gks();
    let mut output = Vec::new();
    decrypt_stream(&gks, b"plain text line one\nplain text line two\n", &mut output)
        .expect("stream_decrypt_io should succeed");
    assert_eq!(output, b"plain text line one\nplain text line two\n");
}

#[test]
fn stream_decrypt_preserves_blank_lines() {
    let gks = test_gks();
    let mut output = Vec::new();
    decrypt_stream(&gks, b"a\n\nb\n", &mut output).expect("stream_decrypt_io should succeed");
    assert_eq!(output, b"a\n\nb\n");
}

#[test]
fn stream_decrypt_handles_mixed_plaintext_and_records() {
    let gks = test_gks();

    let mut session_id = [0u8; SESSION_ID_LEN];
    getrandom::fill(&mut session_id).expect("getrandom");
    let aes_key: [u8; AES_KEY_LEN] = derive_ok(&gks, &session_id).unwrap();
    let mut nonce = [0u8; NONCE_LEN];
    getrandom::fill(&mut nonce).expect("getrandom");
    let plaintext = b"encrypted line\n";
    let (ciphertext, tag) = seal(&aes_key, &session_id, 0, &nonce, plaintext).expect("encrypt");
    let record = Record { session_id, seq: 0, nonce, ciphertext, tag };
    let sentinel = encode(&record);

    let mut input = Vec::new();
    input.extend_from_slice(b"first plaintext line\n");
    input.extend_from_slice(&sentinel);
    input.extend_from_slice(b"\n");
    input.extend_from_slice(b"third plaintext line\n");

    let mut output = Vec::new();
    decrypt_stream(&gks, &input, &mut output).expect("stream_decrypt_io should succeed");

    let expected = b"first plaintext line\nencrypted line\nthird plaintext line\n";
    assert_eq!(output, expected);
}

#[test]
fn round_trip_normalises_line_ends() {
    assert_eq!(round_trip(b""), b"");
    assert_eq!(round_trip(b"\n"), b"\n");
    assert_eq!(round_trip(b"no end"), b"no end\n");
    assert_eq!(round_trip(b"dos\r\nunix\n"), b"dos\nunix\n");
    assert_eq!(round_trip(b"last\r"), b"last\r\n");
}

#[test]
fn long_lines_are_cut_into_records() {
    let gks = test_gks();
    let mut input = vec![b'x'; 2 * MAX_PLAINTEXT_LEN];
    input.push(b'\n');
    input.extend_from_slice(b"y\n");
    let mut encrypted = Vec::new();
    assert!(encrypt_stream(&gks, &input, &mut encrypted).is_ok());
    let chunks = plaintexts(&gks, &encrypted);
    assert_eq!(
        chunks,
        vec![
            vec![b'x'; MAX_PLAINTEXT_LEN],
            vec![b'x'; MAX_PLAINTEXT_LEN],
            b"\n".to_vec(),
            b"y\n".to_vec(),
        ]
    );
    let mut decrypted = Vec::new();
    assert!(decrypt_stream(&gks, &encrypted, &mut decrypted).is_ok());
    assert_eq!(decrypted, input);
}

#[test]
fn records_of_a_session_are_numbered_in_a_row() {
    let gks = test_gks();
    let mut encrypted = Vec::new();
    assert!(encrypt_stream(&gks, b"a\nb\nc\n", &mut encrypted).is_ok());
    let records = records_of(&encrypted);
    let numbers: Vec<u64> = records.iter().map(|r| r.seq).collect();
    assert_eq!(numbers, vec![0, 1, 2]);
    assert!(records.iter().all(|r| r.session_id == records[0].session_id));
}

#[test]
fn sessions_and_nonces_are_drawn_anew() {
    let gks = test_gks();
    let mut first = Vec::new();
    let mut second = Vec::new();
    assert!(encrypt_stream(&gks, b"a\na\n", &mut first).is_ok());
    assert!(encrypt_stream(&gks, b"a\na\n", &mut second).is_ok());
    let first = records_of(&first);
    let second = records_of(&second);
    assert_ne!(first[0].session_id, [0u8; SESSION_ID_LEN]);
    assert_ne!(first[0].session_id, second[0].session_id);
    assert_ne!(first[0].nonce, first[1].nonce);
}

#[test]
fn a_line_that_is_not_utf8_ends_the_streams() {
    let gks = test_gks();
    let mut encrypted = Vec::new();
    let r = encrypt_stream(&gks, b"good\nbad \xff\nnever\n", &mut encrypted);
    assert!(matches!(r, Err(StreamError::NotUtf8)));
    assert_eq!(plaintexts(&gks, &encrypted), vec![b"good\n".to_vec()]);

    let mut decrypted = Vec::new();
    let r = decrypt_stream(&gks, b"good\n\xe2\x80\nnever\n", &mut decrypted);
    assert_eq!(r, Err(NotUtf8));
    assert_eq!(decrypted, b"good\n");
}

#[test]
fn failures_are_reported() {
    let gks = test_gks();
    let mut out = Vec::new();
    let records = RecordWriter::<NONCE_LEN, _, _, _> {
        max_plaintext: MAX_PLAINTEXT_LEN,
        derive: derive_fails,
        seal,
        encode,
    };
    match stream_encrypt_io(&gks, b"a\n", &mut out, &records) {
        Err(StreamError::Session(SessionError::DeriveKey(e))) => assert_eq!(e, "no key"),
        _ => panic!("expected a key failure"),
    }
    assert!(out.is_empty());

    let records = RecordWriter::<NONCE_LEN, _, _, _> {
        max_plaintext: MAX_PLAINTEXT_LEN,
        derive: derive_ok,
        seal: seal_two,
        encode,
    };
    match stream_encrypt_io(&gks, b"a\nb\nc\nd\n", &mut out, &records) {
        Err(StreamError::Encrypt(EncryptError::Seal(e))) => assert_eq!(e, "refused"),
        _ => panic!("expected a cipher failure"),
    }
    assert_eq!(plaintexts(&gks, &out), vec![b"a\n".to_vec(), b"b\n".to_vec()]);
}

#[test]
fn what_does_not_parse_or_decrypt_is_marked() {
    let gks = test_gks();
    let mut out = Vec::new();
    decrypt_stream(&gks, b"<[[OHENC v1 00ff]]>\n", &mut out).unwrap();
    assert_eq!(out, b"<<<parse failed: too short>>>\n");

    let mut record = sample_record(&gks, [3; SESSION_ID_LEN], 0, b"text\n");
    record.tag[0] ^= 1;
    let mut input = b"a ".to_vec();
    input.extend_from_slice(&encode(&record));
    input.extend_from_slice(b" b\n");
    let mut out = Vec::new();
    decrypt_stream(&gks, &input, &mut out).unwrap();
    assert_eq!(out, b"a <<decrypt failed: bad tag>> b\n");
}

#[test]
fn malformed_records_pass_through() {
    let gks = test_gks();
    for input in [
        &b"[[OHENC v1 zz]] tail\n"[..],
        &b"[[OHENC v1 00\n"[..],
        &b"head [[OHENC v1 [[OHENC v1 \n"[..],
    ] {
        let mut out = Vec::new();
        decrypt_stream(&gks, input, &mut out).unwrap();
        assert_eq!(out, input);
    }
}

#[test]
fn records_and_text_share_a_line() {
    let gks = test_gks();
    let one = encode(&sample_record(&gks, [1; SESSION_ID_LEN], 0, b"one\n"));
    let two = encode(&sample_record(&gks, [2; SESSION_ID_LEN], 5, b"two\n"));
    let again = encode(&sample_record(&gks, [1; SESSION_ID_LEN], 1, b"three\n"));
    let mut input = b"a".to_vec();
    input.extend_from_slice(&one);
    input.extend_from_slice(&two);
    input.extend_from_slice(b"b");
    input.extend_from_slice(&again);
    input.extend_from_slice(b"c\nd\n");
    let mut out = Vec::new();
    decrypt_stream(&gks, &input, &mut out).unwrap();
    assert_eq!(out, b"aone\ntwo\nbthree\ncd\n");
}

#[test]
fn decrypting_is_local_to_lines() {
    let gks = test_gks();
    let mut a = b"plain\n".to_vec();
    a.extend_from_slice(&encode(&sample_record(&gks, [1; SESSION_ID_LEN], 0, b"one\n")));
    a.push(b'\n');
    let b = b"more\nend".to_vec();
    let mut both = a.clone();
    both.extend_from_slice(&b);
    let (mut out_a, mut out_b, mut out) = (Vec::new(), Vec::new(), Vec::new());
    decrypt_stream(&gks, &a, &mut out_a).unwrap();
    decrypt_stream(&gks, &b, &mut out_b).unwrap();
    decrypt_stream(&gks, &both, &mut out).unwrap();
    out_a.extend_from_slice(&out_b);
    assert_eq!(out, out_a);
    assert_eq!(out, b"plain\none\nmore\nend\n");
}

#[test]
fn output_is_appended() {
    let gks = test_gks();
    let mut out = b"before ".to_vec();
    decrypt_stream(&gks, b"x\n", &mut out).unwrap();
    assert_eq!(out, b"before x\n");
}

#[test]
fn bridge_encrypts_reads_back_to_back() {
    let gks = test_gks();
    let records = RecordWriter::<NONCE_LEN, _, _, _> {
        max_plaintext: 4,
        derive: derive_ok,
        seal,
        encode,
    };
    let reads = vec![b"ab".to_vec(), b"cdefgh".to_vec(), Vec::new(), b"never".to_vec()];
    let mut out = Vec::new();
    let totals = encrypt_loop(&gks, &reads, &mut out, &records);
    assert!(matches!(totals, Ok(EncryptTotals { bytes_in: 8, records: 3 })));
    assert!(!out.contains(&b'\n'));
    let mut chunks = Vec::new();
    let mut at = 0;
    while let SentinelMatch::Found { start, end, payload } = find(&out, at) {
        assert_eq!(start, at);
        let record = parse(&payload).unwrap();
        assert_eq!(record.seq, chunks.len() as u64);
        chunks.push(open(&derive(&gks, &record.session_id), &record).unwrap());
        at = end;
    }
    assert_eq!(at, out.len());
    assert_eq!(chunks, vec![b"ab".to_vec(), b"cdef".to_vec(), b"gh".to_vec()]);

    let mut plain = Vec::new();
    decrypt_stream(&gks, &out, &mut plain).unwrap();
    assert_eq!(plain, b"abcdefgh");
}

#[test]
fn bridge_counts_what_it_reads() {
    let gks = test_gks();
    let records = RecordWriter::<NONCE_LEN, _, _, _> {
        max_plaintext: 4,
        derive: derive_ok,
        seal: seal_two,
        encode,
    };
    let mut out = Vec::new();
    let mut state = match EncryptLoop::open(&gks, &records) {
        Ok(state) => state,
        Err(_) => panic!("session"),
    };
    assert!(matches!(state.on_read(b"hello", &records, &mut out), Ok(false)));
    assert_eq!(state.totals(), EncryptTotals { bytes_in: 5, records: 2 });
    assert!(matches!(
        state.on_read(b"x", &records, &mut out),
        Err(EncryptError::Seal(_))
    ));
    assert_eq!(state.totals(), EncryptTotals { bytes_in: 6, records: 2 });
    assert!(matches!(state.on_read(b"", &records, &mut out), Ok(true)));
}

#[test]
fn bridge_decrypts_until_the_end() {
    let gks = test_gks();
    // Holds back everything behind the last full stop.
    let scanner = Scanner {
        extend: |mut held: Vec<u8>, read: &[u8]| {
            held.extend_from_slice(read);
            held
        },
        drain: |mut held: Vec<u8>, _: &GksKeyMaterial, at_eof: bool| {
            // Fails at a mark, after what comes before it was given out.
            if let Some(mark) = held.iter().position(|b| *b == b'!') {
                held.truncate(mark);
                return (Err(String::from("stop")), held);
            }
            let keep = if at_eof {
                held.len()
            } else {
                held.iter().rposition(|b| *b == b'.').map_or(0, |i| i + 1)
            };
            let rest = held.split_off(keep);
            (Ok(rest), held)
        },
        state: PhantomData,
    };
    let mut out = Vec::new();
    let reads = vec![b"ab".to_vec(), b"c.d".to_vec(), Vec::new(), b"never.".to_vec()];
    let totals = decrypt_loop(&gks, &reads, &mut out, Vec::new(), &scanner).unwrap();
    assert_eq!((totals.bytes_in, totals.bytes_out), (5, 5));
    assert_eq!(out, b"abc.d");

    let reads = vec![b"one.".to_vec(), b"tw!o.".to_vec(), b"three.".to_vec()];
    let mut out = Vec::new();
    let r = decrypt_loop(&gks, &reads, &mut out, Vec::new(), &scanner);
    assert_eq!(r, Err(String::from("stop")));
    assert_eq!(out, b"one.tw");
}

#[test]
fn bridge_directions_undo_each_other() {
    let gks = test_gks();
    let records = RecordWriter::<NONCE_LEN, _, _, _> {
        max_plaintext: 4,
        derive: derive_ok,
        seal,
        encode,
    };
    // Gives out the plaintext of every record that has arrived whole.
    let scanner = Scanner {
        extend: |mut held: Vec<u8>, read: &[u8]| {
            held.extend_from_slice(read);
            held
        },
        drain: |held: Vec<u8>, gks: &GksKeyMaterial, _: bool| {
            let mut at = 0;
            let mut out = Vec::new();
            while let SentinelMatch::Found { start, end, payload } = find(&held, at) {
                out.extend_from_slice(&held[at..start]);
                let record = parse(&payload).unwrap();
                out.extend(open(&derive(gks, &record.session_id), &record).unwrap());
                at = end;
            }
            (Ok::<Vec<u8>, String>(held[at..].to_vec()), out)
        },
        state: PhantomData,
    };
    let reads = vec![vec![0xffu8, b'\n', 0, b'\r'], b"\nlonger than one".to_vec()];
    let mut wire = Vec::new();
    assert!(encrypt_loop(&gks, &reads, &mut wire, &records).is_ok());
    for size in [1, 7, wire.len()] {
        let cut: Vec<Vec<u8>> = wire.chunks(size).map(|c| c.to_vec()).collect();
        let mut out = Vec::new();
        let totals = decrypt_loop(&gks, &cut, &mut out, Vec::new(), &scanner).unwrap();
        assert_eq!(out, reads.concat());
        assert_eq!(totals.bytes_in, wire.len() as u64);
        assert_eq!(totals.bytes_out, 20);
    }
}

#[test]
fn sessions_of_a_bridge_share_no_record_number() {
    let gks = test_gks();
    let records = RecordWriter::<NONCE_LEN, _, _, _> {
        max_plaintext: 4,
        derive: derive_ok,
        seal,
        encode,
    };
    let mut seen = Vec::new();
    for _ in 0..2 {
        let mut state = match EncryptLoop::open(&gks, &records) {
            Ok(state) => state,
            Err(_) => panic!("session"),
        };
        let mut out = Vec::new();
        assert!(matches!(state.on_read(b"abcdefghi", &records, &mut out), Ok(false)));
        let mut at = 0;
        let mut next = 0;
        while let SentinelMatch::Found { end, payload, .. } = find(&out, at) {
            let record = parse(&payload).unwrap();
            assert_eq!(&record.session_id, state.session_id());
            assert_eq!(record.seq, next);
            assert!(!seen.contains(&(record.session_id, record.seq)));
            seen.push((record.session_id, record.seq));
            next += 1;
            at = end;
        }
    }
    assert_eq!(seen.len(), 6);
}

#[test]
fn serial_backend_sends_complete_lines() {
    let gks = test_gks();
    let records = RecordWriter::<NONCE_LEN, _, _, _> {
        max_plaintext: 8,
        derive: derive_ok,
        seal,
        encode,
    };
    let id = [4u8; SESSION_ID_LEN];
    let mut io = EncryptingSerialIo::new(derive(&gks, &id), id);
    assert_eq!(io.seq(), 0);

    let r = io.poll_write(Drained::Done, b"ab", &records);
    assert!(matches!(r, WriteAction::Taken { taken: 2, drain: false }));
    assert_eq!((io.plaintext_pending(), io.output_pending()), (2, 0));

    // Lines stay whole, and the tail stays, however long.
    let r = io.poll_write(Drained::Done, b"cdefghijkl\nx\nmnopqrstuvw", &records);
    assert!(matches!(r, WriteAction::Taken { taken: 24, drain: true }));
    assert_eq!(io.seq(), 2);
    assert_eq!(io.plaintext_pending(), 11);
    assert_eq!(
        plaintexts(&gks, io.output()),
        vec![b"abcdefghijkl\n".to_vec(), b"x\n".to_vec()]
    );
    assert!(records_of(io.output()).iter().all(|r| r.session_id == id));

    assert!(io.poll_flush(&records).is_ok());
    assert_eq!(io.plaintext_pending(), 0);
    assert_eq!(io.seq(), 4);
    let mut plain = Vec::new();
    decrypt_stream(&gks, io.output(), &mut plain).unwrap();
    assert_eq!(plain, b"abcdefghijkl\nx\nmnopqrstuvw");
    assert_eq!(io.output().last(), Some(&b'\n'));

    // A second flush makes no record.
    let sent = io.output().to_vec();
    assert!(io.poll_flush(&records).is_ok());
    assert_eq!(io.seq(), 4);
    assert_eq!(io.output(), sent);
}

#[test]
fn serial_backend_keeps_long_tails_until_a_line_or_a_flush() {
    let gks = test_gks();
    let records = RecordWriter::<NONCE_LEN, _, _, _> {
        max_plaintext: 4,
        derive: derive_ok,
        seal,
        encode,
    };
    let id = [4u8; SESSION_ID_LEN];
    let mut io = EncryptingSerialIo::new(derive(&gks, &id), id);
    let r = io.poll_write(Drained::Done, b"abcdefghij", &records);
    assert!(matches!(r, WriteAction::Taken { taken: 10, drain: false }));
    assert!(io.flush_plaintext_to_output(&records).is_ok());
    assert_eq!((io.plaintext_pending(), io.output_pending(), io.seq()), (10, 0, 0));
    assert!(io.flush_all_plaintext_to_output(&records).is_ok());
    assert_eq!(
        plaintexts(&gks, io.output()),
        vec![b"abcd".to_vec(), b"efgh".to_vec(), b"ij".to_vec()]
    );
    assert_eq!((io.plaintext_pending(), io.seq()), (0, 3));

    // A line feed completes a long tail, which is then one record.
    let mut io = EncryptingSerialIo::new(derive(&gks, &id), id);
    io.poll_write(Drained::Done, b"aaaa", &records);
    assert_eq!((io.plaintext_pending(), io.output_pending(), io.seq()), (4, 0, 0));
    io.poll_write(Drained::Done, b"b\n", &records);
    assert_eq!(plaintexts(&gks, io.output()), vec![b"aaaab\n".to_vec()]);
}

#[test]
fn flush_and_close_pass_on_what_they_meet() {
    assert_eq!(
        flush_step(FlushEvent::Drained(Drained::Done)),
        FlushAction::FlushTransport
    );
    assert_eq!(
        flush_step(FlushEvent::Drained(Drained::Pending)),
        FlushAction::Return(Answer::Pending)
    );
    assert_eq!(
        flush_step(FlushEvent::Drained(Drained::Failed)),
        FlushAction::Return(Answer::Failed)
    );
    assert_eq!(close_step(CloseEvent::Flushed(Answer::Ready)), CloseAction::CloseTransport);
    for answer in [Answer::Ready, Answer::Pending, Answer::Failed] {
        assert_eq!(flush_step(FlushEvent::Flushed(answer)), FlushAction::Return(answer));
        assert_eq!(close_step(CloseEvent::Closed(answer)), CloseAction::Return(answer));
    }
    for answer in [Answer::Pending, Answer::Failed] {
        assert_eq!(close_step(CloseEvent::Flushed(answer)), CloseAction::Return(answer));
    }
}

#[test]
fn serial_backend_drains_into_the_transport() {
    let gks = test_gks();
    let records = RecordWriter::<NONCE_LEN, _, _, _> {
        max_plaintext: 8,
        derive: derive_ok,
        seal,
        encode,
    };
    let id = [4u8; SESSION_ID_LEN];
    let mut io = EncryptingSerialIo::new(derive(&gks, &id), id);
    assert_eq!(io.poll_drain_output(None), DrainAction::Stop(Drained::Done));
    io.poll_write(Drained::Done, b"line\n", &records);
    let all = io.output().to_vec();
    assert_eq!(io.poll_drain_output(None), DrainAction::Write);
    assert_eq!(
        io.poll_drain_output(Some(WriteOutcome::Wrote(10))),
        DrainAction::Write
    );
    assert_eq!(io.output(), &all[10..]);
    assert_eq!(
        io.poll_drain_output(Some(WriteOutcome::Pending)),
        DrainAction::Stop(Drained::Pending)
    );
    assert_eq!(
        io.poll_drain_output(Some(WriteOutcome::Failed)),
        DrainAction::Stop(Drained::Failed)
    );
    assert_eq!(io.output(), &all[10..]);

    // Nothing is taken while the queue cannot be drained.
    let r = io.poll_write(Drained::Pending, b"more\n", &records);
    assert!(matches!(r, WriteAction::Stop(Drained::Pending)));
    let r = io.poll_write(Drained::Failed, b"more\n", &records);
    assert!(matches!(r, WriteAction::Stop(Drained::Failed)));
    assert_eq!(io.plaintext_pending(), 0);

    assert_eq!(
        io.poll_drain_output(Some(WriteOutcome::Wrote(all.len() - 10))),
        DrainAction::Stop(Drained::Done)
    );
    assert_eq!(io.output_pending(), 0);
}

#[test]
fn serial_backend_loses_only_the_chunk_that_fails() {
    let gks = test_gks();
    let records = RecordWriter::<NONCE_LEN, _, _, _> {
        max_plaintext: 8,
        derive: derive_ok,
        seal: seal_two,
        encode,
    };
    let id = [4u8; SESSION_ID_LEN];
    let mut io = EncryptingSerialIo::new(derive(&gks, &id), id);
    let r = io.poll_write(Drained::Done, b"a\nb\nc\nd\ne", &records);
    assert!(matches!(r, WriteAction::Fail(EncryptError::Seal(_))));
    assert_eq!(plaintexts(&gks, io.output()), vec![b"a\n".to_vec(), b"b\n".to_vec()]);
    assert_eq!(io.seq(), 2);
    assert_eq!(io.plaintext_pending(), 3);
}

#[test]
fn resolver_opens_a_fresh_session() {
    let gks = Arc::new(test_gks());
    let resolver = EncryptedSerialBackendResolver { gks: gks.clone() };
    let records = RecordWriter::<NONCE_LEN, _, _, _> {
        max_plaintext: 8,
        derive: derive_ok,
        seal,
        encode,
    };
    let mut io = match resolver.resolve(&records) {
        Ok(io) => io,
        Err(_) => panic!("session"),
    };
    io.poll_write(Drained::Done, b"hi\n", &records);
    assert_eq!(plaintexts(&gks, io.output()), vec![b"hi\n".to_vec()]);
    assert_eq!(records_of(io.output())[0].seq, 0);

    let records = RecordWriter::<NONCE_LEN, _, _, _> {
        max_plaintext: 8,
        derive: derive_fails,
        seal,
        encode,
    };
    assert!(matches!(
        resolver.resolve(&records),
        Err(SessionError::DeriveKey(_))
    ));
}
