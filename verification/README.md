# encrypted_serial

Record-level logic of an encrypted serial console: console output leaves a guest
as framed, encrypted records, and a receiver that holds the guest secret turns
the stream back into text.

- `src/` is the verified library. The wire format and the cipher are parameters
  of it (`record.rs`); every contract is stated over their mathematical models.
  - `lines.rs`, `encrypt.rs`, `encrypt_stream.rs`, `decrypt.rs`: text streams to
    records and back.
  - `serial.rs`: the encrypting serial backend.
  - `bridge.rs`: the two directions between a terminal and a serial pipe, and
    the wait for the pipe.
  - `provision.rs`, `cli.rs`: decisions of the tools.
  - `laws.rs`, `back_to_back.rs`, `serial_laws.rs`: what holds across functions,
    above all that decrypting gives back what was encrypted.
  - `random.rs`, `is_utf8` in `lines.rs`, and the path type in `provision.rs`: what
    is trusted.
- `app/` is the program around it: arguments, files, pipes, threads, and the
  binding to the rest of OpenHCL (`app/openhcl/`), whose crates supply the format,
  the cipher, the guest state file and the serial device model.
- `tests/` runs the library with a small format and cipher of its own.
