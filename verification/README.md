# recm2tv

Host-side library and recorder for the I-O DATA GV-M2TV USB tuner
(04bb:053a), written in Verus.

- `src/` is the verified library:
  - `protocol` – word/dword swapping, secure-command encoding, AES-128-CBC,
    SHA-1 over byte parts, and the encrypted B-CAS relay framing;
  - `ts` – MPEG-TS packet synchronisation with a carry buffer and in-place
    descrambling of scrambled packets;
  - `device` – the `Transport` interface (each request and its reply are
    recorded in a specification-only history that the contracts speak of),
    firmware header check, register addressing, API-command framing with
    its running sequence number, and transfer checks;
  - `lifecycle` – firmware boot, GPIO/tuner setup, channel tuning, TRC
    activation and stream start over a `Transport`;
  - `bcas` – card start-up, B-CAS command relay, relay polling decisions,
    response reading and the ECM and Contents Key payloads;
  - `crypto` – the AES-128 block function and SHA-1, taken from the `aes` and
    `sha1` crates.
- `app/` is the command-line recorder: libusb transport, argument parsing,
  signal handling, file output and the relay polling loop.
- `tests/` exercises the library on concrete values.
