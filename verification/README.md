# meshtastic-serial-udp

A bridge between a USB-serial Meshtastic radio and UDP multicast, with its
core written in Verus and proved against its contracts.

- `src/serial_framing.rs`: the serial frame format `[0x94, 0xC3, len_hi, len_lo, payload]`
  and the incremental frame reader, with its round-trip laws.
- `src/crypto.rs`: PSK expansion, the channel hash and the Meshtastic AES-CTR
  packet cipher (block encryption by the `aes` crate).
- `src/json.rs`: JSON values and the Raven deep merge of an override file.
- `src/raven.rs`: namekey parsing (base64 by the `base64` crate), reading the
  channel list out of a Raven configuration, and the merge of Raven channels
  into the radio's channels.
- `src/serial.rs`: the decisions of the serial handshake, as a state machine.
- `src/text.rs`: byte and string equality.
- `app/`: the program around the library: command line, serial port, UDP
  socket, file reading, JSON text parsing and protobuf encoding.
- `tests/`: tests of the library.
