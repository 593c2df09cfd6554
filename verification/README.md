# orouter_serial

Typed messages for the serial link between a host (a computer or a phone) and
an oRouter node, the codecs of the serial hardware (USB, RN4870, BGX13,
BT4502), and the overline and point-to-point layers of the radio side.

Every function of the library in `src/` carries a contract proved with Verus:

- `host`: the messages of the host protocol, their bytes, COBS framing and
  the `MessageReader` that reads them back; `host::codec` cuts encoded
  messages into the frames each serial line carries.
- `message`: the message types serialised with postcard, reading them from
  their text, and finding COBS frames in a buffer.
- `overline`: the layout of an overline message and the `MessageStore` that
  decides which messages a node retransmits and when. Its queues are the
  `heapless` collections (`Vec` for the messages waiting to be sent,
  `HistoryBuffer` for the hashes seen), reached through wrappers whose
  contracts state what those collections do.
- `overline_host`: the host protocol of overline nodes (USB serial frames and
  hexadecimal BLE frames, with its own `MessageReader`).
- `p2p`: cutting a logical message into LoRa sized parts and putting the
  parts back together.
- `encoding` and `random`: the calls into the `cobs`, `base16` and `rand`
  crates, each behind a contract that states what the crate does.

The laws of the library (a message read back from its encoding, a message
received twice is seen, the parts of a message put back together give the
message, ...) are public proof functions next to the code they speak of.

`app/` holds the command line tool that prints a command's postcard bytes,
and the serde copies of the message types with the postcard decoding of a
buffer of frames. `tests/` exercises the library on concrete values.
