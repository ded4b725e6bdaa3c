# sosw — Speed of Sound WiFi, verified core

Data over sound: an acoustic OFDM/FSK modem with a link layer (CRC-32,
Reed-Solomon FEC, whitening, framing), a DTMF handshake channel, Ethernet
fragmentation with a CSMA/CA MAC, and a stop-and-wait file transfer.

The library in `src/` is written in Verus. Every function there carries a
contract that Verus proves; the calls into `crc`, `reed-solomon`, `rand` and
`rand_chacha` go through small trusted functions whose contracts name what
those crates return.

- `bits` — MSB-first bit packing.
- `config` — the OFDM layout presets.
- `link` — CRC-32, GF(256), Reed-Solomon blocks, ChaCha12 whitening, frame
  assembly and the streaming frame parser.
- `physical` — the integer side of the modems: OFDM frame bits, M-FSK wire
  framing, shortened RS, preamble, symbol packing and differential mapping,
  the parallel FSK bank's symbol matrix, DPSK bit framing, DTMF nibbles,
  the scoring of an over-the-air run.
- `net` — fragmentation and reassembly, the DTMF handshake messages, the MAC
  state machine, the transfer protocol's sender and receiver, the
  link-training state machines, the TAP interface abstraction.

`app/` is the `sosw-tap` program: the TAP bridge (`serve`), device listing,
raw OFDM frames through the sound card (`tx`, `rx`, `test`) and their
over-the-air validation (`ota`),
the file transfer over single-stream FSK or the parallel bank (`ftp`), link
training (`train`), the DTMF handshake (`link`) and an offline modem check
(`loopback`). It holds what works on audio samples (floating point) and on
devices: tone synthesis and detection, OFDM, the DPSK equalizer. It drives
the library's state machines.

`tests/` runs the library against concrete inputs.
