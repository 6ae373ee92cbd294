# screen_mirror

Mirroring a screen to a receiver on the local network: the sender finds
receivers over mDNS, proves knowledge of the PIN the receiver shows with a
SPAKE2 exchange, negotiates the stream over an encrypted control channel,
and sends H.264 video and Opus audio as encrypted RTP over UDP with XOR
parity for loss recovery.

`src/` is the verified library (Verus):

- `security`: ChaCha20-Poly1305 packet sealing, key derivation, SPAKE2
  pairing, replay windows.
- `transport`: RTP headers, H.264 packetization and reassembly, parity
  groups, the audio jitter buffer.
- `protocol`: control and negotiation messages, the framed control
  channel, the HTTP PIN check.
- `receiver`: a datagram in, NAL units and audio payloads out.
- `ui`: the sender's screen state machine, PIN editor, command handling and
  the datagrams of each frame.
- `discovery`, `capture`, `encode`, `decode`, `audio`, `sync`: what is
  announced and found on the network, cursor drawing, NAL unit splitting,
  decoder parameter sets, audio playout, A/V drift.

`app/` drives the library with sockets, threads, mDNS, HTTP and JSON:
`receiver`, or `sender <PIN>`.  Screen capture, hardware video coding, Opus
and the window and tray front end need platform backends that this build
does not include.
