# tlscap

A TLS-decrypting packet capture tool whose core is verified with Verus.

tlscap reads a pcap or pcapng stream, reassembles its TCP streams, decrypts TLS 1.2 and 1.3
application data with the secrets of a growing `SSLKEYLOGFILE`, hands the plaintext to Wireshark
Lua dissectors and writes what they record, either in the format of `tshark -T ek` or as one JSON
object per line.

## Layout

- `src/` is the library. Every item of it is verified: each function states in `requires` and
  `ensures` what it takes and gives, and the proof functions named `law_...` state what holds of
  several of them together.
  - `reassembly` puts segments in order; `reassembly::laws` shows that the order of arrival makes no
    difference and that what is given up is reported, `reassembly::calls` what holds throughout.
  - `tls13`, `tls12`, `connection` decrypt records; `aead` and `kdf` hold the calls into the
    cipher crates.
  - `keylog`, `keylog_source` read the secrets and say when to read them again.
  - `pcap_input` finds the TCP segment in a captured packet and the right time of a packet.
  - `orchestrator` tracks connections and works frames off step by step; it says what it needs from
    outside, `orchestrator::laws` what holds of every step, and `orchestrator::frames` of whole
    frames.
  - `lua` is what a dissector script works with: byte windows, the tree of recorded
    fields, the columns and the table of dissectors by port.
  - `ek_output` writes the two output formats; `rotation` says when an output chunk is full.
  - `cli`, `memstats`, `plugin_loader` are the rules around the program.
- `app/` is the program: command line, files, the Lua VM, gzip. It does what the library asks for
  and hands back what came of it.
- `tests/` runs the library, with the real cipher and packet crates behind it.

## What is trusted

The calls into outside crates (`aes-gcm`, `chacha20poly1305`, `hkdf`, `hmac`, `hex`, `etherparse`)
and into a few functions of the standard library stand in small wrappers marked
`#[verifier::external_body]`. Each says above itself what is claimed of the call and not proved.
