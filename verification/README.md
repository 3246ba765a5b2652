# misclab_core

The analysis library of LovelyMiscLab, a node-graph workbench for CTF
"misc" challenges, written in Verus: every function in `src/` carries a
contract that Verus proves.

- `src/` — the verified library: base-N codecs (Base32 to Base92), classical
  ciphers (A1Z26, Atbash, affine, Bacon, Bifid, ADFGVX, Braille, binary,
  bitwise), Brainfuck and its picture dialects, BMP repair and padding,
  Base64 padding steganography, the archive readers and the ZIP listing,
  the ZipCrypto known-plaintext attack (key recovery, reduction and search),
  executable-file analyses (header summary, PE layout, section tables,
  symbol listings, packer signs, resources, import hash, certificates,
  .NET header, overlay), AES and bcrypt through their crates, and the graph
  and node model. Outside crates are reached through small trusted wrappers
  whose contracts name what the crate computes.
- `tests/` — tests of the library, run against the real outside crates.
- `app/` — the application around it: the node registry and graph
  executor, the nodes that read their ports and call the library, the AI
  and process calls, and the floating-point nodes (audio, watermark,
  entropy).

Laws of the library (round trips of every codec, the ZipCrypto key
algebra, the padding channel of BMP files, the 0/1 picture round trip) are
public proof functions next to the code they speak of.
