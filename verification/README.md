# wap

Readers for the resources of the WAP32 engine, verified with Verus: REZ package
indices, PID images, ANI animations, WWD worlds, 256-colour palettes, PCX images, and the encrypted text files of Gruntz (blowfish-compat
decryption, padding, the extra decoding of cheat codes, INI parsing).

- `src/` is the verified library. Every reader works on a `ByteStream`, bytes held in
  memory with a position, and states in its contract what it gives for every input:
  the value read, the read error, or `None` where the data cannot be read on.
- `app/` holds what works on files and other seekable streams, a `pcx` reader over
  such a stream, and the conversion of images to the `image` crate.
- `tests/` runs the library on small hand-made packages, images, animations and
  worlds.
- A package index (`res::index::Index`) keeps its resources and directories in
  vectors, each URI once, so that its contracts can speak of them as maps; lookups
  and inserts search linearly.
