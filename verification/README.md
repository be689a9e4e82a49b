# bsdiff

Binary diffing, verified with Verus. `diff` makes a patch out of an old and a new byte string;
`patch` applies it to the old one and gives back the new one.

- `record`: the patch format.
- `patch`: what a patch means, and applying one.
- `hash`, `matching`, `index`: match anchors, what a match is, and the hash index in which matches
  are looked up.
- `extend`, `plan`: how matches are extended, and which records a patch consists of. The proof that
  applying a patch gives back the new byte string is in `plan`.
- `scan`, `diff`: making a patch.
- `parallel`, `par_index`, `par_scan`: the same on several threads. The index is the same as on one
  thread; the patch is divided into chunks of fixed size, so it depends on the inputs alone.

`app/` reads and writes patches through streams.
