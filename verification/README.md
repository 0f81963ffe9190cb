# tiff

An encoder for TIFF and BigTIFF files, verified with Verus.

`src/` is the library. It does no I/O: for every image the encoder gives back a `StreamUpdate`,
which holds the bytes to write where the stream is and, from the second image on, the link to
write into the directory before.

- `encoder`: the settings and tags of a file, and the images. Below it, `layout` says where
  everything stands in a file, `directory` and `value` are about the entries of a directory, and
  `compression` and `packbits` about strips.
- `reader`: what the bytes of a file mean, as spec functions.
- `laws`: what holds of every image (`image`), of every file (`file`) and of images written one
  after the other (`calls`), above all that a reader gets back what was written.
- `bytes`, `tags`, `error`: numbers, names and errors.

LZW is done by `weezl` and Deflate by `flate2`. What is taken on trust of them stands in
`src/encoder/compression.rs`.

`app/` writes files to anything that implements `Write` and `Seek`.
