# ferris_viewer

Verified decoders for PNG, BMP and TGA images, and the FerrisViewer window
that shows them.

- `src/` is the library, verified with Verus. `png.rs` is the PNG decoder
  (signature, IHDR, chunk list, zlib inflation through flate2, scanline
  filters, sample unpacking, conversion to RGBA); `png_spec.rs` states each
  stage as a function on a model of the decoder; `png_laws.rs` proves
  properties of the whole decoder. `bmp.rs` and `tga.rs` decode uncompressed
  24- and 32-bit bitmaps and true-color TGA files; `format.rs` picks a decoder
  by file extension; `inflate.rs` holds the one trusted call into flate2.
- `tests/` runs the decoders on small files built in the tests.
- `app/` is the iced program: it reads files, opens the file dialog and shows
  the decoded pixels.
