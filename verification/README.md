# qr

A QR code generator whose logic is proved with Verus.

- `src/rdsm/`: arithmetic in GF(2^8), polynomials over it, Reed-Solomon
  encoding and the BCH format codes, with precomputed tables.
- `src/wikiv.rs`: a second, table-driven take on the same field arithmetic.
- `src/qr_standard/`: the rules of the QR standard: tables, bit streams,
  the search for the cheapest mode segmentation, block interleaving, the
  placement of data modules, masks and their penalties, and `make_qr`.
- `src/image.rs`, `src/image_type/`: monochrome bitmaps in two memory
  layouts, XBM output and an XBM reader.
- `src/zigzag.rs`: bytes as bit arrays, and numbered placement curves turned
  into coordinate lists or into text; `src/bitmask.rs`: a masking pattern
  applied to a grid of modules.
- `src/demo/`: the state kept by an interactive front end.
- `app/main.rs`: the command line program (arguments, standard input, file
  output).

