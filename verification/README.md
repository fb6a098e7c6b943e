# thermokarst

Tools for studying thermokarst (ground subsidence from thawing ice-rich
permafrost) in Yakutia, built around a verified core.

`src/` is the verified library:

- `bytes`, `traits`, `encoder`, `codec`: the binary state protocol — entity
  records, the header-first encoder and a versioned codec for any type that
  implements `BinarySerialize`/`BinaryDeserialize`. Decoding gives back what was
  encoded, frames of another version are rejected, and every error is exact.
- `text`: decimal rendering used by the error messages.
- `validation`: k-fold splitting for cross-validation.
- `regions`, `detection`, `satellite`: flood fill and connected regions of a
  binary mask, the dark-area components of a grayscale image, and the pixel
  centre and bounding box of a region. The regions are stated exactly: found in
  row-major scan order, each listing its cells in the depth-first order of the
  fill.

`app/` is the command-line program and everything that works in floating point
(physical models, geology, metrics, circle radii, satellite band arithmetic),
file and image I/O.
