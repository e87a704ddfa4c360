# stella-bsp-reader

A reader for NASA/JPL DAF/SPK ephemeris kernels (`.bsp` files, SPK segment
types 2 and 3), such as `de440s.bsp`, `de440.bsp` and `de441.bsp`. Given a
target body, a center body (NAIF IDs) and a TDB Julian date it returns the
ICRS position (km) and velocity (km/day) of the target from the center.

## Layout

- `src/` — the verified library (Verus):
  - `bytes.rs`: 32-bit integers and IEEE-754 doubles read from raw bytes in
    either byte order; IEEE-754 comparison and `round() as usize` on the bit
    patterns of doubles.
  - `text.rs`: UTF-8 decoding, Unicode white-space trimming and comparison of
    the text fields of the file record.
  - `daf.rs`: the DAF file record and the chain of summary records.
  - `spk.rs`: segments, the supported types, segment lookup, and the plans by
    which a position is composed from segments (directly, or through the
    chain of centers to the solar-system barycentre).
  - `record.rs`: where a segment's metadata and records lie, and their
    decoding.
  - `bsp.rs`: a BSP file held in memory.
  - `error.rs`, `naif.rs`: errors and NAIF body codes.
  - `laws.rs`: properties of segment selection and of the position plans,
    and that a file and its big-endian twin read the same.
- `tests/` — tests of the library on synthetic kernels.
- `app/` — the floating-point front end: Chebyshev evaluation, the position
  and velocity queries on files held in memory or read by seeking,
  coordinate transforms (precession, nutation, aberration, light deflection)
  and the Python binding (`bsp_rs.BspReader`, PyO3).

Times are handed to the library as the bit pattern of the `f64` number of
seconds past J2000; all floating-point arithmetic stays in `app/`.
