# cres

Support library for cell resampling of Monte Carlo event samples, written
in Verus: every function of `src/` carries a contract that Verus proves.

## Layout

- `src/` — the verified library
  - `text`, `number`: the byte grammar of record entries (blanks, fields,
    integers, floating-point texts, Unicode white space) and integer parsing
  - `hepmc2`, `lhef`, `io`: HepMC2 and Les Houches event records — parsing
    into spans, updating weights (with read-back laws), splitting a stream
    into records (with a law that nothing is lost); `hepmc2::weights` for
    records with named weights
  - `bisect`, `make_partition`: partitioning a sample by repeated bisection
    (regions tile the sample, their number is a power of two, and each
    depth's steps are reported as often as the tree has nodes there)
  - `cell_collector`: the cells of interest kept while resampling (first,
    random sample, largest by radius, members and weight), with laws that
    the ranked records keep the largest cells, after `collect` and after
    `combine`
  - `cres`, `split`, `counting`: particle multiplicities of events and their
    summary (every particle and every event counted once)
  - `cluster`: particle classes and where the clustering puts each particle
  - `classify`, `hepmc`, `auto_decompress`, `compression`, `formats`,
    `ntuple`: file footers, region file names, reading several files,
    format detection
  - `opt*`: command-line option values
- `tests/` — tests run against the compiled library
- `app/` — ordinary Rust around the library: file and compressed I/O,
  floating-point conversion of momenta and weights, jet clustering,
  logging, command-line parsing

Calls into other crates (`regex`, `particle_id`, `rand`) and into parts of
`std` without a Verus specification go through small trusted wrappers;
each one's doc comment says what its contract claims.
