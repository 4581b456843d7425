# uvr

The core of `uvr`, a uv/Cargo-style package manager for R, as a Verus
library with proved contracts, and a thin command-line program around it.

- `src/version.rs`: versions (`1.2.3`, `3.4-1`), zero-padded comparison,
  constraints such as `>= 1.2.0`.
- `src/metadata.rs`: the DCF format of `PACKAGES` files, dependency fields,
  and the package index.
- `src/resolver.rs`: greedy resolution of a root package and its
  dependencies, with the errors `NotFound`, `Unsatisfiable` and `Conflict`.
- `src/resolution.rs`, `src/lockfile.rs`: the chosen versions, sorted by
  name, and the lockfile text they are written as and read back from.
- `src/commands.rs`: `PACKAGES` text and roots in, lockfile text out.
- `src/fetch.rs`, `src/install.rs`, `src/cache.rs`, `src/rversion.rs`:
  repository URLs, cache file names, and the version in `R --version` output.
- `src/text.rs`, `src/assoc.rs`: characters, lines, trimming, decimal
  numbers, and association lists, shared by the parsers.
- `app/`: the `uvr lock` and `uvr install` commands (files, HTTP with
  `ureq`, `R CMD INSTALL`).

Laws proved in `src/` include: the version order is a total order in which
trailing zeros do not matter; a version written and read back is unchanged;
a lockfile written and read back gives the same resolution; the index lists
each package's versions in file order; a successful resolution is
consistent (every dependency of every chosen version is met, no built-in
package is listed) and every error names a package for which it holds.
