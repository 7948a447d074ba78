# npmv

A service that lists the releases of an npm package in version order and
shows the diff between two versions of a package, reading what it needs from
the npm registry.

- `src/` is the library, verified with Verus: which versions a diff request
  names and whether it is accepted, which files a package tarball gives
  (stated over the list of entries that `tar` reads from its bytes, a name
  for what `tar` and `flate2` compute: which are kept, under which path, and
  which error stops the reading), which bundled `node_modules` code is left out of a diff, the diff of each
  file, the page that shows it, and the release list with its links.
  `src/trusted.rs` holds the calls into std, `similar`, `serde_json`, `semver`,
  `tar` and `flate2`, whose contracts are believed, not proved. The contracts
  on `std::path` are those of Unix targets, which the library is built for.
- `app/` is the web service around it (Rocket and reqwest): it reads requests,
  asks the registry, and answers with what the library decided.
- `tests/` runs the library on concrete values.
