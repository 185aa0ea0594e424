# makeppkg

A `makepkg` wrapper that adds the patches of a per-package patch directory to
a PKGBUILD before building: a patch for the PKGBUILD itself is applied with
`patch`, the others are copied next to the PKGBUILD, added to its `source`
array with their checksums, and applied at the start of `prepare()`.

Layout:

- `src/` is the verified library (Verus):
  - `text.rs`: characters, lines (`str::lines`), joining, whitespace, decimal
    and hexadecimal forms;
  - `srcinfo.rs`: the package name and checksum algorithm of a `.SRCINFO`,
    and the values it assigns to a key (through the `regex` crate);
  - `digests.rs`: MD5 and SHA digests (RustCrypto crates) and checksums;
  - `patches.rs`: which files are patches, how a patch is named, which one
    patches the PKGBUILD;
  - `pkgbuild.rs`: replacing an array of a PKGBUILD, adding `patch` commands
    to `prepare()`, and the whole update;
  - `args.rs`: the command line;
  - `patch.rs`: the patching run as a state machine whose actions the
    program performs.
- `app/main.rs` is the program: command line, files, `makepkg` and `patch`
  processes, driving the state machine of `src/patch.rs`.
- `tests/` holds the tests of the library.
