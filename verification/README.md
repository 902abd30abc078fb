# vrun

A test runner for competitive programming: it receives test cases from the
Competitive Companion browser extension, compiles a C++ solution unless its
binary was last built from that very source as it is now, runs it on the
test cases and reports each as AC or WA, and stress-tests a solution against
a brute-force one with a generator.

The logic is a library verified with Verus; the command-line program around
it does the file, process and network work.

- `src/text.rs` – characters of strings, whitespace, trimming, lines, and the
  normal form in which outputs are compared.
- `src/number.rs` – decimal and hexadecimal numerals, parsed and formatted.
- `src/name.rs` – problem identifiers made from titles and file names.
- `src/path.rs` – paths as text: joining, `~` expansion, the base directory.
- `src/cache.rs` – the FNV-1a hash of a source, the cache file (one
  `<16 hex digits> <path>` line per binary, with the hash of the source it
  was last built from), and the decision whether to compile: a binary is
  reused only when it was last built from contents equal to the source's
  current ones.
- `src/discovery.rs` – numbered test files, their order, CPH problem files.
- `src/report.rs` – judging a test, printed blocks, the line diff, the tally
  and the stress-test loop.
- `src/listen.rs` – the body of a browser request and the files its tests are
  saved in.
- `app/main.rs` – the command-line program.
- `tests/` – tests of the library on concrete values.
