# tig

A git client core without I/O, verified with Verus. Input comes in as byte slices and output goes
out as byte vectors; files, sockets and pages belong to the programs around it.

- `src/` is the library: ids and SHA-1, zlib, objects, deltas, packs and bundles, the walk through
  a history, the state machines of clone and push, checkout, and what the command line, the browser
  and the firmware front ends say and decide.
- `tests/` runs the compiled library, among others on a repository that git wrote.
- `app/` is the command line client, with the C functions for a page and for firmware.

Every function of `src/` states what it returns, and each error with the inputs on which it comes.
The laws that span functions are public proof functions: what is compressed, written or framed is
read back as it was, a pack lists its ids in order and gives the object whose id was asked for
whatever the size of its cache, a walk lists each commit once and after its children, and a clone or
a push goes through its requests in order and keeps its state where a response is refused.

Three functions of the standard library are taken on trust: `String::push`,
`String::from_utf8_lossy` and `std::str::from_utf8`.
