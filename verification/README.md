# nomadnet

NomadNet node hosting and browsing over the Reticulum Network Stack, with
its logic specified and proved in Verus.

## Layout

- `src/` — the verified library.
  - `micron.rs`: the Micron markup builder and escaping.
  - `node.rs`: page pagination and chunking, the page and file caches, the
    not-found and paginated pages, and `NomadNode` (identity checks, request
    answers, test page).
  - `directory.rs`: the directory of announced nodes, with its eviction
    order.
  - `browser.rs`: URL form fields, file request data, and the link and
    pending-request state of the browser.
  - `config.rs`: reading a Reticulum configuration file.
  - `serve.rs`, `listing.rs`: the page logic of the `nomadnet-serve`
    program (index page, `$SELF`, cache filling, identity files, interface
    plans, the listing of the pages directory).
  - `rns.rs`: the calls into `rns-core`, `rns-crypto`, `hex` and std that
    the logic makes, with the contracts they are trusted to meet.
  - `text.rs`, `assoc.rs`: text helpers and a small association list.
  - `laws.rs`: properties that relate several operations.
- `tests/` — tests run against the compiled library.
- `app/` — the `nomadnet-serve` program and the network side: registering
  the node on an `RnsNode`, announcing, the browser's event channel and
  network calls, file system access and the command line.
