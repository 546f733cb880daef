# nyedarch

NYEDArch turns data into a capsule: a self-contained executable that carries
its payload, the rules for opening it, and the logic to enforce them. This
crate holds the decision logic of the client, the GitHub build orchestration
and the capsule runtime, each function with a contract proved by Verus.

## Layout

- `src/` — the verified library.
  - `orchestrator`, `endpoints`, `http`, `json`, `workflow`, `provenance`,
    `sealer`, `curl`, `base64`, `scan`: the remote build on GitHub Actions —
    every request it sends, the order in which it may send them, what it reads
    out of each reply, and how a returned artifact is accepted.
  - `artifact`, `srcpack`, `remote`: reading the artifact zip, the encrypted
    source archive (with its reading back), and the remote build's account,
    visibility and file decisions.
  - `config`, `cli`, `machines`, `keystore`, `logging`, `eula`, `generator`,
    `pipeline`, `installer`, `gui`, `hardware`, `harden`: the client — its
    command line, protection flags, machine registry, key storage decisions,
    diagnostics, licence gate, installer layout and hardware policy.
  - `destruction`, `selfseal`, `harden`, `probes`: what a capsule decides at
    run time, and what its hardening probes make of what they read.
  - `text`: shared text helpers (lines, case, decimal and hexadecimal).
- `tests/` — tests of the library, run against the real outside crates.
- `app/` — the command-line client around the library: argument parsing with
  clap, files, processes and curl; started under the installer's name, the
  same program is the installer. The sealing pipeline there performs each
  action that `pipeline::seal_step` decides, so the order of its stages, its
  cancellation checkpoints and the removal of a half-built project are the
  library's.

The sealing pipeline and the record authentication call the project's own
cryptography, fingerprint and package crates, which the program links; the
library never sees them.

The capsule's self-sealing key is derived with HKDF-SHA256 from the `hkdf`
and `sha2` crates (`selfseal`), in place of the project's own key-derivation
crate, which is not part of this repository; the salt and info strings are
those the capsule format names, but nothing here checks that the two
derivations agree byte for byte.

The graphical client is not part of this crate: its windows and dialogs are
left out, while the decisions behind them (`gui`: steps, typed times,
labels) are in the library and used by the command-line client.

The library's three traits for the caller to implement (`http::Transport`,
`http::SecretSealer`, `provenance::ArtifactVerifier`) each carry a spec
function that relates a call to its answer (`answers`, `may_seal`,
`accepts`). Each has a default body, the constant `true`, only so that an
implementation Verus does not check (a test double, or the program's own
transport) compiles without writing one. Code in the library that is generic
over these traits never sees that body. But for an implementation that leaves
it out, the contracts read as if every answer were possible; for a verifier,
that means `verify_artifact` reads as if every signature were accepted.

The orchestrator keeps a ghost record of every request it sends and of
every sealer call it makes. The two functions that talk to GitHub on their
own (`remote::resolve_owner` and `remote::set_repository_visibility`) return
such a record beside their outcome. Their contracts say through it which
requests were sent, in order: a visibility change that is refused because a
build is running sends nothing after the runs listing.

Sealed boxes draw their ephemeral key from a ChaCha20 generator
(`rand_chacha`) seeded with 32 bytes from the operating system (`getrandom`),
so a random source that fails means no box and an error, never an abort.

