# envvault

Environment variables and directories in password-encrypted vaults, handed to
the one program that needs them.

- `src/` is the library. Everything in it is verified with Verus: each function
  carries a contract over a mathematical model, and the `law_*` proof functions
  state what holds across functions.
- `app/` is the `envvault` command: arguments, terminal, files, processes,
  namespaces and mounts around the library.
- `tests/` runs the library.
- `extras/shim/` is the preloaded shim, in C, for `--harden`.

| Module | What it holds |
|--------|---------------|
| `vault` | entries, and the dotenv text they are read from and written to |
| `crypto`, `primitives` | vault files: key derivation, encryption, armor, versions |
| `journal` | the steps of a durable save |
| `dirvault` | the container of a directory or file vault |
| `integrity` | baselines of files a user relies on: text form, edits, verification |
| `tree` | what a walk over a directory finds: regular files, mount points |
| `store` | vault names, file names and listings |
| `commands` | the rules of the commands |
| `namespace`, `sandbox` | entering a namespace, masking and freezing paths |
| `run`, `shim`, `dirrun` | hardened runs, the shim's protocol, directory runs and autosaving |
| `fingerprint` | what counts as a change to be autosaved |
| `tui` | the interactive editor's state and what it shows |
| `password` | accepting passwords |
| `path`, `order`, `text`, `secret` | paths, sorting, text and buffers that are wiped |

What the library takes from other crates without proof is stated in the doc
comments of `primitives` (Argon2id, ChaCha20-Poly1305, Base64, BLAKE3 and the
system's random source), `secret` (zeroing), `text` and `path` (parts of the
standard library).
