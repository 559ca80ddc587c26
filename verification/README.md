# rusty_vault

A password vault for the command line: secrets are kept in named groups,
sealed under a password (bcrypt derives a key that encrypts a random vault
key; the vault key encrypts the CBOR-encoded contents with AES-256-CBC), and
a generator makes random secrets with a minimum number of characters of each
requested class.

- `src/` is the library, verified with Verus:
  - `vault.rs`: the vault and its groups (maps from key to value), sealing and
    unsealing, and the laws that relate them.
  - `cipher.rs`: AES-CBC (rust-crypto), bcrypt and the OS random number
    generator behind trusted wrappers, and whole-slice encryption on top.
  - `secret.rs`: secret generation, the `-s` option's parser and the default
    options.
  - `prompt.rs`: the `stty` arguments, trimming of a terminal reply, and the
    reading of a yes/no answer.
  - `paths.rs`: the name of the vault file's backup.
- `app/main.rs` is the program: argument parsing, terminal and file I/O.
- `tests/` holds the tests.
