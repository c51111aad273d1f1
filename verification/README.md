# sapvault

The verified core of SapVault, a local password manager for SAP and everyday
accounts: the vault model and its encryption envelope, the password rules and
generator, the parsers of content files (JSON with comments, .env, TOML, INI,
properties, HCL, YAML, XML, plain text) and the in-place rewrite that keeps
such a file's layout, the SAP GUI landscape readers and the `sapshcut`
command line, the scan for configuration files, and the application state
(locking, auto-lock, settings).

Layout:

- `src/` — the library, written in Verus; every function carries its
  contract and is proved against it. Calls into outside crates (aes-gcm,
  argon2, quick-xml, serde_json, chrono, dirs, zeroize) sit behind small
  trusted wrappers whose contracts state what those crates document.
- `tests/` — ordinary Rust tests run against the compiled library.
- `app/` — the desktop side: files on disk, the clipboard, DPAPI, starting SAP
  GUI, walking directories and the background guard that locks the vault.
