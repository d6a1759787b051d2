# s3_client

A desktop client for S3-compatible object stores, built around a library whose
logic is proved with Verus.

- `src/` is the verified library: the stored connections and their ordering
  (`config`), the sealing of secret keys with AES-256-GCM and Base64 (`secret`),
  object keys and download paths (`keys`, `local_path`), the decisions of listing,
  copying, deleting and probing objects (`oss`), chunked uploads and downloads
  (`chunking`), transfer bookkeeping (`transfer`), settings (`settings`) and update
  checks (`update`). Calls into `aes-gcm`, `base64`, `semver`, `mime_guess` and
  `aws-sdk-s3` go through small trusted wrappers whose contracts are stated beside
  them.
- `app/` is the desktop shell: the Tauri commands, the SQLite database, the key
  file, the network requests and the transfer queues. It hands plain values to the
  library and acts on what comes back.
- `tests/` exercises the library on concrete values.
