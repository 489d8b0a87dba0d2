# chrome_extension_cleaner

Finds the old version folders Chrome leaves under
`<Profile>/Extensions/<id>/<version>_<n>` after extension updates, and removes
only those that are provably safe to remove.

`src/` is the verified library (Verus). It takes what was read from disk as
plain values and decides everything:

- `version`: strict Chrome version parsing and ordering, `<version>_<n>` names.
- `json`, `prefs`: Chrome's extension records (`Secure Preferences` /
  `Preferences`), failing closed on anything missing.
- `locale`, `icon`: display names through `_locales` fallback chains; icons.
- `scan`, `inventory`: classification of every version folder and the scan
  payload; the snapshot of deletable candidates.
- `state`, `clean`: plans (single use, tied to one scan) and the delete-time
  re-verification.
- `env`, `text`, `order`: liveness, small string and ordering helpers.

Public `law_*` proof functions state the properties the whole library keeps
(only versions strictly older than the active one are ever offered or removed, the active one always stays,
plans cannot be replayed or outlive a rescan, ...).

`app/` is the unverified shell: file-system and process reads, the state lock,
and the serialisable copies of the answers. `tests/` exercises the library on
in-memory fixtures.
