# i18n key translator

A Zed extension that looks up i18n translation keys from the Assistant panel
through slash commands (`/i18n <key> [lang]`, `/i18n-keys [lang]`,
`/i18n-sync [lang]`).

- `src/` is the verified library (Verus): configuration, the search for a
  language's translation file (language-server cache first, then the path
  templates with `{lang}` filled in), JSON parsing (through `serde_json`,
  whose result the contracts name `parsed_json`), key resolution in flat
  and nested JSON files with an optional key prefix, flattening of
  namespaces into `key: value` lines, sorted key listings, and the text of
  each command's answer. File reads reach the library as a closure; the
  contracts state what holds whatever the reads return. `/i18n-sync` is
  split in two: the library says which languages to download (or that none
  is to be asked for), and builds the report from what became of the
  request.
- `app/` is the extension itself: it registers with Zed, reads project files
  through the worktree and writes the download request for the language
  server.
- `tests/` exercises the library on concrete documents.
