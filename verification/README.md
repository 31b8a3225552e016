# Chartographer

Statistics of Minecraft mods published on Modrinth and CurseForge, gathered
on one dashboard: downloads day by day and mod by mod, the share of each
platform, countries, game versions and loaders, revenue and payouts.

## Layout

- `src/` — the library, verified with Verus. Every decision of the
  dashboard lives here with its contract: which window is read, how the
  CurseForge curve is rebuilt from daily snapshots, how projects of the two
  platforms are paired, how the headline figures, revenue and loader map are
  made, what the answers of the platforms mean, what a refused publication
  says, where tokens go. Calls into chrono and rust_decimal stand behind
  small trusted wrappers whose contracts name what they return.
- `app/` — the application around it: the SQLite base, the files of the
  data folder, the system keyring, the HTTP calls, the local listener of the
  authorisation flow, and the commands of the interface. It reads and
  writes; the library decides.
- `tests/` — tests of the library on concrete values.

## Modules of the library

| module | what it holds |
|---|---|
| `dates` | calendar days, their shifts and the dense axis of a window |
| `queries` | the platform filter, the window, the timeline, the table of mods, the payout schedule |
| `figures` | the headline figures |
| `revenue` | revenue day by day and project by project |
| `rankings` | the rank of a day in its window, and revenue day by day, each platform on its own |
| `loaders` | downloads by game version and loader |
| `detail` | the detail of one mod |
| `money` | amounts of money as text, added and compared |
| `store` | the rows of the base: snapshots and their gaps, followers |
| `sync` | the synchronisation cycle and what a refresh writes |
| `matching` | pairing the projects of the two platforms |
| `providers` | the answers of Modrinth and CurseForge, retries |
| `publish`, `publish_api` | publishing a version on both platforms |
| `oauth` | the authorisation flow and URL encoding |
| `config`, `secrets` | session, settings and the tokens they keep out of files |
| `scrape`, `collect`, `gestures`, `commands` | reading the CurseForge dashboard and the commands' decisions |
| `json`, `text`, `sorting` | the documents, texts and orders the rest works on |
