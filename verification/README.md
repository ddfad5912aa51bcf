# bang

Search from the terminal with engine-native `!bangs`, as a verified library
and a thin command around it.

- `src/text.rs`: character-sequence primitives (`find`, `split`,
  `split_whitespace`, `trim`, `replace`, case-insensitive comparison), each
  proved against a spec function on `Seq<char>`.
- `src/search.rs`: bang detection, DuckDuckGo page parsing, SearXNG result
  selection, and the search exchange as a step function: `run` names the
  first request, `advance` turns a reply into the next request or the outcome.
- `src/update.rs`: numeric version comparison, release planning, SHA-256
  checksum verification and the once-a-day update check.
- `src/config.rs`: the configuration that the file and the environment
  variables amount to.
- `app/main.rs`: argument parsing, files, environment, network and terminal;
  it performs what the library decides.
