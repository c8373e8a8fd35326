# simple_notifier

Watches sources for updates and mails a notification for each new event:

- **ScriptHookV**: a new version on the download page;
- **GitHub**: new commits on watched branches (leaving out those by the
  logins listed under `watch.ignore_authors`), new pull requests, new releases;
- **Weather**: forecast days with a cold night, a hot day or extreme weather.

## Layout

- `src/` is the verified library (Verus). It holds every decision the
  program makes: reading and writing the state file's lines, transactions
  on the state, the GitHub check as a state machine that asks for API
  requests and is handed their replies, finding the version on the
  ScriptHookV page, choosing the forecast days to alert about, parsing the
  mail addresses, and the check loop's sleep. Each public
  function's contract states its result over spec functions; the laws
  (`law_*` proof functions) state what holds across calls, such as that an
  event is reported once and that saved state reads back unchanged.
- `app/` is the program around it: configuration file and environment,
  HTTP requests and JSON decoding, SMTP, the state file on disk, the timer,
  and the floating-point weather comparisons.
- `tests/` runs the library on concrete values.
