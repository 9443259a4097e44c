# rust_rim

The core of a RimWorld mod manager, verified with Verus: the mod catalogue
and builds, About.xml and ModsConfig.xml, load-order sorting, Player.log
analysis, the self-test run and the fault hunt that narrows a build down,
tags, launch planning, SteamCMD and Workshop data, and mod descriptions
rendered as Markdown.

- `src/` — the library; every function carries its contract and is proved.
  Calls into std and outside crates that cannot be proved sit behind small
  trusted wrappers whose doc comments say what is assumed of them.
- `tests/` — tests of the library, run against the real outside crates.
- `app/` — the program around it: files, processes, threads, HTTP and the
  command line.
