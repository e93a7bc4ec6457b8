# discord-desktop-fixer

Clears the caches of the Discord desktop client when it gets stuck on a grey
screen, a blank window or an endless "Checking for updates", without logging
the user out.

The library under `src/` is verified with Verus; `app/` is the program around
it (the window, the terminal, the disk, the processes).

- `discord` — flavors, installs, the cache targets of each scope and the
  never-delete list, with the laws that no scheduled name is on that list.
- `clean` — the deletion engine, a state machine whose every removal has
  passed four gates (deny list, symlink refusal, containment, root/home).
- `kill` — the escalating stop of Discord's processes.
- `job` — one fix: stop, clean, reopen, with its progress lines and warnings.
- `launch`, `platform`, `cli`, `gui` — starting Discord again, where installs
  are on each platform, the command line, and the window's state.
- `units`, `path`, `text` — sizes as people read them, Unix paths, strings.
