# photo-selector-core

The core of a photo-culling tool: open a folder, page through its images, and
mark each one as selected or rejected, which moves the file into a `selected/`
or `rejected/` folder next to it. Moves can be undone.

The library in `src/` is written in Verus; every function carries a contract
that Verus proves. It does no file-system work itself: operations that need the
disk take what the caller read (a directory listing, whether a file still
exists) as plain values, and operations that change the disk are split in two —
the first half returns a request (move this file there), the second half takes
the outcome.

- `app_state` — the session state machine: loading, paging, sorting, selecting,
  rejecting, undo, stale-file cleanup; every operation reports a list of events.
- `image_index` — the list of images and its stable, verified sort.
- `navigation` — the page cursor.
- `image_cache` — per-image metadata by path.
- `undo` — the bounded undo history.
- `stats` — session counters and folder counting.
- `events` — the events and their mathematical views.
- `forwarding` — which load-progress events a user interface needs.
- `command` — the terminal front end's command syntax.
- `text` — character-level helpers (ordering, extensions) and
  comparing paths component by component.

`app/` holds the file-system side (reading folders, moving files), the terminal
front end, and the commands a desktop front end calls. `tests/` exercises the
library, using an in-memory folder tree where the disk is involved.
