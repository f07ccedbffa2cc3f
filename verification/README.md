# avion_messager

The logic of a desktop overlay that flies a pixel-art plane across the screen,
towing a banner that announces the next calendar meeting, verified with Verus.

- `src/` is the verified library:
  - `text`: character-level helpers (split, search, decimal digits);
  - `time`: instants as chrono holds them, and the chrono calls that write
    and read RFC 3339 text;
  - `auth`: percent encoding and decoding, the OAuth authorization URL, the
    loopback redirect that carries the code, token refresh decisions;
  - `calendar`: the meeting in progress, the upcoming meetings (stable sort);
  - `scheduler`: the due meeting, the gates, the set of announced meetings.
    That set is a `FiredSet` (a vector of keys with no key twice) rather than
    a `HashSet<String>`: vstd's `HashSet` specification gives no guarantee for
    `String` keys, so nothing could be proved of membership through it. The
    trigger instant of a meeting keeps the start's UTC offset; the offset of
    the local zone at that instant is a matter of the zone rules, which only
    app/ can consult;
  - `google`: the `timeMin` request parameter;
  - `update`: version parsing and comparison, the answer to "check for updates";
  - `tray`: the tray menu;
  - `sprite`: rectangle painting of the rig and of the icon;
  - `anim`, `settings`, `client_config`: flight timing, settings, credentials.
- `app/` is the program around it: windows and GDI painting, text rendering
  and scaling in floating point, the settings and credentials files, the
  credential store, HTTP requests, notifications and the `Run` registry key.
- `tests/` runs the library on concrete values.
