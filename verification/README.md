# rss_alert

Watches RSS 2.0 and Atom-like feeds and announces new items on the console
(and, on Windows, as toast notifications).

- `src/` is the verified library:
  - `feeds.rs` reads the feed list: one feed per line, `#` comments, an
    options header `[key=value ...]`, and `{a|b}` groups expanded into one feed
    per combination;
  - `combine.rs` enumerates combinations (the cartesian product in
    lexicographic order);
  - `config.rs` holds the settings read from the command line, feeds, their
    option values and colour wrapping;
  - `item.rs` reads items and entries out of a feed document;
  - `notify.rs` decides which fetched items are new and writes the lines that
    announce them;
  - `timestamp.rs` keeps the cut-off time between runs;
  - `number.rs` and `text.rs` read and write numbers and work on characters.
- `app/` is the program: command line, files, HTTP, the update loop and the
  notifications.
- `tests/` exercises the library.
