# jelly_dedup

Finds duplicate episodes and movies in a Jellyfin library and prints the
`rm` commands that would remove the lower-quality copies. Nothing is deleted.

- `src/` is the library, verified with Verus: grouping of duplicates,
  choice of the version to keep (resolution first, then bitrate scaled by
  codec efficiency), the files to remove, the totals, and the shell-escaped
  removal commands. Each public function states its result in its contract;
  the properties that span functions are proof functions beside them.
- `app/` is the command-line program: argument handling, the HTTP queries to
  the server, JSON decoding and printing.
- `tests/` runs the library on concrete values.
