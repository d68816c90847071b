# iptv_speed_tester

Verified core of an IPTV source aggregator: it cleans channel names, maps
them to standard names, sorts channels (CCTV by number, satellite channels in
a fixed order, the rest by name), groups measured streams into speed tiers
and renders the M3U8 and TXT playlists.

- `src/` is the library, written in Verus.  `text` holds the character-level
  string operations; `channel` the tiers, groups, logo URLs and M3U8
  entries; `naming` name cleaning and the standard-name map; `ordering` the
  channel sort key; `output` the playlist builder and its laws; `cli` the
  settings, subscription list and interval parsing; `stamp` the update time
  stamp written into the playlists.
- `app/` is the program around it: command line, files, HTTP server, and the
  floating-point speed thresholds.
- `tests/` runs the library on concrete inputs.
