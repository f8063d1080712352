# webarchive-downloader-rust

Downloads a site as the Wayback Machine keeps it, rewrites its links so that it can be browsed
from disk, and repairs what is missing. The rules by which this is done are a library that
[Verus](https://github.com/verus-lang/verus) proves correct; reading, writing and networking
stand around it.

## Layout

- `src/`: the verified library.
  - `cdx`, `cdx_requests`: the index of captures: its lines, the choice of a capture per URL, and
    what is done about requests that fail.
  - `pathmap`, `path`: where a URL is kept on disk, and relative links between files.
  - `rewrite`, `navigation`, `css_refs`, `download_refs`: references in pages and style sheets.
  - `link_validation`, `alias_repair`, `assets`: what a saved site lacks, and what can stand in.
  - `captures`, `soft_redirect`, `noise`: which captures are worth keeping.
  - `snapshots`, `retry`, `wayback_client`: downloads, waiting, and routes to the archive.
  - `downloader`, `recovery`, `output_summary`, `cli`: the order of the work, its journal and its
    reports.
  - `text`, `scan`, `order`, `maps`, `numbers`, `urls`, `html`: what the others are built from.
- `tests/`: tests of the library.
- `app/`: the command line program.

Functions whose names start with `law_` state what holds of the library as a whole.
