# instagrep

Fast grep-style search using a persisted trigram inverted index, with the search
core proved correct in Verus.

## Usage

```bash
instagrep --build .
instagrep "pattern" .
instagrep -i "todo|fixme" src/
instagrep --update .
instagrep --stats .
instagrep --daemon .
instagrep --no-index "pattern" .
```

On first indexed search, `instagrep` builds `.instantgrep/index.bin`
automatically if no index exists.

## How it works

1. Files under the root are listed, and those not worth indexing are left out
   (`scanner`).
2. Overlapping 3-byte trigrams go into an inverted index (`trigram`, `index`),
   which is stored on disk (`store`) and can be brought up to date in place; files
   are known by the components of their paths (`paths`).
3. A regex is parsed (`expr`) and analyzed (`analysis`, `strings`) into the
   trigrams that a matching file must contain (`query`). Where case is ignored,
   the letters of the parsed regex are made lower-case first (`fold`).
4. The index picks candidate files (`search`).
5. Candidates are verified with the `regex` engine (`pattern`, `matcher`) and
   printed as `path:line:content`.

`daemon` is the protocol of a server that keeps the index in memory, `cli` the
command line, and `stats` counts what an index holds. `lines`, `linemap` and
`cache` index the lines of a single large file, and `loggen` writes log lines to
try that on.

## What is proved

- No match is pruned, whatever the regex and whether or not case is ignored: the
  query that is looked up is satisfied by every text in which the regex matches
  (`analysis::query_is_sound`, `search::search_query_is_sound`), so an indexed
  search prints exactly what a search of all indexed files prints
  (`search::plan_search`, `search::indexed_search_prints_the_same`). The search of
  a single file finds every line that matches (`lines::line_search_is_complete`).
- An index does not depend on how the work was shared
  (`index::build_does_not_depend_on_chunks`), an update gives the index of the
  files as they are now (`index::update_is_exact`), and an index that was stored
  and read again answers as before where the paths are UTF-8 (`store::save`,
  `search::stored_index_answers_alike`, `search::second_search_prints_the_same`).
- Files are listed in one strictly ascending order, in whatever order a walk
  reports them (`scanner::found_files_ascend`,
  `scanner::listing_order_does_not_show`).
- A client of the daemon gets the exit code and, byte for byte, the output of the
  one-shot run, from the request to the response
  (`daemon::daemon_output_is_identical`).

What is taken on trust are the contracts of the calls into other crates: they
stand in `bitmap`, `fx`, `expr`, `pattern`, `text`, `linemap` and `cache`, each
with a comment that says what is claimed.

## Layout

- `src/` is the verified library.
- `tests/` are its tests.
- `app/` is the program around it: arguments, files, sockets and threads.
