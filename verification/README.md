# samply-report

Call trees of sampled profiles, and a `perf report`-style viewer for them. The
profiles are processed Firefox Profiler files, as samply writes them: plain JSON
or JSON compressed with gzip.

`src/` is a library verified with Verus; what it takes on trust, a few functions of
the standard library and of two crates, is marked and described there. `app/` is the
program around it: arguments, files, the terminal, the reading of debug
information, and percentages.

```text
samply-report profile.json                          interactive call tree
samply-report profile.json --meta                   metadata only
samply-report profile.json --tree --expand-pct 1    text call tree
samply-report profile.json --threshold 0.1          hide what is below 0.1%
samply-report profile.json -t 0 --no-symbols        pick a thread, skip symbols
```

| Key | Action |
|-----|--------|
| `j` / `k` / arrows | Move |
| `e` | Expand the current node by one level |
| `c` | Collapse the current node, or its parent if it is collapsed |
| `Shift+F` | Re-root the view on the current node |
| `u` | Show the full tree again |
| `h` / `l` / ← / → | Scroll long symbol names |
| `/` | Filter by symbol substring |
| `Esc` | Clear focus and filter, or quit if neither is set |
| `q` | Quit |

## Modules

- `profile`, `metadata`, `document`: what a profile holds, how it is shown, and
  how it is unpacked.
- `symbolicate`, `resolve`: names for addresses, and the course of looking them
  up.
- `tree`, `forest`, `aggregate`, `samples`: from samples to a call tree that
  counts them. `chain` and `tree_laws` hold what is true of every such tree.
- `cutoff`, `paths`, `rows`, `listing`: which nodes of a tree show, and in which
  order.
- `ui`, `screen`, `laws`, `keys`: the viewer's state, its texts, and what its
  keys promise.
- `report`: the call tree as text.
- `text`, `order`, `error`: numerals and strings, sorting, errors in words.
