# contributor-graphs

Contributor timelines for git and GitHub repositories: who committed, when,
for which affiliation, drawn as a static SVG and as a self-contained
interactive HTML page.

The library under `src/` is written in Verus. Its functions carry
`requires`/`ensures` contracts over mathematical models (`Seq`, `Map`, `int`)
and the cross-function laws stand as proof functions:

- `model`, `model/aggregate` — commits, contributors, month buckets,
  per-affiliation sums.
- `identity` — clustering commit identities, login merges, identity overrides,
  contributor rows; laws on what every merge keeps.
- `repo` — source classification, GitHub URL and slug parsing, `git log` and
  tag parsing.
- `cache` — the on-disk caches as maps, with read-after-write and expiry laws.
- `github` — noreply addresses, company names, the decisions of enrichment,
  profile and avatar steps, repository listing.
- `run` — the whole analysis as a state machine: each step says which GitHub
  answers it needs, and `resume` takes them.
- `theme`, `svg`, `axis`, `html`, `tsv` — colours, escaping, the time axis's
  ticks, page filling, TSV input.

Calls into `chrono` and `base64`, and a few character functions of `std`,
stand behind small trusted wrappers whose contracts are stated in their doc
comments.

`app/` is the command-line program: argument parsing, git and HTTP, files,
progress bars and the chart's floating-point layout. It calls the library and
performs the I/O each step of a run asks for.
