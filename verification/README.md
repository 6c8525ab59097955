# mudflat_knowledge

The verified core of a reading-notes desktop app: highlights and thoughts
synced from a reading service become cards, reviewed with spaced
repetition, searched, and summarised into a per-book clue map with the help
of a language model.

## Layout

- `src/` — the library, verified with Verus. Every public function states
  its result in `ensures`; the laws that relate several functions are
  public proof functions (`lemma_*`).
  - `text` — string helpers over `Seq<char>` (trimming, searching, decimal
    text) used by every other module.
  - `order` — stable sorting by integer keys and lexicographic order.
  - `db` — schema planning and migrations, card filters and search
    phrasing, ordering and reconciliation of stored cards.
  - `sync` — which books are pulled, how highlights and thoughts become
    card rows, and the run's summary.
  - `gateway` — the reading service's reply types and how its statuses,
    codes and pages are judged.
  - `keystore`, `llm`, `settings` — saved keys and model settings: what is
    written, how a read is judged, and what a save does.
  - `ai` — content hashes, question and scaffold prompts and replies, study
    aid caching decisions, search-hit fusion and embedding batches.
  - `mindmap` — the clue map: prompts, plans, chapter-by-chapter runs and
    the cleaning of a model's tree.
  - `update` — release versions, installer choice and download checks.
  - `srs` — review grades.
- `tests/` — tests of the library on concrete values.
- `app/` — the application around the library: SQLite, files, HTTP,
  floating-point ranking and scheduling, and the commands the front end
  calls. It hands the library plain values and is not verified.
