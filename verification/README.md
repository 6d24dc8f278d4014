# llm_wiki

The logic of a desktop wiki for research papers, verified with Verus.
Papers are markdown files with YAML frontmatter under `content/papers/`;
they are classified by Gemini, filed into category folders, and kept in
step with the user's Zotero library.

## Layout

- `src/` — the verified library.
  - `text.rs`, `sort.rs`, `frontmatter.rs`, `paths.rs`, `clock.rs`: text
    handling (trimming, search, lines, words, joining), stable sorting by
    key, the frontmatter scanners, path joining and dates.
  - `content.rs`: what the wiki shows of the content folder — category
    cards, the category tree, paper lists, frontmatter blocks.
  - `organizer.rs`, `transaction.rs`: the organise pipeline as a state
    machine (state and event in, progress and next command out): the
    duplicate-DOI check, staging, classification, writing the tags and
    summary into the frontmatter, filing, the Zotero update or its queueing,
    and the log entry of a completed run; and the rollback that returns a
    paper to `unclassified/` on failure, carried out one action at a time.
  - `pending_sync.rs`: the queue of Zotero updates deferred while Zotero
    is offline, and its replay.
  - `zotero.rs`, `gemini.rs`, `abstract_lookup.rs`, `summarize.rs`,
    `pdf_import.rs`, `keychain.rs`, `state.rs`: what is sent to and read
    from Zotero, Gemini and the metadata services, summaries written into
    frontmatter, PDF import, the keychain rules and the Zotero watcher's
    decisions.
- `tests/` — tests of the library on concrete values.
- `app/` — the I/O around the library: files, HTTP, the OS keychain, JSON
  (serde copies of the library's types), and the loops that carry out the
  organiser's commands and the watcher's ticks.

Every public function of `src/` has a contract; the laws that relate
several calls (for example that writing a summary and reading it back
gives the escaped summary, that injecting a Zotero key twice is the same
as once, or that a server-sent event stream read in pieces yields the
same events as read whole) are public proof functions named `lemma_*`.
