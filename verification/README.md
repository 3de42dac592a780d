# dafs

A daemon that observes directories and keeps a timeline of what happened in them.
It scans a tree and then watches it, extracts metadata from documents and images,
has a language model describe and embed their text where one is configured, and
serves the timeline over HTTP.

The logic is a library that Verus verifies. What the operating system, the
network, the database and the model do stays outside it: the library takes what
they gave as plain values, decides, and gives plain values back.

## Layout

- `src/` is the library.
  - `store`, `load`, `migrations`: the tables, their journal, filling them from a
    database, and the steps of its schema.
  - `paths`, `fspath`: interned names, the tree of files, and paths as text.
  - `events`, `timeline`, `facets`, `ranked`: events, and the pages and facets
    that are read of them.
  - `scan`, `lookup`, `rescan`, `resume`, `touch`: walking a tree, what is found in
    the tables of it, why walking it again is quiet, why interrupting it loses
    nothing, and why the watch tells the same.
  - `observe`, `watch`, `record`, `watch_control`: the observer's steps, changes as
    they are reported, coalesced and recorded, and changing what is watched.
  - `queue`, `metadata`, `enrichment`, `embeddings`: the work that waits, and what
    came of it.
  - `sniff`, `filename`, `extract`, `archive`, `xml`, `office`, `image`, `pdf`:
    what a file is and what is in it.
  - `extract_worker`, `enrich`, `enrich_worker`, `frames`: working through the
    queues, and talking to the PDF program and to the model.
  - `api`, `search`, `logging`, `log_history`, `control`: what is answered over
    HTTP, the log, and a second invocation of the program.
  - `text`: texts as sequences of characters.
- `tests/` runs the library, with the outside crates linked.
- `app/` is the program around it: the command line, the database, threads,
  sockets and processes. Started under the name `dafs-pdf-worker` it is the
  program that reads one PDF.

## Reading the contracts

A `Store` is described by its `Tables`: sequences of components, files and events,
numbered from one, and what is known of each file. Each operation says what the
tables are after it as a function of what they were. What holds across operations
is stated by the public proof functions, whose names are sentences.

Outside functions stand behind small wrappers and specifications. Where what one
of them gives takes pages to say, it has a name, such as `document_events` for the
events of an XML document, and the contracts speak of the name.
