# philo_core

The verified core of `philo`, a small command-line registry of philosophy
books. Each book is a package: a JSON metadata file under
`<registry>/packages/<author slug>/<title slug>-<year>.json`, listed in the
registry's `index.json`.

- `src/` is the library, with its contracts and their proofs:
  - `text`: trimming, searching and decimal formatting of text, over the
    standard library's Unicode answers (whitespace, alphanumeric, lowercase);
  - `naming`: slugs, package identifiers, author/title guessed from file names;
  - `paths`: joining paths, their components, paths relative to the registry;
  - `types`: candidates, packages, sources and index entries;
  - `index`: recording a package in the index, and the laws of that operation;
  - `ranking`: the stable sort of candidates by confidence;
  - `search`: fuzzy matching, local search, the online providers, and the
    decisions of the search flow;
  - `packages`: building package records from files and from candidates,
    and placing them in the registry;
  - `security`: MIME detection, SHA-256 checksums, quarantine checks and
    where quarantined and stored files go;
  - `config`: the default configuration and its file.
- `app/` is the `philo` command: argument parsing, files, git, the terminal.
- `tests/` exercises the library on concrete values.

Confidences and qualities are exact fractions in the library; the command
shows and stores them as decimal numbers.
