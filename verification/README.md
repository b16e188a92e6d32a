# lexiflash

Vocabulary extraction for the LexiFlash flash-card app, written in Verus.

`src/` is the verified library:

- `text` — character model of strings (UTF-8 byte offsets, character classes, lower-casing);
- `pattern` — regular-expression services from the `regex` crate;
- `context` — whole-word token search and context truncation around a token;
- `validate` — vocabulary word validation;
- `newstoanki` — the validation and truncation rules of the `newstoanki` extension module;
- `wordlist` — word-list and WordNet `lexnames` file formats;
- `tokens` — token records and per-token rules (POS labels, proper-name lexnames);
- `pipeline` — extraction steps 1-12 on tagger output, with their laws;
- `engine` — the engine around the `nlprule` tagger and the `wordnet-db` database, its results
  stated over the tagger's output and WordNet's index;
- `laws` — how the engine's steps relate, and how an article's vocabulary relates to its parts;
- `mock_data` — the dashboard's placeholder decks and counters.

`app/` is the command-line front end: it locates and loads the NLP data files, shows the
dashboard, and prints the vocabulary found in the sentences given as arguments.
