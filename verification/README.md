# forkstify

The verified core of forkstify, a terminal music player that plays by
branches and reads its reasons from a catalog of TOML cards kept in git.

`src/` is the library, written in Verus: every function carries a contract
and is proved against it. It holds the key grammar and its reader, the card
edits, the catalog's proposals and updates, the import, the card drafts
from MusicBrainz and Deezer answers, the learned layer's dates and taste,
the library's ranking, the home screen, the discography screen, the
neighbours a branch is drawn from, and the listening session's decisions on
a key, on a finished job and on enter in the search modal — and the laws that hold across them, as public
proof functions. The session's decisions come back as actions; playing the
sound, drawing the branches and the terminal are not part of it.

`tests/` runs the library on concrete values. `app/` is the command line
around it: reading the configuration, running git, and the merge driver
for the learned files, whose decaying counters are floats.

| module | what it holds |
|---|---|
| `text` | characters, words, lines, numbers, quoting |
| `keys` | the key tables and the reader's state machine |
| `edit` | the edits of a card's TOML, in place |
| `discography` | titles, versions, the cached discographies |
| `generate` | slugs, tags, links and tops of a drafted card |
| `fork` | what a catalog has beyond the reference, proposals, updates |
| `import` | which cards an import takes |
| `learned` | dates, the taste gestures, and how two machines merge |
| `library` | the Spotify library's ranking and coverage |
| `config`, `catalog`, `engine`, `webapi` | settings, proximities, tags, encoding |
| `home`, `explore`, `listen`, `mediakeys` | what the screens decide between two keys |
| `session` | what a key, a finished job or enter in the search asks of the session, and what its screen says |
| `neighbors` | the neighbours of a card through the links, the links to no card, a stop's card and glyph |
| `journey` | what a line typed in the text mode of a journey asks |
