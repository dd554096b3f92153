# bliss-playlist-optimizer

Playlist sequencing over acoustic distances, as a library whose behaviour is
stated in contracts and proved by Verus, and a command-line program around it.

Given a playlist, a decoded library, repeat windows and optional evidence from
other sources, the library

- orders a fixed set of tracks (`route`),
- bridges the gaps of a playlist, as many as help or exactly as many as are
  asked for, with or without a track at either end (`preview`, `exact`,
  `exact_multi`, `exact_endpoints`),
- grows a playlist from seeds (`seed_growth`),
- finds paths to a destination, directly or by way of another track, and
  chooses among them (`anchored_path`, `destination`, `destination_report`),
- scores a playlist as it stands (`scoring`),
- and prepares requests, finds their tracks and reports on them (`requests`,
  `schema`, `sources`, `analysis`, `selection_report` and the modules beside
  them).

Each module states what its functions return as specification functions over
sequences and integers. What holds of whole searches, such as that a playlist
keeps its order, that an exact request is met or refused as a whole, or that a
search through an index finds what trying every candidate finds, stands as
public proof functions: in the modules named `*_laws`, or beside what they are
about.

## Numbers

Distances, percentiles and shares are fixed-point integers, `units::UNIT` to
one. The engine that measures distances enters as two functions over track
numbers, see `contextual::AdaptiveScorer`.

## Layout

- `src/` is the verified library.
- `tests/` runs it with the crates that it links.
- `app/` is the program: arguments, files, the database, JSON, and the acoustic
  engine `bliss-mixer-core` with its floating-point features.

What the library takes on trust are a few functions of std on characters and
texts, the seeded generator of `rand`, the hash of `sha2`, and what
`serde_json` and `jsonschema` say of a document: see `text`, `random`, `digest`
and `schema`.
