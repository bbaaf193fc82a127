# Orbit Sense

A real-time satellite tracker: a 2D world map of the satellites of a
CelesTrak category, SGP4 propagation, orbital trails, swath footprints, and
overhead-pass prediction for an observer found by geocoding.

## Layout

- `src/` is the verified library (Verus):
  - `satellites.rs`: satellite categories, the SGP4 records built from TLE
    triples, the catalogue keyed by name, and the parsing of CelesTrak's
    three-line-element text.
  - `passes.rs`: the overhead-pass search as a state machine, with the proof
    that it reports every pass once, at its closest approach.
  - `tracker.rs`: the tracker's state: catalogue, selection, the filtered
    list, pass predictions, and the download and geocoding request flags.
  - `settings.rs`: the persisted map style and the dark basemap's tile URLs.
  - `calendar.rs`: the iCalendar export of predicted passes.
  - `display.rs`: status-bar freshness, cache refresh rules, window titles.
  - `text.rs`: white space, trimming, lines, search, ordering, numerals.
- `app/` is the program: the `eframe` window, downloads, geocoding, the
  clock, and the floating-point orbit and geodesy.
- `tests/` runs the library on concrete values.

## What the proofs rest on

- The pass search is proved to report every pass of the 48-hour window once,
  at its closest approach, under two conditions on the ground track it is fed:
  the orbit is known (a distance can be sampled) at every minute, and the
  track closes in on the observer by at most 450 km per minute. Where an orbit
  cannot be propagated for a minute, that minute is skipped and the guarantee
  does not extend over it.
  Whatever the samples, the reported passes are chronological, inside the
  window, closer than the threshold and at least two minutes apart.
- Distances enter the library in whole millimetres: the floating-point
  geodesy in `app/` rounds them before the search sees them, so comparisons
  with the threshold and the kilometres in the iCalendar export can differ
  from floating-point ones only within half a millimetre.
- TLE parsing rests on the `sgp4` crate. What is trusted of it: whether
  `Elements::from_tle` accepts two lines depends on the lines alone, and lines
  not 69 bytes long are refused. The element values and the SGP4 constants
  are computed with floating-point powers and trigonometry whose precision std
  leaves open, so nothing is claimed of them, nor of whether deriving the
  constants succeeds; the catalogue is proved to be built correctly from
  whatever objects come back. Lines of the TLE length that are not ASCII are
  refused before they reach the parser, which reads slices of them as text
  unchecked.
- The catalogue and the selection are keyed by satellite name, which is text.
  They are kept as sequences with the invariant that no name occurs twice,
  rather than as a `HashMap` and a `HashSet`: vstd specifies what those
  collections hold only for key types that it knows to hash and compare
  faithfully (`obeys_key_model`), integers among them and `String` not, so
  with text keys lookup, insertion and toggling could not be proved. The
  lemmas `lemma_catalog_insert_is_map_insert` and `lemma_outcome_catalog_is_map`
  relate the catalogue to the map of names to objects that it stands for.
- The distinctness of names is kept by type invariants: that of `Catalog`,
  and that of the private selection inside `TrackerState`, so that no
  method asks its caller for a well-formedness condition.
