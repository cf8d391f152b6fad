# s2e

The rules of a detector of gas flares and methane plumes in Sentinel-2 imagery, as a verified
library: which scenes a run reads, how a catalogue is asked for them, when a scene list fits a run,
how plume candidates are ranked, when a run is complete, and what is published of it.

Every function of `src/` has a contract that Verus proves, but for the few that do no more than call
serde_json, chrono, sha2, flate2 or the standard library, whose contracts are believed and say so.
Numbers with a fraction are held by their encoding (`number`), so comparing and adding them is exact
arithmetic on integers; what needs trigonometry, a decimal or a raster is measured by the application
and handed over.

```
src/
  number      double-precision numbers by their encoding: order, minimum, rounded sums
  text        string operations
  json        JSON values, read by serde_json, and how documents are written
  table       comma-separated tables
  paths       paths of local files and of objects in a store
  calendar    days of the Gregorian calendar, windows, shifted dates (chrono)
  envelope    boxes of longitude and latitude; merging those that overlap
  stac        scenes: which are kept, where their bands are, whose mask they borrow
  catalogue   requests: bodies, pages, attempts, pace
  manifest    scene lists: framing (flate2), hash (sha2), whether one fits a run
  lines       the lines of a scene list: how they are written, and knowing one again
  discover    building a scene list in batches
  aoi         areas of interest, shards, names
  detect      which pass a run makes, and over which scenes
  view        the tables that clustering exchanges with the query engine
  clouds      on how many days a site was observed
  triage      plume candidates: rejects, flags, scores, ranking
  review      from published plumes to a ranked list
  verify      whether a run is complete
  archive     publishing records, and the overlay of scanned areas
app/          the command line: files, processes, HTTP, floating point
```

Public proof functions state what holds of several functions together, such as that a manifest reads
back what was written into it, that the shards of a fleet share the features out, or that coverage
only grows.
