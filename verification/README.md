# taureria

The logic of the Taureria comic-archive reader, verified with Verus.

- `src/library.rs`: the catalogue of libraries, content metadata keyed by
  archive name, the steps that record new contents, and the rule for
  removing a library.
- `src/archive.rs`: which directory entries are archives, which archive
  entries are images, and the cover of an archive held in memory: which
  entry it is, its bytes and its decoded pixels.
- `src/keyed.rs`: values keyed by distinct strings, behind the metadata and
  the viewer sessions.
- `src/viewer.rs`: viewer pages and their order, open viewer sessions,
  page answers, page data, window labels and addresses.
- `src/paths.rs`: the file and directory names derived from a library path.
- `src/text.rs`: character sequences, lexicographic order and sorting.
- `src/laws.rs`: properties relating several operations.
- `src/outside.rs`: the calls into `uuid`, `chrono`, `base64`, `image`,
  `zip` and `str::to_lowercase`, with the contracts they are trusted to meet.
- `app/`: file, archive and JSON I/O and the command entry points.
