# chd2iso-fuse

A read-only FUSE file system that serves a directory of CHD disc images:

- DVD images (2048-byte units) as `.iso`, as they are;
- CD images (2352- or 2448-byte sectors) as `.iso`, the 2048-byte user data of the first
  data track, or as ` (Form2).bin` with `--cd-allow-form2`;
- CD images as `.vcd` with `--vcd`: a 1 MiB header and the raw sectors of the disc.

The logic is a Verus library; what it states is proved.  What its contracts on calls into the
`lru` and `chd` crates and the standard library say is believed, not proved: the items marked
`external_body`, and the `assume_specification` in `fs`.

| Module     | What it holds                                                         |
|------------|-----------------------------------------------------------------------|
| `text`     | text, numbers and letters as track metadata writes them               |
| `sort`     | a stable sort by key                                                  |
| `track`    | track lines, track tables, the first data track                       |
| `bcd`      | BCD numbers and minute:second:frame times                             |
| `vcd`      | the VCD header                                                        |
| `sector`   | where sectors lie in hunks, and user data in sectors                  |
| `scan`     | the search for the first data sector of an image without metadata     |
| `index`    | what an image is served as, the walk, the order of the files          |
| `walk`     | what a whole walk over the source directory finds                     |
| `cache`    | the caches of sectors, headers and open images, on the `lru` crate    |
| `read`     | reads, piece by piece, from cached sectors and hunks                  |
| `attr`     | attributes of files and of the directory                              |
| `fs`       | the state: lookups, listings, handles, reads                          |
| `contents` | what the files hold, and that reads give exactly that                 |
| `history`  | that answers stay right over time, whatever is read in between        |
| `flags`    | the list of the program's flags                                       |

`app/` is the program around it: the command line, the files, the decompression of hunks
and the FUSE session.  `tests/` runs the library on concrete values.
