# school_desk

A desk for organising school visits: tickets list the schools to visit and
the teachers at each, and a data folder holds each school's images and
documents. The web server keeps tickets in SQLite and indexes the data folder.

- `src/` is the verified library: ticket numbers, the rows a ticket writes
  and the history a finished ticket records, request parameters, directory
  listings (school folders, images, the listing cap, the data-folder check),
  the files that the index drops after a walk, and the one-walk-at-a-time rule.
- `app/` is the HTTP server: routes, SQL statements, reading the disk. It asks
  the library what to write and what to answer.
- `tests/` run the library on concrete values.
