# dlmalloc

A general-purpose memory allocator, verified with Verus.

The library in `src/` decides where memory comes from and where it goes, and keeps the books. It
never touches the memory that it manages: the words of chunk headers are kept beside it, in a column
for each field, and addresses are plain numbers. Where the system has to be asked for memory, or
where memory can be given back to it, the library says so, and the caller hands it the reply.

- `state` says what an allocator is, what holds of it between calls, and what its contracts speak
  of: a `Heap`.
- `malloc`, `grow`, `free`, `release` and `trim` say as functions on `Heap` what each operation does,
  and hold the operations.
- `bins`, `trees`, `unlink`, `relink`, `search`, `find` and `freelists` are the free lists.
- `phys`, `segments`, `carve`, `join`, `regions`, `totals` and `segwalk` are chunks and segments.
- `requests` is for requests with an alignment.
- `words` says which words of memory each operation leaves alone, `clients` that what clients
  write does not matter, and `places` that the columns are views of one memory.
- `checks` are the sanity checks, `walks` says when the walks that they make come to an end, and
  `checked` that they pass whenever all is in order.
- `live` and `laws` say what holds of the allocator as a whole.

`app/` puts the library on top of anonymous memory maps.
