# librarium

Reading and writing cpio archives, verified with Verus.

The library works on byte buffers: an archive is read from the bytes of a
file (from an offset on), a member's data is extracted from those bytes, and
an archive is written into a byte vector. Two header formats are supported:
`newc` (the SVR4 portable format, hexadecimal fields) and `odc` (octal
fields); `image` holds a whole `newc` archive with each member's contents.

Every function states what it returns in its contract, over spec functions
that define each format byte by byte. The main laws:

- `round_trip::lemma_newc_archive_round_trip`: the archive that
  `ArchiveWriter` writes reads back with each file's attributes and contents
  (for names whose length in bytes is not two more than a multiple of four,
  since the writer leaves out the NUL that ends a name);
- `newc::lemma_newc_round_trip`, `odc::lemma_odc_round_trip`: consistent
  headers read back from their bytes;
- `ascii::lemma_ascii_round_trip`, `octal::lemma_octal_round_trip`: numeric
  fields read back as the values they were written with;
- `archive::lemma_final_pad`: a written archive fills whole blocks.

`app/` holds the `uncpio` command, which extracts an archive into a directory.
