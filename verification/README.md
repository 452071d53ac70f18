# save3ds

A library for the archives of a handheld console: save data, extra data and title databases, on the
card, in the console's own storage or on a cartridge. Every function of the library states what it
does in a contract, and Verus proves it.

- `src/` is the verified library. It works on bytes in memory: an archive is opened on the content
  of its file, and a commit leaves the new content to be stored.
- `app/` is the program: options, host files, and a file system of the host over an archive.
- `tests/` runs the library, with random operations against plain models.

From the ground up: `memory_file`, `dual_file`, `dpfs_level` and `ivfc_level` are files on files;
`difi_partition` puts them together; `disa` and `diff` are containers of partitions. `fat` gives
blocks to files, and `meta_table` and `fs_meta` hold directories and entries; `volume` and
`volume_dir` are a file system on both. `archive`, `save_data`, `ext_data`, `cart_save_data` and `db`
find a file system in a container. `keys`, `sd` and `resource` derive keys and open archives where
they are kept; `names`, `options`, `frontend`, `ext_frontend`, `clear` and `transfer` are what the
program decides.

`volume_same` proves that what is stored of a file system is what is opened again, and
`law_save_reads_back`, `law_db_reads_back`, `law_ext_reads_back` and `law_ext_file_reads_back` say so
of the archives; of a database, as far as its data area is stored.
