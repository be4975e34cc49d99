# lib: a virtual file system in one host file

The image starts with a header of `HEADER_SIZE` bytes that holds the
directory tree (a list of nodes) and the table of names, followed by the
block device's record and data blocks of `BLOCK_CAPACITY` bytes each.

## Layout

- `src/` is the verified library, checked by Verus:
  - `serde.rs`, `traits.rs`: big-endian encodings, the `Serde` trait with
    its read-back law, and the `Decoded` model that every decoder meets.
  - `string_buffer.rs`: the table of names.
  - `inode.rs`, `directory.rs`, `file.rs`, `header.rs`: the nodes and the
    tree, path navigation and node creation, with their laws.
  - `block_device.rs`: block bookkeeping; plans of the reads and writes
    that carry file contents to and from the image.
  - `image.rs`: a model of the image as bytes, and the law that reading a
    file back after a write gives the bytes written.
  - `vfs.rs`, `ops.rs`: the file system and its file handles, over the
    above; a file's plans of writes and reads give back what was written.
  - `probe.rs`: whether an image can be read without running past its end.
  - `printer.rs`: the order and depth of the lines that show the tree.
  - `util/`: dates and times, path splitting.
- `tests/`: tests of the library on concrete values.
- `app/`: the program around the library: the host file, the execution of
  the plans, printing, and the demonstration scenarios.
