# ic_oss

A verified library for an object storage service: buckets that hold a folder
tree of chunked files, an object store whose copies share their data, the
permission model of access tokens, and the reading and uploading logic of its
clients. The library in `src/` is written in Verus, and Verus proves its
contracts; only the thin wrappers around outside crates are trusted.

## Layout

- `src/fs.rs`, `src/tree.rs`, `src/bucket.rs`: a bucket's folders, files,
  chunks and hash index, with the invariant that ties them together.
- `src/calls.rs`: what each bucket call answers and changes, once the caller's
  grant is known.
- `src/can.rs`: a flat file store that a canister can embed.
- `src/objects.rs`: the object store. Its invariant counts shared data: as
  many paths read a data as its count says, so deleting one copy never drops
  data that another copy reads, and deleting the last one reclaims it.
- `src/permission.rs`, `src/access.rs`, `src/cluster.rs`: policies, grants and
  roles.
- `src/http.rs`: the answer to an HTTP request for a file: ranges, caching
  headers, content disposition.
- `src/client.rs`: upload progress, the read plan of (encrypted) objects, and
  the chunk-by-chunk re-assembly of encrypted reads around the cipher.
- `src/paths.rs`, `src/file.rs`, `src/text.rs`, `src/codec.rs`, `src/bytes.rs`,
  `src/ids.rs`, `src/order.rs`: names, paths, encodings and small collections.
- `app/`: conversions to and from the `object_store` crate's types, outside
  Verus.
- `tests/`: the tests, run against the compiled library.

Calls into outside crates (`object_store`, `hyperx`, `url`, `base64`, `hex`)
stand behind small trusted wrappers whose doc comments say what their
contracts claim.
