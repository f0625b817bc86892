# jsync

Jsync keeps a JSON document in step between a producer and a consumer. The producer turns each
change of its document into a small binary message; the consumer applies the messages to its copy.

- `src/` is the library. It is written in Verus: what each function does is stated in its contract
  and proved.
  - `json`, `string_map`, `text`: documents, objects in key order, texts.
  - `cbor`: CBOR items, read and written by `ciborium`.
  - `message`: actions, path segment pools, and the wire format.
  - `patch`, `apply`, `consumer`: applying actions to a document.
  - `producer`: planning the actions that turn one document into another, by what they cost.
  - `laws`: what holds of producer and consumer together.
- `tests/` runs the library.
- `app/` offers the library for documents held as `serde_json` values.

A message starts with the bytes `d9 ff 01`, followed by one CBOR item: an array of the metadata and
the list of actions. The metadata declares the path segments that the message adds to the pool of
path segments which producer and consumer share; the paths of actions are lists of indexes into
that pool. The consumer also reads a bare list of actions, without metadata, whose paths are written
out segment by segment.

A value is replaced where that makes the message smaller than changing its parts. One kind of change
is exempt as long as array patches are not allowed: an array under a key of the root that loses or
gains items at its end only is changed item by item, and its root is not replaced.

Floats are held as the bits of IEEE 754 doubles. Documents are compared as JSON: `0.0` and `-0.0`
are the same, `1` and `1.0` are not.
