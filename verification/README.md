# bytedata

Byte and text containers that hold their data inline, borrowed, static,
shared or handed over by another owner, with slicing, splitting, queueing and
conversion operations whose behaviour is stated in Verus contracts and proved.

Layout:

- `src/` — the verified library. `bytedata` and `stringdata` hold the main
  containers, `shared_bytes` and `shared_bytes_builder` the reference-counted
  buffers, `queue/` the byte and text queues with their iterators,
  `char_indices` the UTF-8 decoder, `byte_string_render` the escaping and hex
  rendering, `ordering` the lexicographic order, `interning` the shared-copy
  interning, `arbitrary_values` the construction from fuzzer input,
  `parser_input` prefix comparison, predicate splits and hex dumps for
  parsers, and `bytes_interop`, `body` and `io` the operations behind the
  `bytes`, HTTP and reader/writer adapters. `laws` states properties that
  relate several operations.
- `tests/` — tests of the library on concrete values.
- `app/` — adapters to the traits of other crates (serde, postgres,
  `http-body`, `bytes::Buf`, `nom`, `std::io`) and formatting helpers.
