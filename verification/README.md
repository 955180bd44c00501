# accent-proust-wasm

The logic behind the WebAssembly bindings of the accent-proust Markdoc
engine, verified with Verus.

- `src/utf16.rs` -- byte offsets to the UTF-16 code units JavaScript counts
  in; an offset on a character boundary maps to exactly what JavaScript says.
- `src/diagnostics.rs` -- validation errors in the shape a JavaScript host
  expects, every position converted once against one index of the document.
- `src/path.rs` -- the dotted path every message about a configuration
  starts with.
- `src/js.rs`, `src/value.rs` -- JavaScript values as the host hands them
  over, and their conversion into Markdoc values by an iterative walk that is
  proved to compute the recursive definition. A Markdoc value is held flat,
  each node after the nodes it holds, so no value of any depth is built or
  dropped by recursion; a JavaScript value is taken apart by `js::release`.
- `src/config.rs`, `src/schema.rs` -- a host's schema declarations checked
  and converted, each field read as a property read finds it, own or
  inherited; every refusal starts with the path to the part of the
  declarations that caused it, then ": ".
- `src/text.rs`, `src/outside.rs` -- joining and sorting names, and the few
  functions of std and `indexmap` taken on their documentation.

`app/` holds the `wasm_bindgen` glue: reading JavaScript values, calling the
engine, and building JavaScript objects.
