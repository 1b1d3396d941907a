# dot_path

A path language over JSON content, verified with Verus.

- `src/selector.rs`: the selector grammar (`order.customer.name`, `orders[0].id`,
  `orders[n].id`, `headers['x']`), its parser and the declared reach of a selector.
- `src/json.rs`: the JSON document the library walks (objects keep document order)
  and its mathematical value.
- `src/walk.rs`: reading and writing a document by selector, with the laws that
  relate them (a read after a write, writing twice, names staying distinct).
- `src/content.rs`: Streams, scalars, the JSON contract descriptor, the refusals
  and their words.
- `src/text.rs`: JSON text parsed by serde_json, and `Debug` quoting, behind
  trusted wrappers.
- `src/lib.rs`: the `dot` engine, a reader (`DotStructure`) and a writer (`DotRewrite`).
- `app/`: rendering a finished rewrite as JSON text (doubles stay outside the
  library), and doubles for decimal scalars.
