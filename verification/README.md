# kdl_xml

Bidirectional XML to KDL conversion following the XiK (XML in KDL) mapping,
written in Verus: the conversion logic carries `requires`/`ensures`
contracts that Verus proves.

## Layout

- `src/` — the verified library.
  - `validation.rs`, `kdl_to_xml/validation.rs`: XML names and DOCTYPE content.
  - `kdl_to_xml/`: KDL to XML. `model.rs` reads `kdl` nodes into plain
    values, `writers.rs` states and computes the output steps of each kind of
    node, `render.rs` hands the steps to the `quick_xml` writer, with
    the line breaks and the indentation string of pretty printing.
  - `xml_to_kdl/`: XML to KDL. `parser.rs` grows the element tree from the
    reader's events, `transformer.rs` states and computes the KDL shape,
    `compact.rs` the compact layouts, `kdl_build.rs` builds the `kdl`
    document.
  - `round_trip.rs`: the two directions fitted together on element trees.
  - `kdl_api.rs`, `xml_api.rs`: the calls into `kdl` and `quick_xml`, each
    with the contract the library relies on.
- `tests/`: behaviour on concrete documents.
- `app/`: the `xml2kdl` and `kdl2xml` command-line tools (one executable;
  it runs as `kdl2xml` under that name or with `kdl2xml` as first argument).

## Library usage

```rust
use kdl_xml::{KdlToXmlConverter, XmlToKdlConverter};

let kdl = XmlToKdlConverter::new().convert("<greeting>Hello, World!</greeting>").unwrap();
let xml = KdlToXmlConverter::new().convert(r#"greeting "Hello, World!""#).unwrap();
```
