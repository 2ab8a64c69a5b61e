# Aevrix engine core, verified

The deterministic first-paint engine's front end — HTML reading, CSS
reading, selector matching and the cascade — together with its resource
loading, glyph masks and image decoding, written in Verus with every
function's result pinned by its contract.

Layout (src/):

- `text` — character classes, trimming, whitespace collapsing, words.
- `hb_html` — the tokenizer and the tree builder (`parse_to_dom`); the tree
  is well formed, no elements are implied, text nodes are leaves, and every
  element's attributes are a map sorted by name.
- `hb_css` — the style-sheet reader, selectors (parsing, specificity,
  matching) and the cascade (`compute_styles_for_tree`), with its laws:
  specificity first, source order on ties, inline declarations above rules.
- `styling` — a parsed document seen by the cascade, and its author sheet;
  styling a document reaches every node.
- `hb_core` — the minimal HTML reader, inline-style trees with `f32` font
  sizes read exactly, errors, URLs, origins, integrity checks and an
  in-memory loader (a read gives back what was written).
- `hb_net` — the network surface: the in-memory loader and an offline client.
- `hb_graphics` — glyph masks from the 8×8 font, image decoding, and the
  RGBA surface: which pixels a rectangle or a glyph mask reaches.
- `hb_compositor` — the GPU path's error types and target size, and how a
  read-back buffer with padded rows is packed.
- `hb_layout` — the kind of box each node becomes, and the character classes
  that size glyph advances.

app/ holds what works in floating point or talks to the outside world:
layout, blending pixels, the C ABI for hosts and the command-line renderer.
