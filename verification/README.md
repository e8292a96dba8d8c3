# dpcore

The protocol and pixel core of a Drawpile paint engine, written in Verus
with its behaviour stated in contracts and proved.

## Layout

- `src/protocol/` — the Drawpile protocol
  - `serialization.rs`: field encodings and the framing of binary messages
  - `message.rs`: every message type, its binary encoding and decoding, with
    read-back laws (`lemma_roundtrip`, `lemma_reencode`)
  - `textfmt.rs`, `base64.rs`, `pieces.rs`: numbers, colors, fixed point
    values, base64 and separated lists in text, each with its read-back law
  - `textmessage.rs`: `TextMessage`, a message's name, arguments and dabs
  - `textform.rs`: writing a `TextMessage` as text and parsing it back
    (`lemma_text_roundtrip`)
  - `msgtext.rs`: the text form of every message
    (`Message::lemma_text_roundtrip`)
  - `writer.rs`, `reading.rs`: recording file headers and lines
- `src/paint/` — the paint engine in integer arithmetic
  - `rasterop.rs`, `blendmode.rs`: blending of premultiplied ARGB pixels
  - `tile.rs`: 64x64 tiles with copy-on-write pixel data
  - `brushmask.rs`: round and square pixel brush masks
  - `layer.rs`: tiled layers with sublayers, resizing, flattening
  - `editlayer.rs`: putting tiles, brush dabs, drawing images, filling
    rectangles, merging and changing attributes
  - `layerstack.rs`: the layer stack, its resizing and flattening to an image
- `src/canvas/` — compressed tile data, brush strokes (pixel brushes, and
  classic brushes from their masks), and the canvas state that applies
  messages (`CanvasState::receive_message`, `CanvasState::receive_classic`)
  and renders a message sequence (`render_messages`)
- `src/convert.rs` — converter options and the choice of output format
- `tests/` — tests of the library
- `app/` — the `drawpile-cli` program: converting and rendering recordings
  with file I/O, and the floating point parts of the paint engine (colors,
  the composite blending modes, Gimp style brush masks, sampling a dab's
  color)

## What is not here

Undo and redo need the session history; the canvas state does not apply
those messages. The masks of classic (Gimp style) brush strokes are shaped
in floating point by the program, which hands them to the library to draw.
Layers and sublayers blending in one of the composite modes (multiply,
darken, ...) are flattened only in floating point, by the program
(`render_messages` reports such canvases instead of rendering them).
