# vello (scene encoding)

The scene encoding of a GPU vector renderer, verified with Verus.

`src/` is the verified library:

- `draw`: draw tags, their info and data sizes, and the payloads of colors,
  images and clips.
- `path`: path tags, styles and transforms. Styles and transforms hold 32-bit
  floats by their bit patterns; their equality is float equality on those bits.
- `encoding`: the encoded streams of a scene, their abstract view
  (`EncodingView`), the encoding operations, and the consistency they keep.
- `resolve`: the layout and byte form of the packed scene, packing with and
  without image patches, and reading the sections back.
- `atlas`: the decisions of placing images in the image atlas.
- `pool`: buffer size classes and the pool of buffers kept for reuse.
- `scene`: the scene that holds an encoding, and its drawing operations
  around the shape (begin and finish a draw, push and pop a layer, append a
  child scene).
- `engine`: the bookkeeping of running a recording on the GPU: buffers and
  images by resource id, pending clears, skipped and failing dispatches,
  downloads, and what goes back to the buffer pool.
- `words`, `sums`, `config`: the byte form of words, sums over sequences, and
  the path tag workgroup size.

`app/` holds what works on floats or on outside types: conversions from
peniko colors, brushes, blend modes and kurbo transforms, the scene's
fill, stroke, layer and image operations (the shape itself is encoded by a
path encoder that the caller supplies), the atlas loop, and the wgpu side of
the buffer pool and of the engine.

The packed scene stores each 32-bit word in the host's byte order, as the
memory of its words lies.
