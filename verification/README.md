# frostify

The verified core of the Frostify desktop music player's interface.

- `src/` is the library, written in Verus: the entity-component store
  (generational entity ids, dense per-type component storage, resources,
  and the invariant that keeps ids, free indices, generations and the
  identity storage in step),
  the z-index manager that turns the component tree into a render order,
  the layout context that keeps the component tree and the z-index
  registrations together,
  the systems that open and close modals, switch components on and off,
  reset hover state and group the render order by pipeline, what the modal
  and button builders decide (which layers exist, their order, z
  adjustments and containers, and the component a new modal starts with),
  the bundled-asset store, and the framing and sample selection of looping
  H.264 canvas clips.
- `tests/` exercises the library on concrete values.
- `app/` holds what the library cannot: reading files, demuxing MP4 files
  and running the H.264 decoder, handing events to the async application
  loop, and floating-point easing.

Not part of this crate: the flex layout pass, the GPU rendering (vertex and
uniform data, pipelines, text), the making of each layer by the builders
(sizes, colours, textures, GPU resources), the background, image and text
builders, the mouse input, scroll and hover-detection systems, and the animation
system. All of them compute with floating-point positions, sizes, colours
or easing progress, or drive GPU resources, and so have no verified
counterpart here.
