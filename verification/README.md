# keyframes_aux2

A keyframe plugin for AviUtl2: each number item of an object can carry a track of
easings, one per section of the object, edited in a window of its own.

- `src/` is the library, verified with Verus: reading and writing the track
  identifiers in an item's alias, handing out new identifiers, the tracks
  themselves (sections, midpoints, ignored boundaries, per-easing settings),
  reading easing scripts and the catalogue of easings, reconciling tracks with
  the objects that use them, and the classification of effects.
- `tests/` exercises the library on concrete values.
- `app/` is the plugin around it: the host callbacks, the script module, the
  window, file reading and the time-control curves, which are computed in
  floating point.
