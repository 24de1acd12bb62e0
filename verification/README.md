# svg_path_ops

Reading, transforming and writing SVG path data, with the structure of the
data proved correct.

- `src/` is the library, verified with Verus: path commands and their
  letters (`command`), writing path data in the default and the compact
  form (`write`), reading path data back (`read`, with the proof that
  what the writer writes reads back as the segments it was given),
  the commands of a normalized path (`normal`), subpaths (`subpaths`), implied control points
  (`context`), reversing subpaths (`reverse`), runs between corners (`runs`),
  joining paths (`join`),
  which subpaths to reverse so that outlines and holes wind in
  opposite directions, given each subpath's direction and what encloses it
  (`orient`), fill rules (`fill`), the
  choices of path data optimization (`optimize`), segment rewriting
  (`transform`), and the option types of strokes, boolean operations and
  text (`stroke`, `boolean`, `text`). Each operation works on the
  commands of a path, numbers already turned into text, and the facts the
  geometry decides, and its contract says exactly what it returns. The
  laws stated in the library (a path reversed twice gives back its
  commands, compact output is never longer than the default, subpaths cut
  a path into consecutive pieces, and others) are proof functions.
- `app/` works on svgtypes' `PathSegment` with floating-point
  coordinates: it turns segments into the library's model, does the
  geometry (absolute points, arcs through kurbo, matrix transforms through
  cgmath, measuring lengths and areas), and builds the resulting segments
  from what the library decides.
- `tests/` runs the library on concrete paths, parsed with svgtypes.

Not carried over: boolean operations on paths and the stroke outline
(`boolean`, `BooleanOptions`, `stroke_to_path`, `offset`), which clip
polygons with i_overlay; intersections and crossings of paths; dividing a
path at a length (`divide_at`); morphing one path into another; the bounds
of a path and of its stroke; and a path-level `reorient`. They are
floating-point geometry, and the functions they build on (the turning
points of curves on the axes, a subpath's interior point and direction,
`PathMeasure::segments`) are not among these sources. `orient::reorient`
decides, from each subpath's direction and enclosing subpaths, which to
reverse; nothing here measures those yet. i_overlay is not a dependency.
Arcs are turned into cubic curves with kurbo.
