# raytracer

A small ray tracer of spheres, in two parts:

- `src/` is the verified library. It holds the bounding-volume hierarchy
  (`bvh`): building it over a list of objects, walking a ray down it, and
  drawing it as a tree diagram, together with the plain vector and list
  types it uses (`geometry`, `objects`). It is generic over the coordinate
  type and over the objects, and proved with Verus: building halves a box
  exactly when it holds more than one object above depth 20 and its corners
  differ, cuts it at the space's midpoint along the axis of its depth, sends
  each object to the half it meets (or the one its `closer` names), keeps
  every object exactly once and counts them at every node; a ray only ever
  reaches the objects of one leaf; a list's `hit` keeps the last hit found
  as each object is asked below the parameter of the previous one. The traits through which the caller
  supplies the geometry promise that their answers are functions of their
  arguments, named by the traits' spec functions.
- `app/` is the program around it: `f32` vector arithmetic (with
  `nalgebra`), spheres, materials and cameras, random scenes (`rand`), and
  rendering to PPM files (`image`, `simple_parallel`). It supplies the
  hierarchy's geometry through the traits `Space`, `BoxProbe` and
  `objects::Hitable`.

`tests/` exercises the library on concrete scenes.
