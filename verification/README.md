# quadtree

Adaptive quadtree refinement of a rectangular domain, verified with Verus.

A quadtree holds the leaves of an adaptive partition of its root rectangle.
A refinement step asks a policy which leaf to split, cuts that leaf at its
centre into four quadrants, and asks an oracle for the data of each new
cell. The library separates geometry (`geometry`, `cell`, `scaling`), the
partition itself (`tree`), the choice of leaf (`policy`), the evaluation of
cells (`oracle`) and the step that ties them together (`evolution`).

Coordinates are fixed-point numbers: an `i64` coordinate `v` stands for
`v / 2^32` (`geometry::UNIT` is `2^32`). Halving, adding and multiplying
coordinates is exact, so a rectangle with whole-unit corners halves exactly
32 times, and the maps between a raw and a scaled domain are the exact
affine maps wherever the image is a whole number of steps (the nearest step
otherwise). Only a side of a single step cannot be halved. Areas and
diagonals are computed for rectangles within `COORD_LIMIT` (`2^14` units)
of the origin, and a tree's root must lie there. The diameter is the
diagonal rounded down to a step. Scores are `i32`; the no-progress
tolerance is counted in hundredths of a score unit.

What is proved, among other things:

- the leaves of a tree always partition its root: each lies in the root, no
  two share an interior point, every point of the root lies in one of them,
  and their areas add up to the area of the root;
- every leaf depth stays within `max_depth`, the leaf count within
  `max_leaves` (when it is at least 1), and each split adds exactly three
  leaves;
- a rectangle whose sides are an even number of steps splits into four
  quadrants of exactly half its width and height;
- a refused split leaves the tree unchanged, and the reason is the first
  limit the split would break;
- each built-in policy picks exactly the leaf it promises (the last of
  several equal maxima, or the first of several equal minima), and the
  shallowest-first policy keeps all depths within one of each other;
- the maps of a `Scaler2D` send corners to corners and points into the
  target, give the exact affine image wherever it is a whole number of
  steps, and where the target is at least as fine as the source the map
  there is one-to-one and the map back undoes it;
- a refinement step hands each child's own bounds to the oracle, in
  quadrant order, and stores what each call returned on that child;
- a refinement step splits the leaf its policy chooses, and the progress
  measure is the largest leaf score.

`app/` runs a refinement with the `trellis-runner` engine, which decides when
to stop, and gives the errors their messages.
