# tree_similarity

Lower bounds and exact measures for the tree edit distance between ordered,
labelled trees written in bracket notation (`{a{b}{c}}`), verified against
their specifications.  That a bound never exceeds the tree edit distance is
proved for the label-intersection and the plain traversal-string bounds; for
the structural, SED-Struct and binary-branch bounds it is not.

`src/` is the library, checked by Verus:

- `parsing`, `tree`, `traversal`: the bracket parser, the node arena and its
  depth-first shape.
- `edit_distance`, `sed`: string edit distance (exact, bounded, banded) and
  the preorder/postorder string bounds, plain and with structure.
- `topdiff`: exact and bounded tree edit distance over postorder indexes.
- `unified`: the postorder substrate (labels and subtree sizes) of a tree.
- `label_intersection`, `lblint`, `structural`, `structural_split`,
  `binary_branch`: the label, structural and binary-branch lower bounds.
- `pipelines`: each lower bound followed by the bounded tree edit distance.
- `string_bounds`: the traversal-string bounds never exceed the tree edit
  distance, and a substrate determines its tree.
- `collections`: the hash maps and sets the bounds use.

`tests/` holds the tests; `app/` converts to and from the serialised forms.
