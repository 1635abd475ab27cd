# eon

Sequences of items in persistent, balanced trees, verified with Verus.

A `Tree` keeps its items in its leaves and in each node a summary of the items below
it. Trees share their nodes, so a clone is cheap and is not changed when the tree it
was cloned from is. Nodes may lie in a `NodeStore` and are read when they are needed.
A `Cursor` finds the item at a position along a `Dimension` of the summaries, walks on
from there, and cuts out the items up to another position as a tree of their own.

- `summary`: summaries, items and dimensions, and what holds of them
- `store`: where nodes that are not in memory are read from
- `node`, `tree`, `append`, `join`: the trees, and how they are joined
- `cursor`, `seek`, `walk`: cursors, and where they stop
- `reads`, `parts`: which nodes are read, and what a cursor gathers on its way
- `piece`, `model`, `path`: what a tree and a cursor stand for
- `shape`: how high and how full a tree gets when items are added to it
- `laws`: what holds of trees and cursors as a whole
- `storage`: the calls into `smallvec` and `std` that are trusted
- `integers`: bytes as items, counted and summed

An item type brings its `Summary`, and proves that summaries add up. With the nodes that
a store holds, a tree shows a sequence of pieces (`Tree::content`): its items and, where a
node is in neither memory nor the store, a hidden subtree of which only the summary is
known. Every function says what it does to that sequence, which nodes it reads and in which
order, and what is left of a tree when one of them cannot be read. A tree whose summaries are
out of step after a failed read can still be listed (`Tree::can_be_walked`). A cursor stays
where it is if the first node that it asks for cannot be read, and is behind everything if
it had no place; if another node cannot be read, it halts there and has to seek again.
