# linkcell

Periodic linked-cell k-nearest neighbour search and cutoff pair lists,
written in Verus.

`src/` is the verified library. Squared distances enter it as ordered
integer keys (the bit pattern of a non-negative `f64`), so everything it
does is integer logic with contracts:

- `error`: the error enum and its messages.
- `kheap`: the bounded per-source candidate set, its sort, and the laws of
  a best choice (one entry per index, smallest key per index, nothing better
  left out; the stop test in terms of the pushes alone). Each push has an
  exact effect (an equal key never evicts), and a sorted row is unique.
- `mesh`: bin counts, the mesh cap, the periodic wrap and lattice image of
  a stencil position.
- `shell`: Chebyshev shells of stencil offsets; the shells tile the cube.
- `links`: linked cells; each list holds the active points of its cell.
- `walk`: the shell-by-shell k-nearest walk of one source and of many.
- `search`: the whole search over a mesh, also written into the packed
  buffer; every row holds `min(k, n_active - 1)` active neighbours, and an
  early stop on honest bounds loses nothing.
- `determinism`: equal inputs give equal rows, and no mask gives the rows
  of an all-true mask.
- `select`: the argument checks, the mask, and the brute-force rows.
- `packed`: the `n * k` packed output layout and the frame-major batch.
- `pairs`: the half-list rule, the image cap, and the cutoff pair walk.
- `pair_laws`: what the pair walk lists: each pair within the walked
  shells and the cutoff exactly once, the mirror of each pair in a full
  list, and the half list as the full list cut to the canonical side.

`app/` holds the floating-point side: the periodic cell (`minimage`),
folding, binning, the pair distances and stop radii, and the public
`knearest*`, `knearest_brute` and `pairs_within` entry points.
