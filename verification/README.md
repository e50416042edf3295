# isotope

The verified core of the Isotope game engine, written in Verus.

`src/` is the library, every function of it verified:

- `storage` — per-type component storage: a map from entities to molecules,
  kept sorted by entity.
- `compound` — the entity component system: entity identifiers, change
  detection flags and the queries over one, two or three molecule types,
  with or without an excluded type, reading or writing, and their
  change-detecting variants.
- `matter` — shared values behind a reader-writer lock, and a vault that
  files them under string specifiers.
- `utils` — base-64 rendering of integers, string hashes and compute
  work-group counts.
- `lexing`, `obj`, `mtl` — the Wavefront model and material formats: line
  tokens, decimal indices, and line-by-line readers that decide what each
  line does.
- `mesh` — meshes on the CPU and their upload to the GPU.
- `instancer` — the buffer bindings of the compute-shader instancer.
- `layouts` — the cache of GPU bind-group layouts, filed by label.
- `lights` — the fixed array of light slots handed to the lighting shader.
- `collider` — collision shapes.

`app/` holds what stays outside the verifier: floating-point physics and
lights, the file-reading side of the model loaders and plain-old-data
buffers.

## Design notes

- Components are not kept in one type-erased registry (a map from `TypeId`
  to boxed storages with a downcast on every access): Verus has no `Any`
  and no downcast. Each molecule type has a `MoleculeStorage` of its own,
  which the caller holds and hands to `Compound::add_molecule` and to the
  queries. The compound keeps the entity counter and the change-detection
  flags. `spawn` therefore creates the entity and its flag; the molecules
  of the new entity are added one storage at a time, so there is no bundle
  type.
- A `MoleculeStorage` is a vector of entries sorted by entity rather than a
  hash map: the queries walk every entry, and the sorted order gives that
  walk a fixed order and a loop invariant over a prefix of the entities,
  while the lookups by entity stay logarithmic.
- `MatterVault` and `LayoutsManager` file their values in vectors of
  (label, value) pairs, searched by label; their contracts speak of the map
  from label to value that the pairs stand for.
- The query closures are asked to accept exactly the calls the query makes:
  each selected entity with its molecules, and for writing queries with
  the molecules as they stood when the query began.
