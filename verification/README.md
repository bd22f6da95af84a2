# rinecs

An entity component system whose storages, hierarchy arena and entity
bookkeeping carry contracts that Verus proves.

- `src/` is the verified library:
  - `bitmask`: component masks, the filters that queries use (`Bitmask`)
    and the generator of one bit per registered component type.
  - `idtree`: an arena of nodes linked into trees, with insertion, moving,
    detaching and removal of nodes and walks over subtrees.
  - `dense_vec`, `vec`, `assoc_vec`, `forest`, `tree`, `oneton_densevec`,
    `oneton_forest`: the component storages, behind the `Storage` traits of
    `storage`.
  - `entity`: the entity table (`EntityRegistry`) with the masks of each
    entity, and the `Entities` handles that systems receive.
  - `schedule`: how the run order of systems splits into parallel groups.
  - `component`: the traits that tie a component type to its storage.
- `app/` holds the world around the library: storages of any component type
  looked up by type behind locks, the queries over them (`iter_for`,
  `ordered_iter_for`), resources, systems and the loop that runs them.
- `tests/` exercises the library on concrete values.
