# rustlike

The rules of a small roguelike, verified with Verus.

- `src/` is the library. `geometry` holds points and rectangles; `map` the tile grid, its
  index arithmetic, the random room-and-corridor generator and what is drawn of the map;
  `components` the data the entities carry; `visibility_system`, `monster_ai_system`,
  `melee_combat_system` and `damage_system` the rules of a turn. Entity storages are
  vectors indexed by entity, one optional component per entity. `rng` declares the random
  number generator of `rltk` that the map generator calls.
- `app/` is the program around it: the window, the entity store of `specs`, the field of
  view and path finding of `rltk`, and the drawing.
- `tests/` runs the library on concrete values.
