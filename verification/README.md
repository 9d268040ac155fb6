# Bartend

A bar inventory: the items on hand, the categories they belong to (arranged
in a hierarchy without cycles, so that a recipe can call for "whiskey" and be
satisfied by any bourbon), and the recipes made from them. Data lives in one
SQLite file.

## Layout

- `src/` — the library, verified with Verus.
  - `logic/` — the category hierarchy (`graph`, with reachability in `reach`),
    the caches of categories, items and recipes (`category_service`,
    `item_service`, `recipe_service`), identifiers (`id_generator`,
    `id_table`), counted items (`item`), units (`quantity`), name ordering
    (`order`, `text`) and the category table statements (`category`).
  - `common/` — the first form of the hierarchy and its category manager.
  - `persistence/` — schema migrations, the storage operations the caches rely
    on, and the meaning of stored rows.
  - `models.rs` — identifiers, records and errors.
- `tests/` — tests of the library.
- `app/` — the program: configuration file, SQLite storage and amounts held
  as floating-point numbers.

## Identifier tables

`IdTable` has no `get_disjoint_mut`: the verifier does not support handing out
several mutable references into a hash map at once. A value is changed by
reading it with `get` and writing the new value back with `update`.
