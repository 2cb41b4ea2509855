# multi_abigen

Bindings for many contracts at once: types that several contracts declare are moved to one shared
place, the bindings are laid out as a module or as a crate, in one file or in many, and what was
written before is held against what would be written now.

- `src/` is the verified library. It computes the contents of all files and what is to be done to
  the disk, and checks what was found there.
  - `tokens`: token streams and the pieces of code that bindings are put together from.
  - `order`: the order of names, and a map that is sorted by name.
  - `names`: names of modules and files.
  - `contract`: one contract.
  - `series`: work that is done item by item and may fail.
  - `expansion`: the contracts of a run, and the types that they share.
  - `disk`: file actions, what was found, and the check of a file.
  - `bindings`: the files of a module or crate.
  - `abigen`: the orders for a series of contracts.
  - `laws`: what holds of the library as a whole.
- `app/` reads and writes files and runs `rustfmt`.
- `tests/` runs the library on concrete contracts, with a disk in memory.
