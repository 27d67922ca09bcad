# rust_fetch

A terminal system-information display: an ASCII art picture, coloured by a
small markup, with a report on the machine beside it.

- `src/` is the library, verified with Verus:
  - `text` — decimal notation, replacing, trimming and searching text;
  - `markup` — the colour markup of the art files (`${name}`, `\c`, `$c`);
  - `probe` — what is made of the raw answers of the system (uptime, graphics
    adapters, model, users, packages, memory);
  - `report` — the lines of the report and their layout along the art.
- `app/` gathers the facts from the system and prints.
- `tests/` runs the library on concrete values.
