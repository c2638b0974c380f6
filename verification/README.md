# seat_generator

Generates seating charts. People are placed into four zones (1, 2a, 2b, 3)
of fixed capacity so that nobody takes zone 1, 2a or 2b twice in a row,
nobody sits in the zone 2 area (2a or 2b) three charts in a row, and every
zone is filled to its capacity. The charts live in spreadsheets whose cells
are marked with the zone they belong to.

Layout:

- `src/` is the library, verified with Verus:
  - `zone.rs`: the zones and the seating rule;
  - `chart.rs`: seating charts, their map view and zone counts;
  - `generator.rs`: capacities, allowed zones, random assignment and chart
    generation, with the laws that a generated chart satisfies;
  - `excel_io.rs`: template cells, the chart read from cell values, and the
    cell writes that put a chart into a template;
  - `gui.rs`: the decisions of a generation run, step by step, and the
    generation of a chart for a template from the two previous charts;
  - `config.rs`: the remembered file paths;
  - `text.rs`: string order, equality and decimal numbers;
  - `random.rs`: the calls into `rand`.
- `app/` is the program: spreadsheet reading and writing, the remote
  service, the configuration file and the window.
- `tests/` runs the library.
