# acs_explorer

Examines the metadata of American Community Survey tables: groups the
survey's variables into tables, orders tables and columns, prints a table's
columns as a pretty listing or as a configuration listing, and builds the
statements that store a table in PostgreSQL and read it back.

- `src/` is the library, with its specifications and proofs:
  - `text.rs`: splitting, searching, replacing, trimming and camel case on
    character sequences, and decimal text;
  - `order.rs`: the byte order of strings and its laws;
  - `cli.rs`: the explorer's options and data, table and column order;
  - `sort.rs`: stable sorting of columns by id;
  - `explore.rs`: reading the variables document into tables, and the two
    listings of a table;
  - `load.rs`: database statements, reading a stored table back, comparing
    a stored table with a fetched one.
- `app/` is the command-line program: arguments, the HTTP request, `psql`.
- `tests/` runs the library on concrete inputs.
