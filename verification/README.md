# meal_plan

Shopping lists and a dish overview for a weekly meal plan.

A plan file names a dish per meal, per day; a cookbook directory holds one
recipe file per dish. From these the program writes `shopping-list.md`
(one shopping list per shopping trip) and `dishes.md` (the recipes, day by
day).

## Plan files

```
Personen: 4
Starttag: 2026-03-01
Montag: [[Pasta]], [[Salat]](2)
Dienstag(3): [[Suppe]], Einkauf, [[Curry]]
Mittwoch: Reste
```

- `Personen: <n>` — people for the following days (1 if not a number).
- `Starttag: <YYYY-MM-DD>` — start date (2026-01-01 if not a valid date).
- `<day>[(<n>)]: <menu>` — a day; `Reste` cooks nothing, otherwise a
  comma-separated list of `[[<dish>]]` items, each optionally followed by
  `(<n>)`, and `Einkauf` shopping markers.

A dish is cooked for its own count, else its day's count, else the last
`Personen` count. A new shopping list starts at every shopping marker.

## Layout

- `src/` — the verified library (Verus): the plan grammar and its reader
  (`menu`), the cookbook index (`cookbook`), ingredient lists (`types`),
  dishes (`dish`), the recipe file format (`recipe`), days, week plans, shopping lists and the overview
  (`plan`), and building a plan from loaded dishes (`loading`).
- `app/` — the command line program: file system access, recipe files and
  the amounts in recipes (floating point: reading, scaling, adding up,
  printing), output files.
- `tests/` — tests of the library.
