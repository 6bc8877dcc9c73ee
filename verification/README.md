# steam_activity_sniper

Records Steam profile snapshots posted by a browser script and charts each
user's top played games over time.

- `src/` is the verified library (Verus):
  - `text.rs`: character sequences, the key order, decimal numerals;
  - `keyed_map.rs`: a map with string keys kept in ascending order;
  - `db.rs`: users, games and their histories, and what a snapshot does to them;
  - `listener.rs`: user keys from profile URLs, routing of HTTP requests, posted snapshots;
  - `app.rs`: timeframes, timestamps, the points the graph shows, and the window's selection and log;
  - `laws.rs`: properties of snapshots over several calls.
- `app/` is the program around it: the egui window, the HTTP listener,
  and the JSON file the data is kept in.
- `tests/` runs the library on concrete values.
