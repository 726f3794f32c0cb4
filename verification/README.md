# ravito_gpx

Refreshment stops along a bike route. A rider sends a GPX file, a start and a
speed; the answer lists the bakeries, supermarkets, bars and fountains near the
route, each with the time at which the rider passes and whether it is open then.

- `src/`: the verified library. Every function states in its contract what it
  returns, and Verus proves it. The calls into `chrono`, `gpx` and `serde_json`
  stand behind small trusted functions, whose doc comments say what is believed
  of them.
- `tests/`: tests of the library on concrete values.
- `app/`: the web service around it: `axum` handlers, the `reqwest` client, the
  `rusqlite` cache, and the arithmetic on distances, which is floating point.

The pages `index.html` and `app.css` are read from a directory at start-up.
