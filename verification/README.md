# matchmaker

A matchmaking engine for five-a-side matches, verified with Verus, and a small
HTTP server around it.

Players join a queue with a skill rating. Workers run matching cycles over the
queue. In a cycle, players take turns as the anchor, longest wait first. The
anchor's tolerance for other ratings starts at 150 points and grows by 25 a
second, up to 600; it is taken at the anchor's turn. If ten players are free within it, the ten closest to the
anchor form a match and leave the queue, in the two teams of five whose average
ratings are as close as any split allows.

## Layout

- `src/` is the library. Its functions have contracts that Verus proves, with two
  exceptions. Nothing is stated of `Clock::new` and `Clock::now`, which read the
  machine's clock. And the small functions that call the hash map of `dashmap` (in
  `pool.rs`) or a clock of the standard library (in `clock.rs`) are trusted to do
  what their contracts say. `laws.rs` and the `law_` functions beside the types
  state what holds of the whole: nobody is in two matches, a cycle leaves no match behind that it could
  have formed, tolerance never shrinks, ids are unique and sort by time, and more.
- `tests/` runs the library on concrete values.
- `app/` is the server: routes, JSON and the worker tasks.

## Numbers

The library computes with whole numbers. Ratings are in units of which 2^49 make a
point, so that every double-precision rating from 8 points up is held exactly.
Times are in nanoseconds, and averages and quality scores are exact fractions. The
server turns them into the decimal numbers of its JSON.

## Workers

A player's state changes only through the queue, by id, and the server holds the
engine behind one lock. A worker plans a turn while others may read, and carries it
out with the engine to itself; a plan that another worker or a request has overtaken
is given up. Matches are numbered within an engine.

## Requests

| Method | Path | Answer |
|--------|------|--------|
| POST | `/player/join` | 200 queued, 400 bad request, 409 already in the queue |
| DELETE | `/player/:id/leave` | 200 removed, 404 not in the queue |
| GET | `/health` | queue size and averages |
| GET | `/metrics` | all metrics |
| GET | `/matches/recent` | the last 200 matches |
| GET | `/pool/size` | queue size |
