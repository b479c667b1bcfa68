# small_world

Watts-Strogatz small-world graphs: generation in one process and over many
worker processes, average path length and clustering of both, and the conduct
of an experiment that a browser can watch. The logic is verified with Verus.

- `src/` is the library.
  - `generation`, `graph`, `metrics`: a whole graph in one process, generated
    in batches on the threads of a pool, with exact and sampled measures.
  - `worker`: one worker of a cluster. It owns a contiguous range of nodes and
    their rows, rewires the edges that start there, answers queries and takes
    its part in level-synchronous searches. `history` and `searches` state what
    holds of a worker over any sequence of calls.
  - `coordinator`: the conduct of an experiment as a state machine that takes
    the workers' answers and says what to ask next.
  - `cluster`: what holds of all workers together. Rewiring keeps a simple
    undirected graph with at least K/2 neighbors for every node, never fails,
    and ends the same whatever the number of workers; a search sums up the
    true distances; the links counted, batch by batch, are all the links.
    `turns`, `replies` and `levels` state this of the workers' calls.
  - `circle`, `distance`, `ends`, `partition`, `rows`, `sorted`, `batches`: the
    mathematics that these share.
  - `model`, `dashboard`, `protocol`, `probability`, `random`, `sorting`,
    `parallel`, `text`, `demo`: configurations, messages, random draws and the
    like.
- `tests/` runs the library on concrete values.
- `app/` is the program around it: command line, processes, streams, HTTP.

Probabilities are held as the bit pattern of a double together with the sampler
that rand makes of it, and means as their two terms, so that floating point
stays out of the library.
