# step_perf

The operators of a performance simulator for streaming tensor programs, with
contracts that Verus proves.

A program is a graph of operators that pass streams of tiles to each other. A
stream is a flattened tensor: an element that ends dimensions carries a stop
token with the number of dimensions that end. Operators compute on tiles,
change the shape of a stream, route it, or load and store it in off-chip
memory, and they say how many cycles that takes.

## Layout

- `src/primitives`: streams (`elem`), arrays, tensors, tiles, buffers and
  selections.
- `src/functions`: functions on tiles, with their cost in operations.
- `src/operator`: the operators. Each is a value with a `step` function: it
  takes the next element and the state, and returns what is sent and how long
  it takes. Where it is of use, `run` processes whole streams.
- `src/memory`: loads and stores, the addresses that they request, and the
  data that they move.
- `src/memory_simple`: recorded memory traces.
- `src/ramulator`: the off-chip traffic of a simulation.
- `src/build_sim`: the channels between operators.
- `src/utils`: walks through shapes, rounding, lists of identifiers.
- `app`: runs the operators on channels, computes in floating point, and reads
  and writes files.
- `tests`: examples for all of these.

## What is proved

Every function says in its `ensures` clause what it returns, for every input
that its `requires` clause admits, and does not panic there. Properties that
span several functions are stated as proof functions whose names begin with
`law_`: flattening undoes promoting and reshaping, loading reads what storing
wrote, partitioning a merged stream by its select stream gives back the inputs
of the merge, lanes rejoin, the tiles of an allocation partition it, and more.

Elements that are cloned are described by what `clone` promises, and arithmetic
on generic elements by what the operators of the type promise, so the contracts
hold for integers and for floating-point numbers alike.

The functions marked `external_body` call `ndarray`, `itertools`, `serde_json`
and `std`; their contracts are trusted.
