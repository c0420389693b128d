# JBM

JBM, the Java Blocking Monitor, detects when a thread of a JVM is off its CPU for
an extended period and reports the interval with its kernel, native and Java
stacks. The kernel side measures and selects intervals and signals the thread;
async-profiler answers the signal with a sample of the Java stack; user space
pairs intervals with samples.

The library in `src/` holds the rules and is verified with Verus:

- `probe`, `sampling`, `balance`: which intervals qualify and are selected, and how
  the counts of them balance
- `common`, `reader`: the records of the kernel side and how far readers have come
- `ingest`, `namespace`, `symbols`, `clock`: how a reported interval is described
- `stream`, `arrival`, `correlate`, `threads`, `order`: queues, and the pairing of
  intervals with samples
- `monitor`, `provider`, `profiler`, `lines`: the rounds of the monitor and its
  source of samples
- `startup`, `teardown`: the order in which the monitor is set up and taken down
- `report`, `text`, `counter`: what is shown

`app/` is the command: it loads the kernel side with aya, runs the readers and
async-profiler, and writes results. `tests/` exercises the library on concrete
values.

```sh
jbm -p TARGET_JVM_PID \
  --min-block-time 1000000 \
  --max-block-time 60000000 \
  --sample-probability 0.001 \
  --output offcpu.jsonl \
  --collapsed-output offcpu.collapsed \
  --quiet
```

Block times are in microseconds. Each qualifying interval is selected with the
given probability, a decimal number from 0 (none) to 1 (all), rounded down to a
multiple of 2^-32. In the collapsed output each line is weighted by the duration
of its interval in microseconds; an interval without a sample is kept under the
frame `[no JVM stack]`.
