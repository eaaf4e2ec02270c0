# omastats-sampler

The sampler of a system monitor: it reads procfs, sysfs and a few command-line
tools, and prints one JSON record per line.

`src/` is the verified library. It holds what the sampler decides, from plain
values to plain values:

- `text`, `table`, `rank`, `cluster`: texts, tables by text, stable rankings,
  and items taken together by name;
- `names`, `stat`, `groups`, `report`, `procs`: processes, their names, what
  they have used since the last sample, and the lists that show it;
- `sockets`, `traffic`: TCP sockets and network traffic by process;
- `drm`, `clients`, `sharing`: DRM clients, GPU time and video memory by
  process, and that a client which is open many times counts once;
- `gpu`, `hwmon`, `devices`: graphics cards, their sensors, and which of them
  are shown in what order;
- `control`, `output`: arguments, control lines, the pace of sampling, and the
  limit on a line of output.

Contracts are stated over sequences of characters, maps and unbounded numbers.
Counters stay whole numbers throughout: the library says how many clock ticks,
bytes or nanoseconds were used and over how many nanoseconds, and percentages
and rates are worked out where they are printed. A reading that is a
double-precision number is carried as its bits.

`app/` is the program: it walks the directories, runs the helpers, works with
floating point, and turns records into JSON. `tests/` runs the library on concrete inputs.
