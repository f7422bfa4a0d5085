# kminimize

Finds a minimal kernel `.config` from what a running system was seen to use.

The library in `src/` is verified with Verus:

- `gather`: observed module usage: `/proc/modules` snapshots, usage reports, device aliases, and the
  groups of modules that can be removed safely;
- `kconfig`: the Kconfig language: expressions, declarations, the graph of `select` and `depends on`,
  and what disabling a symbol takes along;
- `kbuild`: the Makefile tree: the condition under which each source file is compiled, and the symbols
  that control it;
- `gcov`: which source files have coverage;
- `kminimize`: the reduction of a `.config`, plans for disabling one module, and the comparison of such
  a plan with two real builds;
- `paths`: which texts name one path, the order of paths, and sets and lists of them;
- `text`, `split`, `number`, `names`, `reach`: texts, numbers, ordered sets and maps of names, and
  reachability, which the others rest on.

The loaders for Kconfig files and Makefiles never touch a file system. They name the file that comes
next and are given its text.

`app/` holds the programs around the library: `kminimize`, `kgather`, `ktinify-gather` and `ktinify`.
They read and write files, run `make`, `git` and `ssh`, and drive virtual machines.
