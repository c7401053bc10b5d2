# mfa, a file size analyzer

A command-line tool that reports how much disk space files and directories use.
It counts every `(device, inode)` pair of a file once, measures allocated blocks by
default, skips symbolic links unless they are to be followed, and lists what it
found as a tree, a flat list, a breakdown by extension, JSON or CSV.

## Layout

- `src/`: the library, written in Verus. Every decision of the tool is here,
  with a contract: which entries are counted and with what size, how totals roll
  up, how listings are ordered, how sizes are read and shown, and the text of
  every output.
- `app/`: the program around it. It parses the command line, makes the system
  calls, runs the worker threads and draws the spinner.
- `tests/`: tests of the library. Walks run on a small disk held in memory.

## What is proved

- Sizes roll up: a directory's total is the bytes of all files below it.
- A walk that finishes has counted exactly what is on the disk. Symbolic links
  cannot trap it, on one thread or on many, as long as no real directory is below
  itself and the links lead to finitely many inodes.
- Every inode that a walk meets under a name to be counted is counted exactly
  once, whatever the filter and whichever name comes first. Where links are
  followed, this takes for granted that no inode is both a directory and a file.
- Walks of one and of many threads end with the same totals, in whatever order
  the threads take turns: without followed links, and with them where there is no
  depth limit. Every inode is to have one size, and every directory the same
  listing on all paths to it.
- Listings hold exactly the entries asked for, in order; the rows of a breakdown
  add up to all files.
- CSV fields stay on their line, read back, and are never taken for formulas.
- A tree of fewer levels is one of more levels with lines left out.
- Sizes below 2^53 bytes are shown to the nearest tenth. Typed whole numbers of
  at most 53 bits are exact in every unit, in either case and between blanks;
  sizes of more than 64 bits are refused.

The functions whose names begin with `law_` state these.

## What is trusted

A few functions of the standard library (`String::push`,
`String::from_utf8_lossy`, `str::from_utf8`, `char::is_alphabetic`,
`str::to_lowercase`, `str::to_uppercase`), and of `serde_json` the object type
and `to_string_pretty`. The doc comment of each wrapper says what is claimed.
