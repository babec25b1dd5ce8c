# open_task

The measuring core and view-model logic of a lightweight task manager, as a
verified library, with a small program around it.

- `src/` — the library, verified: units and identities (`model`), the bounded
  history ring (`history`), number formatting (`format`), the process tree with
  its subtree rollups and the process table's rows (`process_rows`), the table's
  ordering, selection and collapse state (`table`), the probe's decisions between
  OS calls (`probe`), reading the kernel's process table out of its byte buffer
  (`process_buffer`), the sampling loop's and command line's decisions
  (`sampler`), the window shell's input decoding (`shell`), and the draw-command
  vocabulary (`paint`, `view`).
- `tests/` — tests of the library.
- `app/` — the program: the sampling thread, the terminal output, and the
  floating-point parts of the view (geometry, colors, charts, table painting and
  hit testing, CPU percentages).

What is not here: the Windows OS calls themselves (the `NtQuerySystemInformation`
queries, memory status, processor topology queries) and the Win32 / Direct2D
window shell (window procedure, device setup, drawing, text layout). They need
the `windows` crate, which this build does not have. On every platform the
program therefore runs with the probe that measures nothing: it prints that
there is no window shell (or, headless, that the platform has no probe) and
exits with code 3; the library holds the decisions those
parts make, verified, for the values they read.
