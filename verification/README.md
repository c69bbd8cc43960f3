# pattern_scanner

A byte-pattern scanner for the memory of another process, verified with
Verus.

- `src/pattern.rs`: patterns, parsed from IDA-style text (`48 8B 05 ? ? ? ?`),
  from code-style bytes and masks (`xxx????`) or from raw bytes, and where a
  pattern matches.
- `src/scanner.rs`: scan results, the module that holds an address, the plan
  of chunked reads over memory regions, and the scan of what was read; with
  the laws that chunking changes nothing a whole-region scan would report.
- `src/process.rs`: modules and regions of a process, module lookup by name,
  process-name matching and the filter over queried memory ranges.
- `src/text.rs`: white space, lower-casing, substring search and decimals.
- `app/`: the Windows side (opening processes, reading memory, listing
  modules and regions) and the demo program.
