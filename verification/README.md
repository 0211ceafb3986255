# log_analyzer

A log file analyzer for lines of the form

```
YYYY-MM-DD HH:MM:SS [LEVEL] component: message
```

with its parsing, statistics and report layout verified with Verus.

- `src/` is the verified library: `text` (trimming, UTF-8 byte offsets,
  decimal digits), `log_level`, `datetime`, `errors`, `parser` (one line),
  `tally` (counting keys in order of first appearance), `statistics`,
  `analyzer` (accumulating entries and parse errors, filters, path checks)
  and `report` (text and JSON reports).
- `app/` is the command-line program: it reads files and directories,
  renders the percentages (floating point) and prints the report.
- `tests/` exercises the library on concrete inputs.
