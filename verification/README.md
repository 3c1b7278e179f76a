# macmon

A performance monitor for Apple Silicon: a terminal dashboard, a JSON stream and plain-text logs of
loads, frequencies, powers, temperatures and memory.

The library in `src/` holds everything that is computed, and proves it with Verus. `app/` is the
program around it: the command line, the terminal, files, the clock and the helper process that
reads the chip's counters.

## Layout

| Module | What it holds |
| --- | --- |
| `rounding`, `ieee` | binary floating-point numbers, computed with integers |
| `decimal`, `text`, `format` | numbers, columns, bars and units as text |
| `clock` | moments and durations as text |
| `metrics` | a sample, and the machine |
| `stores`, `peaks` | histories behind the charts; peaks and averages of a session |
| `report`, `session_log`, `sample_log` | the two logs |
| `screen`, `panels` | where the dashboard puts what, and what it says there |
| `control`, `app` | keys and intervals; the dashboard as a state machine |

## Numbers

Readings are IEEE 754 numbers. `Single` and `Double` carry their bits. Their contracts speak of the
exact value that the bits stand for, and of one correct rounding per operation; `tests/` holds them
against the machine's own arithmetic.

## Trusted

Verus believes, without proof, the contracts of a few outside functions: `String::push` of the
standard library; date formatting and differences of chrono (`clock`); and `Layout::split` and
`Block::inner` of ratatui (`screen`). Each is named, with what is claimed of it, where it is called.
