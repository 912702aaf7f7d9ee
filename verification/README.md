# FT8 station

The decision logic of an FT8 station, verified with Verus, and the program
around it.

- `src/` is the library. Its contracts say what each function returns or
  changes; the proof functions named `law_..` state what holds of several of
  them together.
  - `ft8_codec`: the CRC, the parity checks and the generator, ordered decoding,
    messages of 77 bits, tones, candidates, WAV files.
  - `ft8_qso`: the course of contacts, the hunt for stations, logs and reports.
  - `radio_ctrl`, `ws_server`, `tasks`, `dsp`: packets, commands, and when things
    happen.
  - `text`, `numbers`, `wire`, `collections`: what the others are built from.
  - `patterns`, `outside`: the calls into other crates, with what is believed of
    them.
- `app/` is the program: sockets, files, clocks, and signal processing in
  floating point.
- `tests/` runs the library on concrete values.

The program reads its settings from `station.json` and the tables of the code
from `ldpc_tables.json` (`checks`, `bits`, `generator`), both in the directory
in which it is started. Given the name of a WAV file, it decodes that file and
ends.
