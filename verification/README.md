# qar_decode

Decoding of ARINC 717 flight-data recordings, verified with Verus.

## Library (`src/`)

- `sync`: synchronisation words; scanning an aligned recording for a
  subframe or a whole frame.
- `dword`: extraction of a parameter's raw value from bit groups of the
  frame words, with sign correction; checks that a location list can be read.
- `values`: record formats (BCD, characters, UTC, numeric) and the conversion
  of raw values.
- `decode`: decoding every sample of a parameter from a recording, frame by
  frame, with superframe selection; checks of configurations.
- `bitstream`, `aligned`: scanners that report where synchronisation words
  are in bitstream (12-bit packed) and aligned recordings.
- `bytes`, `datafile`: the binary data file of decoded parameters (header,
  parameter table, data blocks), written and read back.
- `compress`: bzip2 compression of data blocks.
- `qar`: a data file in memory, with reading, storing and removing
  parameters.
- `config`, `cli`, `prm_conf320`, `prm_conf6`: configuration and option
  records.

## Programs (`app/`)

One executable, chosen by the name it runs under or by its first argument:
`dump_raw_bitstream2`, `dump_raw_aligned`, `qar_decode`, `qar_decode3`, `qar_decode4`,
`qar_decode5`, `qar_decode9` and `qar_datafile2` (which runs a Lua script on a
data file).  File access, memory maps, floating-point conversions, JSON and
Lua live there.
