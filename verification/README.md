# sm_logic

Builds logic-gate circuits for Scrap Mechanic blueprints, emulates them tick by tick,
and reads circuits from yosys `write_table` output.

## Layout

- `src/` — the library, verified with Verus.
  - `logic_gate.rs`, `logic_unit.rs`: gates, ids, units (gates with named inputs and
    outputs) and the operations that build them.
  - `logic.rs`: the circuit library (adders, multiplexers, decoders, registers, ROM,
    ALU, BCD converter, digit display, counter), each with the exact netlist it builds.
  - `emulator.rs`: synchronous tick-by-tick emulation of a unit.
  - `graph.rs`: the statements of a unit's Graphviz drawing.
  - `assemble.rs`, `tree.rs`, `blueprint.rs`: placing the gates of a unit in a blueprint.
  - `table_parser.rs`: reading a unit from a yosys table (UTF-8 text).
  - `laws.rs`: properties of building and emulating units, stated and proved as lemmas
    (what a read gives back after a write, one tick as a function, the full adder and
    the 2:1 multiplexer).
  - `adder_law.rs`, `alu_law.rs`, `bank_law.rs`, `bcd_law.rs`, `counter_law.rs`, `decoder_law.rs`,
    `display_law.rs`, `mux_law.rs`, `register_law.rs`, `register8_law.rs`, `rom_law.rs`,
    `select_law.rs`: what each circuit does once emulated (the adder-subtractor adds and
    subtracts, the ALU computes its four modes, the double-dabble cell adds 3, and the double-dabble arithmetic of seven such cells gives the decimal digits, the counter
    counts and loads, decoders decode, multiplexers select, the ticker pulses, latches,
    flip-flops, registers and the register bank store, hold and read back, the digit display shows its digit, the ROM
    reads a word).
  - `color.rs`, `pos.rs`, `order.rs`, `utils.rs`: colors, positions, stable ordering,
    signal names.
- `tests/` — tests of the library.
- `app/` — the command-line program: file reading, terminal emulator front end, writing
  the Graphviz drawing and the blueprint JSON.
