# ebpf_vm

An eBPF virtual machine with its behaviour stated and proved in Verus.

- `src/opcode.rs`, `src/insn.rs`: the opcode byte and the 64-bit
  instruction word, with their fields.
- `src/semantics.rs`: what one instruction does to the machine and what a
  run returns; `src/vm.rs` is the interpreter, proved to follow it. A helper
  call is answered by the helper registered under its id, on r1..r5, with a
  result that helper may give; a map call by the map under the handle in r1,
  for the key in r2 (and value in r3), as that map's own specification says.
- `src/control_flow.rs`: the control-flow verifier (forward jumps only,
  every instruction reachable, no path off the end).
- `src/typeck.rs`: the register type checker.
- `src/helpers.rs`, `src/map.rs`, `src/maps/`: helper dispatch, the map
  registry, and the array and hash maps.
- `src/elf.rs`: reading the `.text` section of an ELF image.
- `src/le.rs`: little-endian byte strings.
- `app/main.rs`: a small driver that runs a few programs and prints the
  outcome.
