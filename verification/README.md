# quantum_os

The kernel logic of a quantum operating-system simulator, written in Verus
and verified against its contracts.

- `src/` is the verified library: QASM parsing, the peephole optimiser,
  noise scaling, routing on a coupling map (breadth-first search and swap
  insertion), qubit allocation and context switching, the swap-file format,
  the stabilizer tableau, the surface-code syndromes and decoder, tenant
  quotas, cluster planning, gate counts, the shell's command decoding, and
  the basis permutations of CNOT and X.
- `app/` is the program around it: the floating-point state-vector, tensor,
  pulse and noise simulations, random measurement, file I/O, the interactive
  shell's loop, and printing.
- `tests/` runs the library on concrete values.
