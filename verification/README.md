# eter_prisma

PRISMA smears sound in time along an exact group-delay curve D(f): the curve is
rendered as an all-pass FIR kernel and applied with uniformly partitioned
overlap-save convolution.

- `src/` is the verified core (Verus): the choice of the kernel's FFT length
  (`dsp::kernel`) and all index bookkeeping of the partitioned convolver
  (`dsp::conv`): partition count and tap spans, and the ring of the
  frequency-domain delay line, with proofs that the partitions tile the kernel
  and that each partition reads the spectrum of the block it needs.
- `app/` holds the floating-point signal path (curve D(f), dispersion spectrum,
  FFTs, spectral multiply-accumulate) on top of that core, and the nih-plug
  plugin shell.
- `tests/` exercises the verified core on concrete values.
