# rzero

Pitch detection after the YIN method.

- `src/` is the verified library: the order in which pitch estimates compete
  (`estimate`), the estimate of each channel from a frame of normalised
  differences and the choice of pitch among the estimates of the most recent
  frames (`pitch_extractor`), the container's decision to report a period
  (`container`), and the ring buffer of `dasp_ring_buffer` behind trusted
  wrappers (`ring`).
- `app/` holds what works on floating-point samples: the squared-difference
  function and its normalisation, the RMS gate, the period in Hz, the C
  interface and the `draw_wav` program.

Normalised differences reach the library as the bit patterns of their `f32`
values, which order non-negative values as the values themselves.
