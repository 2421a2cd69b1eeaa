# klattsch

A parallel-formant (Klatt 1980) speech synthesizer, split into a verified
library and the floating-point code around it.

- `src/` is the library, proved with Verus: input normalization, the
  phoneme-string lexer and its number and note grammars, the compile plan
  (which token is applied or rendered when, and when compilation fails),
  phoneme banks and their `extends` resolution, the time-sorted event
  schedule and the playhead that fires its events, the noise generator's
  integer core, the RIFF/WAVE byte layout, the live event channel, and the
  error messages.
- `app/` is ordinary Rust on top of it: parameter records, the ARPABET
  table, the DSP blocks and the realtime synthesizer, the timing and pitch
  arithmetic of compilation, WAV quantization, JSON bank documents and the
  WebAssembly bindings.
- `tests/` exercises the library from outside.
