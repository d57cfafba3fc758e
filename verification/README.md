# lumino-gpu-synth, verified core

The CPU side of a GPU MIDI synthesizer, written in Verus and proved
against its contracts:

- `src/midi/`: decoding of standard MIDI files through `lumino-midly`
  (`smf.rs`, the only place that calls it), exact tick to sample conversion
  through the tempo map (`tempo.rs`), the whole-file schedule (`parser.rs`),
  the streaming merge of the tracks (`stream.rs`), which is proved to yield
  the same events in the same order as the whole-file schedule, the
  writer that turns a schedule back into a file that schedules as the
  same events (proved of the decoded file; the bytes that `lumino-midly`
  writes for it are checked by tests only) (`writer.rs`), and the stable
  sort (`sort.rs`).
- `src/synth/`: event routing and the voice state machine (`voices.rs`:
  note-off order, damper, controllers, per-key voice stealing, exclusive
  classes), the offline render decisions and the event clock (`render.rs`),
  and the placement of sample data (`samples.rs`).
- `src/config.rs`, `src/buffers.rs`, `src/error.rs`: configuration checks,
  GPU buffer sizing rules and the error types.

`app/` holds what runs around the core and is not verified: file reading,
the floating-point configuration settings, the resampler, the wgpu device
and buffers, the engine that routes events to the verified voice pool and
hands its voices to a rendering backend, the offline render loop that
drives it with the verified decisions, and realtime playback. `tests/` exercises the library on concrete inputs.
