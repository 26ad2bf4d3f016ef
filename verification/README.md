# silero_vad

Voice activity detection for a streaming media pipeline, with its logic verified by Verus.

Two nodes are offered. `SileroVADNode` listens to chunks of audio and reports, for each,
how likely it is speech and whether speech begins or ends with it; the audio passes through
behind the report. `SpeculativeVADCoordinator` forwards audio at once, before it is known to
be speech, and takes a stretch back when the speech turns out to be shorter than the minimum.

## Layout

| Where | What |
| --- | --- |
| `src/rounding.rs`, `src/arith.rs`, `src/numbers.rs` | IEEE 754 arithmetic in integers: each result is the exact one, rounded once |
| `src/signal.rs` | durations, level, resampling, mixing down |
| `src/vad.rs` | the detector: thresholds, hysteresis, sessions, reports |
| `src/coordinator.rs`, `src/turn.rs` | the coordinator, and the way of a chunk through it |
| `src/json.rs` | the members of reports, read and written |
| `src/model.rs`, `src/error.rs` | how the model comes to be loaded, and what is said when something fails |
| `src/sessions.rs`, `src/text.rs`, `src/config.rs`, `src/data.rs`, `src/factory.rs` | tables, names, settings, inputs, factories |
| `src/laws.rs` | what holds over any stretch of audio, in any number of sessions |
| `tests/` | the library run, the arithmetic against that of the machine |
| `app/` | the plugin: ONNX Runtime, downloads, the traits of the plugin SDK |

Samples enter and leave the library as bit patterns (`Binary32::from_bits`), and a number
that the library computes is the one that the machine computes. What is not a number has
many patterns; the library computes a single one of them.

## What is trusted

Reading a member of a JSON object goes through `serde_json` (`Value::get`, `Value::as_bool`,
`Value::as_f64`). Everything else in `src/` is proved.
