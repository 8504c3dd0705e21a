# player5

A TR-inspired drum machine for the DJ booth: a bass-drum voice, a 16-step
sequencer with accent and shuffle, lookahead scheduling against the audio
sample clock, and an offline renderer for pattern files.

The crate is split in two.

* `src/` is the verified core, checked by Verus. It holds everything the
  engine decides with integers, booleans and characters:
  * `voice`, `event` — the voice set, parameter addresses and where a
    parameter change lands;
  * `pattern` — step notation (`"X--- x--- X--- x---"`): parsing, printing,
    and the law that printing then parsing gives the track back, except
    that an off step comes back without an accent flag (the notation has no
    character for an accented rest);
  * `ring` — the fixed-capacity FIFO that carries events from the control
    thread to the render thread (power-of-two capacity, wrapping positions);
  * `timed`, `pending` — sample-stamped events and the render thread's
    pending list, kept in time order so late and out-of-order arrivals are
    applied at the right sample;
  * `transport` — the scheduler's decisions: every step before the horizon
    emitted exactly once and in order, a full queue pausing on the same
    step, playback ending exactly at its stop point, and scheduling to a
    horizon in two passes emitting what one pass to the later horizon does;
  * `fnv`, `onset`, `defaults` — the PCM hash of the golden masters, onset
    picking among analysis windows (with a statement of what counts as an
    onset), and the integer render defaults.
* `app/` is the shell around it: synthesis and master section (all `f32`),
  clocks (`f64`), the control and render halves of the engine, the JSON
  pattern format (serde), audio analysis, WAV output (hound), the C ABI and
  the command-line renderer.

`tests/` exercises the core on concrete values.
