# compute_pass

Recording compute passes and running them on command buffers, as a library whose behaviour is stated
in contracts and proved with Verus.

* `src/` is the library. A pass is recorded with the functions in `pass` (also found under
  `compute_commands`) and run with `Global::command_encoder_run_compute_pass`. A run checks the
  commands of the pass one after the other and turns them into calls on a graphics backend, which it
  writes down as values (`raw`). Where the backend has to begin or to end a stretch of encoding, the
  run waits, and is resumed with the reply by `Global::resume_compute_pass`.
* `tests/` runs the library on concrete passes.
* `app/` drives a backend through the `Encoder` trait, gives errors their messages, and reads and
  writes recorded passes.

## Where to look

| Question | Module |
| --- | --- |
| What does each command do, and when does it fail? | `run` (`RunView`), `state`, `bind`, `track` |
| How does a run use its command buffer? | `global`, `command_buffer` |
| Is every call on the backend justified? | `warrant` |
| Does a dispatch find the right groups and pipeline? | `binding` |
| Are resources in the right state when they are used? | `barrier`, `usage` |
| Is a resource never used in ways that exclude each other? | `exclusion` |
| Are markers and queries properly nested? | `nesting` |
| Are push constants and discarded surfaces cleared? | `clearing`, `zeroing` |
| Are the objects of a pass kept alive? | `lifetime` |
| Does a pass hold what was asked for? | `history`, `pass` |
| Is what was recorded what is run? | `replay`, `transcript` |
| Does it matter whether labels are discarded? | `labels` |
| Which runs have an outcome at all? | `outcome`, `rehearsal` |
| What does a finished or failed run leave behind? | `progress` |
