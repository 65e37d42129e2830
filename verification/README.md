# dorobot-nexus core

The text formats and decisions of the dorobot-nexus training console, written
in Verus with their contracts proved.

- `src/` — the library. The headless JSON stream and its records, the scene
  and recording files, checkpoint manifests, zealot's metric stream, the
  MuJoCo harness's output, the studio's workspace wiring, the probe's
  scrubber, and the run labels. Quantities that are floating point cross into
  the library as the text they are written as.
- `tests/` — tests of the library on concrete values.
- `app/` — the console's command line: file and process I/O, float rendering
  and parsing, and the run statistics, around the library.

Proved laws include: escaping a JSON string loses nothing; every record is one
line; a written scene, recording or checkpoint manifest reads back field by
field; a slug cannot leave the library directory; a seed label reads back as
its seed; the scrubber never leaves the recording; a JSON object lists one
member per builder call, in call order; lines of other output around the
MuJoCo harness's report change nothing that is read from it.

What the command line here does not carry: the in-process CPU learner and its
simulation (the policy, the vectorised environments, the robustness sweep,
the probe's physics and the curriculum driver), which are floating-point
engines. `--headless` therefore runs on zealot only and stops with an error
when no zealot binary is built, instead of falling back to the CPU trainer;
`--probe`, `--track-check`, `--sweep` and `--curriculum` stop with a message
saying so; and `--crosssim` runs the MuJoCo arm alone, reporting the other
arm and the gap between them as `null`. The window and its screens are not
carried either.
