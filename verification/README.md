# pbs

The routing logic of PBS, a virtual PipeWire microphone that mixes a physical
microphone with the output of a chosen application, written in Verus.

- `src/` is the verified library:
  - `text`: the std string functions the logic relies on (lowercasing,
    alphanumeric test, `u32` parsing) and verified character searches;
  - `channel`: the channel (left, right, mono) of a port, from its name;
  - `links`: which output ports to link to which input ports, with laws
    on channels and on the all-to-all fallback;
  - `dump`: reading `pw-dump` objects into nodes, ports, links and the
    default sink;
  - `config`: the routing settings and their defaults;
  - `plan`: one round of the routing loop (create or destroy the virtual
    microphone, or report and link), with laws on the links it plans.
- `app/` is the program around it: process calls, the configuration file,
  JSON parsing of `pw-dump` output, the tray icon and the web dashboard.
- `tests/` runs the library on concrete graphs.
