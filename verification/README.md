# firmware_sim

Deterministic checks behind a simulator for STM32 firmware. A board is
described by a JSON layout beside its ELF files and packaged images; the
simulator validates them, runs the firmware in Renode, models updates and
faults, and reports what it saw. Several boards can be linked into one bay,
and host programs can join its serial links.

`src/` is a library that Verus verifies. It holds the rules: what layouts,
images and topologies are accepted and with which message they are refused,
what the emulator is told, what its output means, when a run is waited for,
stopped or failed, how an interrupted update boots, how the Pico-Fi bridge
queues and translates packets, and what the reports say. Contracts are stated over spec functions; laws that span several
functions are public proof functions whose names begin with `law_`.

| Modules | Subject |
| --- | --- |
| `architecture`, `layout`, `machine`, `security`, `simulator` | parts, layouts and their validation; the simulation report |
| `elf` | segment placement, reset vectors and flash images |
| `flash`, `update` | flash rules and the interruption matrix of an update |
| `pool`, `traffic`, `peripherals` | behavioral models |
| `overlay`, `platform`, `script` | what the emulator loads and executes |
| `output`, `probes`, `execution`, `campaign` | what its output shows, and the runs with power cuts |
| `bay`, `certify`, `roster`, `pico` | linked boards and host programs |
| `supervise` | what ends a run |
| `report`, `debug`, `text`, `arith`, `double` | reports, diagnostics and helpers |

`app/` is the command line program around the library: arguments, files, JSON,
the Renode process, terminals and sockets. It looks at what happened, asks the
library what follows, and does it; what it still settles by itself is where
files and programs are found and how long it waits on a socket. The MCU
catalog, the Renode platforms and the peripheral models are read below
`FIRMWARE_SIM_ROOT`.

What is not proved: the SHA-256 digest (`sha2`), how Rust shows a text with
`{:?}`, and that `String::push` appends a character.
