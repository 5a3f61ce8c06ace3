# scc-lcd-daemon

Drives the front-panel LCD of the Minisforum AtomMan X7 Ti from Linux: streams processor,
graphics, memory, disk, fan, network and volume figures to the panel once a second, and
applies what its touch screen asks for (volume, performance mode).

The library under `src/` is verified with Verus; the program under `app/` does the I/O.

| module | what it decides |
|---|---|
| `frames` | the two framings of the serial line, and resynchronisation |
| `panel` | which touches make a request |
| `daemon` | the loop: when to look for the port, send, receive, pause and retry |
| `packets` | the packets of a cycle, from what was read of the machine |
| `ec` | the handshake with the vendor's embedded controller, and its sanity limits |
| `backend` | which graphics device is shown: NVIDIA, AMD, or the integrated one |
| `gpu` | the load of the busiest engine of the integrated graphics |
| `disk`, `sensors`, `host` | which disk, which sensors, which names |
| `procfs`, `volume`, `date`, `rates`, `serial`, `dump` | the files, tools and line settings around them |
| `binary64`, `percent`, `decimal` | double precision results in integer arithmetic |
| `text`, `numbers` | splitting, reading and writing text |

`scc-lcd-daemon --dump` prints what was found of the machine and one round of packets.
`SCC_LCD_PORT` points the daemon at another device.

A working NVIDIA card (`nvidia-smi`) is preferred over an AMD card (`amdgpu`), and either
over the integrated graphics. Weather on the date tile is not supported: the date packet has
the format `Date:YY/MM/DD;Time:HH:MM:SS;Week:D`, which carries none.
