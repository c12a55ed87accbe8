# pocketstream-network

The network side of a camera console: it listens for ARP on the wired port, keeps a
registry of devices, joins foreign subnets by binding an address on them, and leaves them
again when they have gone quiet.

`src/` is the library. It is written in Verus: every function says in its contract what it
returns, and the properties that relate several functions are stated as `law_*` proof
functions. It performs no I/O. Where work outside and decisions alternate, a type such as
`AdoptTask`, `AdoptRun` or `ProbePass` asks for one piece of work at a time and is told
how it went.

| Modules | Subject |
| --- | --- |
| `text`, `bytes`, `textmap`, `time`, `wall`, `json`, `net`, `error` | texts, bytes, clocks, JSON, addresses and blocks |
| `interface`, `watcher`, `ghost` | adapters, the camera port, subnets of other adapters |
| `pktmon`, `capture`, `arp`, `neighbors`, `sightings` | capture and neighbor table |
| `device_registry`, `config`, `ping_dot`, `scanner` | devices, pins, reachability, scans |
| `auto_adopt`, `adopt_run`, `dwell`, `discovery`, `adopt_task`, `cache_probe`, `probe_pass` | adopting subnets |
| `reaper`, `lifecycle`, `adoptions`, `session` | keeping, showing, restoring and giving up adoptions |
| `command`, `ip_config`, `adapter_refresh`, `firewall` | commands of the system |

`app/` runs the library: processes, sockets, the packet monitor, tasks and locks. `tests/`
holds the tests of the library.
