# vgc_netwatch

Watches the network activity of `vgc.exe` on Windows: every TCP and UDP connection
that the process opens, how it changes, how long it lasted and what it carried. It
only reads what the system exposes.

- `src/` is the library, verified with Verus: the monitor as a state machine that
  tells what to do next and is told what came of it. `monitor` is the executable
  machine, `model` its mathematical counterpart; `tables`, `process`, `sessions`,
  `active`, `dns`, `clock`, `net`, `text` and `event` are the parts it is made of.
  `laws`, `rounds`, `polls` and `histories` state and prove what holds over many steps.
- `tests/` runs the library on concrete values.
- `app/` is the program: it performs the actions, by calls into Windows and into the
  logging crates.

## Output

| Target | Format |
|---|---|
| Console | Pretty, colored |
| `vgc_monitor.log` | Plain text |
| `vgc_detailed.log` | JSON, one event per line |

`RUST_LOG` sets the level; the default is `info`, and `debug` shows TCP state changes
too.
