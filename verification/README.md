# olivaw

Vendored, editable Rust components for robotics: `olivaw add sensors/mpu6050`
copies the driver's source into your project, records a sha256 of every file
it wrote, and later `update` and `check` use those records so that your
edits are never overwritten silently.

The decisions of the tool and the vendored drivers are a Verus-verified
library (`src/`); the command-line program around it (`app/`) reads and
writes files, talks to git and the terminal, and prints.

## Layout

| path | what |
| --- | --- |
| `src/project/` | `RelPath` (a destination that cannot leave the project), `olivaw.toml` records, append-only edits of the user's `Cargo.toml` |
| `src/registry.rs` | component ids, the registry index and its components, lookups with did-you-mean |
| `src/resolve.rs` | dependency resolution: dependencies first, cycles named |
| `src/install.rs` | what `add` plans: destinations, writes, checksums, conflicts |
| `src/drift.rs` | what `check` reports and what `update` does with each file |
| `src/templates.rs` | the `init` scaffold: template files, `{{project_name}}`, `.gitignore` |
| `src/listing.rs` | `list`: components grouped by category |
| `src/suggest.rs` | edit distance and "did you mean" |
| `src/led.rs`, `src/hcsr04.rs`, `src/mpu6050.rs`, `src/hal.rs` | drivers over the library's own pin, delay and I2C traits; each trait logs the calls made on it, and the drivers' contracts say what the pins, the delay and the bus receive |
| `src/rplidar.rs`, `src/slam.rs` | error types of the RPLIDAR parser and the SLAM components |
| `app/` | `main`, the subcommands, file and git I/O, `embedded-hal` adapters, unit conversions in floating point |

## Data

The bundled registry and the project templates are read at run time from
`$OLIVAW_DATA_DIR` (default `<exe dir>/../share/olivaw`), which holds
`registry/` and `templates/`. A git checkout of the registry at the pinned
tag, cached under `~/.olivaw/cache/registry/<tag>/`, takes precedence.
