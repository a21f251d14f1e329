# at_runner

The verified core of AT Runner, a gRPC service that runs Acoustics Toolbox
executables (kraken, field, bellhop, ...) for remote clients, together with
its client library and its test sweep.

`src/` holds the logic, each function with a contract proved by Verus:

- `validation`, `config`, `service`: the rules on names that become paths,
  the executable allowlist, the checks of `Run`/`RunSync` requests and the
  layout of run directories.
- `pipeline`, `scheduler`, `counting`: validation of pipeline requests into a
  dependency graph (cycle detection included) and the scheduler that runs it:
  steps start once their dependencies completed, are skipped when one failed,
  and time out with the pipeline.
- `executor`, `status`: the decisions of a model run (output pipes, exit
  status, timeouts), output-file detection and the `RunSync` size limit.
- `chunks`, `workspace`, `session`: the chunking of files on the wire, the
  upload protocol, workspace listings and request ids.
- `client`, `assemble`, `strmap`: the client side: pipeline steps, and the
  gathering of the `Run` and `RunPipeline` streams into results.
- `sweep`: test-case discovery, tiers and verdicts of the test sweep.

`app/` is the program around it: the gRPC wiring (tonic), process spawning
and file I/O (tokio), the command line (clap), and `at-runner sweep`.
`tests/` exercises the library.
