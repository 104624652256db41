# egress-resolver

Keeps a host's production egress allowlist and a container's hosts file in sync
with a list of hostnames.

* `resolve` asks pinned resolvers over DNS-over-TLS for the `A` records of every
  configured name and writes `answers.json`.
* `apply` reads the answers and the two dynamic iptables chains back from the
  kernel, computes the new allowlist, installs it in one batch, verifies it,
  publishes the hosts file, sweeps conntrack and writes `status.json` and a
  Prometheus textfile.

## Layout

`src/` is the verified library. Contracts are stated over plain sequences, maps
and small view types.

| Modules | Contents |
|---|---|
| `text`, `number`, `addr`, `secs`, `order`, `name_set`, `addr_map` | values: text, numbers, IPv4 addresses, times, ordered collections |
| `config`, `validate`, `dns`, `resolve`, `answers` | settings, address ranges, judging DNS answers, one run over the resolvers |
| `exec`, `fake`, `iptables`, `plan`, `conntrack`, `hosts` | commands, the two chains, the plan, the sweep, the hosts file |
| `apply`, `run`, `fresh`, `status`, `cli`, `sysutil` | the steps of a reconciliation pass, the pass in stages, its report, the command line, host files |
| `names`, `accept`, `round_trip`, `policy`, `pass`, `repeat`, `metrics` | laws that relate several functions |

`app/` is the program around it: arguments, files, processes, serialisation and
the network. `tests/` runs the library.

## What is taken on trust

* `String::push` and the `Debug` form of a string, in `text`;
* `Name::from_ascii` and the `Debug` form of a response code of the DNS library,
  in `dns`;
* `ServerName::try_from` of the TLS library, in `resolve`.

Each of these items says in its doc comment what is claimed. An implementation
of `exec::Exec` is trusted to report every command with its reply.

Times are floating-point seconds. The library compares them by their bits; what
takes floating-point arithmetic or printing (the age of the answers, the texts
of times) is handed to it by `app/`.
