# tcp-brutal-auto

Adds TCP Brutal rules for peers while their connections are still shaking hands, so that the very
first connection is under the rule. The decisions are a Verus library; a small program around it
reads, writes and waits.

## Layout

- `src/text.rs`, `src/number.rs`: characters, words, lines and numerals.
- `src/addr.rs`, `src/addr_text.rs`, `src/roundtrip.rs`: addresses, their families and special
  ranges, how they are read and written, and that what is written reads back.
- `src/ranges.rs`, `src/prefix.rs`, `src/addr_set.rs`: closed ranges, network prefixes and sets of
  addresses.
- `src/whitelist.rs`, `src/config.rs`: the list of networks and the settings.
- `src/proc.rs`, `src/trace.rs`, `src/conntrack.rs`: where peers show up.
- `src/local.rs`: the addresses and networks of this host.
- `src/rules.rs`, `src/report.rs`, `src/clock.rs`, `src/paths.rs`: the kernel's table of rules, log
  lines, times and places.
- `src/engine.rs`: what is done about a peer, and what is remembered of it.
- `src/history.rs`: what holds of the rules after any number of events.
- `app/`: the program.

## What is proved

Every function of the library states what it returns, or changes, for every input that it admits.
A few ask that their input be in order: that ranges are proper or canonical, that the lengths of
prefixes fit their families, that a base lies between 2 and 16, that a count fits. On top of that,
proof functions whose names begin with `law_` state what holds across functions: among others that
only rules written here are ever deleted, that rules found at the start are left alone, that a dry
run touches nothing, that addresses of this host never get rules, and that a list in force decides
who does.

The one thing taken on trust is what `String::push` does.
