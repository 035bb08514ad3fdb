# netwatch

A DNS-level network monitor for a small machine on a home network. It answers DNS
for the other devices, blocks the names that its lists hold, remembers answers,
learns which devices there are and what they are called, and shows all of it on a
dashboard.

## Layout

- `src/` is the library: everything that decides or computes, written in Verus. The
  contracts say what each function returns for every input, and Verus proves them.
- `app/` is the program around it: the command line, the sockets, the files, the
  database, the dashboard. It does what the library tells it to.
- `tests/` runs the library on concrete values.

## The library

| Module | Holds |
|---|---|
| `text`, `number`, `addr`, `table` | character sequences, numbers in text, addresses, association lists |
| `config` | the configuration, its defaults and when it is valid |
| `blocklist` | reading lists (hosts files, bare domains, rules of ad blockers), matching names, manual lists, the health of downloads |
| `dns::message` | DNS messages as plain values |
| `dns::acl` | who is served |
| `dns::cache` | answers that are kept, and for how long |
| `dns::reply` | building, fitting and framing replies |
| `dns::forward` | asking the upstreams in turn |
| `dns` | the resolver: what is done with a request |
| `devices`, `oui` | the devices on the network, their names and vendors |
| `netinfo`, `monitor` | what the kernel tells of the network, and samples of it |
| `db` | what is stored, and the statements that store and read it |
| `alerts` | what is reported, and how often |
| `api` | what the dashboard's parameters mean |

A public `proof fn` whose name is a sentence states a law that holds across
functions: `a_blocked_name_never_goes_upstream`, `what_was_taken_is_served_again`.

## What is not proved

Reading and writing the DNS wire format is left to `hickory-proto`, which also names
record types, words the reasons for which bytes hold no message, and draws the
identifier of a new query at random. Appending a character to a string, reading UTF-8
and quoting a string in an error message are left to the standard library, and the clock
to the system. Each such call stands behind one small item that says what is taken for
granted.
