# roomba

Sweeps up after Bazel: finds the output bases that nobody can possibly want, and the
repository-cache entries that nobody has read in a while, and removes them. Nothing it
removes is precious; it all rebuilds.

```sh
roomba scan            # census; deletes nothing
roomba sweep           # dry run: what would go
roomba sweep --apply   # actually do it
```

`src/` is the library, verified with Verus. It decides what goes and in which order, and touches
no disk: a sweep, a removal or a census names what it needs done next, is fed the answer, and
ends in a result. `app/` is the command line and the calls themselves.

| module | what it holds |
| --- | --- |
| `paths` | Unix paths as bytes: joining, final names, parents, and what lies inside what |
| `layout` | what counts as an output base, whose it is, and when it was last used |
| `liveness` | whether a Bazel server is using a base |
| `policy` | the verdict on a base, and the reason for it |
| `disk` | the calls that a sweep asks for, and their answers |
| `reaper`, `reaper_laws`, `failure_laws` | removing trees and files and counting what that frees; what holds of every removal |
| `cas`, `cas_laws` | the census of the repository cache; what holds of every census |
| `sweep`, `sweep_laws` | a whole sweep: what it takes in which order, its totals and exit code; what holds of every one |
| `report` | what a scan and a sweep print |
| `order`, `text`, `util` | stable sorting, numbers and trimming, times and spans |

Times are whole nanoseconds and spans of hours are decimal numbers, so an age is compared with
a cutoff exactly, and an age or a size is rounded from the exact quotient.

The proofs take three things on trust: `std::str::from_utf8`, and the values of
`libc::S_IWUSR` and `libc::ESRCH`.
