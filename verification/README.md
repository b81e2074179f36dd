# Pairwise GSB

Assigns P and S arrivals to seismic events, locates the events and estimates
the clock offsets of the stations, for a small local network. The library in
`src/` is verified with Verus; `app/` is the service around it.

There are two solvers. The network solver works in the plane with a homogeneous
velocity model: it clusters P arrivals, tries each event with all its stations
and without each of them, and keeps the best three candidates of an event. The
window solver works with a layered model and depth: it links arrivals into
windows, fits each window from several starts, and ranks the fits by what they
are worth.

## Layout

| Part | Modules |
| --- | --- |
| Texts, numbers, order | `text`, `decimal`, `order`, `epoch`, `json`, `digest` |
| Window solver | `model`, `records`, `precheck`, `cluster`, `windows`, `planner`, `locator`, `geometry`, `mean`, `seeds`, `fits`, `solve`, `solver_types` |
| Network solver | `network`, `network_records`, `association`, `network_fit`, `shared_clocks`, `candidate`, `ranking`, `locks`, `outcomes` |
| Decisions of the numerical fits | `descent` |
| What holds of whole runs | `accounts`, `arrivals`, `repeatable`, `reports`, `agreement` |
| Store and service | `store`, `http`, `service`, `web`, `args` |

`tests/` holds the tests of the library. `app/` holds the program: arguments,
files, sockets, SQLite, the records with their JSON derives, and the numerical
fits.

## Numbers

The library holds coordinates, velocities, sigmas and residuals as billionths,
times as nanoseconds since 1970, and quantities that are only ordered as keys
that order as they do. The numerical fits run in floating point in `app/`; it
hands the library what they came to. A magnitude that is tested against a limit
is rounded away from zero first, and a number of a record never onto a limit or
past one. Means of times are kept as fractions; the middle of the stations and
the starts of the fits are rounded to the nearest billionth.

## What is proved

Each function states in its contract what it returns, for every input. Beyond
that, public proof functions state what holds of the whole: that the network
solver accepts each arrival or says why it does not, and never both; that
without locks the window solver rejects a pick or lists it in all three
candidates of one event; that equal input gives equal results, that locked
arrivals stay with their event, that an event keeps its best three candidates
in order, that a candidate without a fit has no coordinates, that a written
time reads back, and others; each has its statement above it. A pick that locks
leave alone in its window is neither located nor rejected: the window falls
away, and the pick with it.

What the library takes from `serde_json`, `sha2` and the standard library
without proof stands in small functions marked `external_body`, with the names
that the contracts use for their results.
