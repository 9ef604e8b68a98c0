# realgeopolitics

A real-time geopolitics simulation: countries with budgets, relations and
metrics, a game clock that drives a calendar and a task scheduler, scripted
events with trigger conditions, and an industry model of sectors.

`src/` is the verified library (Verus): the clock and calendar, the
scheduler, the simulation clock that ties them together, the condition
language of scripted events and their templates and cooldowns, sector ids,
catalogs and token resolution, the whole-number country rules (metric bounds,
credit ratings, unrest, relations between countries) and the command-line
parsing; and, for the browser games that come with the project, the tile
grid and key state of the platformer, the key state of the chase game and
the line, servers and counts of the queueing study. Each public function
carries a contract over mathematical models; laws that relate several calls
are public proof functions.

`app/` is the command-line program around it: reading the configuration
files, the floating-point parts of the economy (budgets, taxes, markets, the
industry runtime), and printing; and, under `app/arcade/`, the browser
games' canvas drawing and floating-point motion and clocks.

The program looks for `config/countries.json`, `config/events/` and
`config/industries/` next to where it runs.

The command line answers `help`/`?`, `overview`/`ov`, `inspect`/`show`,
`set`, `tick`, `speed`, `industry subsidize` and `quit`/`exit`. The turn-based
`plan` and `end` commands of the earlier version are gone: budgets are set
with `set` and time moves on with `tick`, and `plan` or `end` is answered as
an unknown command.
