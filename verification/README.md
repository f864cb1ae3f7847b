# simulation

The discrete rules of a planned-economy city simulation, with their
contracts proved by Verus.

- `src/` is the verified library: clocks and tick stages, households and
  the housing office, labour, needs cadence, freight dispatch and the truck
  trip machine, route requests and the packed road graph, the road graph
  with its edits, route search, transit lines and commute trips,
  construction phases and the machine fleet, utility nets, zoning, the
  state plan's calendar, and the save format's codes and reference tables.
  Public proof functions named `law_*` state properties that span calls.
- `tests/` exercises the library on concrete values.
- `app/` is the engine-facing side: the Bevy clock driver and schedule
  layout, the save file, and everything that works in fractional
  quantities (positions, curves, tonnages, scores), which calls into the
  library for every discrete decision.
