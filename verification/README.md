# esperto

The Esperto input system: key combinations resolved from modifier groups.
A configuration declares modifier groups (sets of keys, optionally masking)
and action keys (an unmodified action plus actions modified by groups).
`ComboHandler` turns input key events into output events, choosing for each
action key the combo of the largest active group that nothing contends with.

The library is written in Verus. Every function in `src/` is verified
against its contract, except the small wrappers in `src/combo/sets.rs`,
whose contracts are assumed: each calls one method of `frozen-collections`
or `tinyset` and states what that method's documentation and source show.

- `src/types.rs`: input and output events.
- `src/config.rs`: the configuration types.
- `src/combo/mod.rs`: `ComboHandler`, its invariant, and the contract of
  `handle`: an event is first counted in the groups (closing the combos of
  the groups it shadows or deactivates), then the key itself is settled.
- `src/combo/layout.rs`: the precomputation done by `ComboHandler::with`
  (group order, greatest subgroups, intersections, key tables, combo order).
- `src/combo/types.rs`: groups, keys, combos, ranges and the output queue.
- `src/combo/counting.rs`: counting lemmas used by the invariant.
- `src/combo/sets.rs`: the specifications assumed of `frozen-collections`
  and `tinyset`, which hold the keycode map and the index sets.
