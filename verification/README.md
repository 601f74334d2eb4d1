# bevy_dioxus

Applies the mutations that a Dioxus virtual DOM emits to a Bevy world of UI
entities, with the bookkeeping between element ids and entities, the node
stack, template registration and the entity hierarchy proved in Verus.

Layout:

- `src/world.rs`: the mathematical model of the Bevy world (live entities,
  parents, ordered children, text) and the wrappers around the Bevy calls that
  change it.
- `src/registry.rs`: the element/entity maps and the template registry.
- `src/template.rs`: templates, the check that a template only uses the
  supported Bevy UI tags, and its conversion into spawnable Bevy nodes.
- `src/spawn.rs`: spawning a template node and its whole subtree.
- `src/applier.rs`: `MutationApplier`, one method per mutation, each with an
  exact contract over the model.
- `src/laws.rs`: the properties that span operations (the two maps stay
  inverse, the hierarchy stays consistent, removal despawns the subtree, ...).
- `app/`: the `WriteMutations` implementation that drives the applier from a
  Dioxus renderer, checks each precondition before the call, and queries the
  host for attributes and event listeners.
