# phyto_fsm

Finite state machines from PlantUML state diagrams, with the library verified by Verus.

A diagram is read into elements (`diagram`), its transition labels and state descriptions
are read (`labels`), sub-machines that `state X : SubName` references name are spliced in
(`submachine`), and the elements become a plan of builder operations (`plan`,
`parser`). The builder (`builder`) checks the machine (`validation`), hands exits of
substates on to their parents and lets substates inherit deferred events (`inheritance`),
and links each composite state to its deepest initial substate (`enter`). The built machine
(`fsm`) offers read-only views of its states and transitions; `extract` lists the events,
actions and guards a code generator needs, and `naming` renders the names of the generated
items from a template, refusing only the template values TinyTemplate's compiler would
panic on (`template_scan`). `laws` states, and proves, what every built machine satisfies.

Layout:

- `src/` — the verified library. Every public function has a contract over the
  mathematical views of its types; the calls into `indextree`, `tinytemplate` and `heck`
  stand behind small trusted wrappers.
- `tests/` — tests on concrete values.
- `app/` — the code generator around the library: reading the macro options and the
  diagram files, and emitting the FSM's Rust code with `quote`.
