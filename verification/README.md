# jos_core

The pure-logic core of a capability microkernel, written in Verus: what is under
`src/` is executable Rust whose behaviour is stated as `requires` / `ensures`
contracts over a mathematical model and proved. Shown by test instead is the order
in which `for_each` and `for_each_in_subtree` visit capabilities and in which a
dropped `RingBuffer` drops its elements.

| Module | What it holds |
|--------|---------------|
| `cap_rights`, `cap_table`, `cap_space` | rights, generation-checked capability tables, derivation and revocation |
| `endpoint`, `notification`, `run_queue`, `ring_buffer` | IPC rendezvous, badges, the scheduler's ready queue |
| `clock`, `timer` | deadline arithmetic and deadline-ordered wakeups |
| `untyped`, `placement`, `bitmap`, `frame_allocator` | memory carved from untyped regions and page frames |
| `page_table`, `pte` | virtual-address and page-table-entry arithmetic |
| `rng`, `fault`, `trace` | deterministic simulation: seeded randomness, fault injection, record and replay |
| `trace::codec` | trace events as `postcard` bytes, COBS-framed |
| `counting` | the counting lemmas that the occupancy invariants share |

Properties that relate several operations (a removed reference stays dead, a
minted capability never gains rights, messages are conserved, timers fire in
deadline order, a replayed log reconstructs the space) stand in their modules as
public proof functions.

What is not proved is declared where it is used, with a doc comment that says what
is believed: the four calls into `postcard` in `trace::codec`, and
`core::array::from_fn` in `cap_table`.

`tests/` runs the library on concrete values and under seeded simulations. `app/`
is ordinary Rust around it: typed placement over raw memory, and a serializable
form of the syscall record.
