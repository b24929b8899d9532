# sway

The topology and bookkeeping of Sway, a 2D procedural animation engine, as a
Verus-verified library, with the Bevy simulation around it.

- `src/` — the verified library:
  - `graph`: distance constraints, adjacency lists, connected bodies (groups)
    and their least-slot node;
  - `chains`: the chains the constraint solver straightens and the skin is
    drawn along;
  - `limbs`: limb chains of leg nodes, limb-set planning and upkeep;
  - `broadphase`, `cell`: the spatial hash grid of collision avoidance and
    its entries, ordered by cell;
  - `mesh`: index buffers of the editor's meshes;
  - `scene`: entities written as node-list places in scene files, and read back;
  - `editor`: selection, the edge tool, deletion, graph rebuilds, visual slots;
  - `steering`: the discrete decisions of an anchor's wandering;
  - `node`, `entity`, `order`: node kinds, entity identifiers (with the
    slot index read by Bevy), their order.
- `tests/` — tests of the library on concrete values.
- `app/` — the Bevy plugin: components, systems, floating-point physics
  (Verlet integration, FABRIK, steering, collision push), and scene files
  with serde.
