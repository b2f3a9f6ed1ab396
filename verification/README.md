# gitv

A Git history viewer. The library lays out the commit graph and is verified
with Verus; the program around it reads the repository and shows the window.

- `src/graph.rs` — the graph's data types, `first_free_lane` and
  `position_commits` (lane assignment, edges, rows).
- `src/layout.rs` — the mathematical model of the layout that the contracts
  speak of: lane states, the placing of one commit, edges.
- `src/laws.rs` — properties of the layout, proved over that model.
- `src/walk.rs` — reference labels and the building of commit nodes from what
  was read from the repository.
- `src/ui.rs` — the view state and the commit-time text.
- `src/canvas.rs` — the decisions of the graph canvas (row under a click,
  selected commit, lane colour index).
- `app/` — the program: argument parsing, reading the repository with git2,
  and the iced window.
