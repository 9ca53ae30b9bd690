# regviz

A regular-expression visualizer whose decision logic is verified with Verus.

`src/` is the verified library:

- `automaton`, `sets`, `sim`: automaton models, epsilon closure and symbol moves.
- `simulation`, `highlight`, `summary`: step-by-step simulation traces of NFAs
  and DFAs, cursor movement, highlighted states and edges, and the text lines
  that describe the current step.
- `graph`: the nodes, edges and boxes drawn for a parse tree, an NFA or a DFA
  (labels, edge curvature, grouped DFA transitions, pinned positions).
- `layout`, `dfa_layout`, `tree_layout`: layout decisions - box hierarchy and
  drawing order, breadth-first columns of a DFA, depths and rows of a tree.
- `state`, `message`, `visibility`, `pins`, `text`: the application state and
  its reactions to user actions.

`app/` is the desktop front end (iced): widgets, canvas events, floating point
geometry and drawing, and the calls into the regex front end that parses
patterns and builds, determinises and minimises automata.

`tests/` exercises the library on concrete inputs.
