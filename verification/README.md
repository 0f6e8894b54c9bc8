# herdr-scratchpad

A scratchpad that lives in a pane beside the agents of a terminal tab: a text to
paste into, edit, copy, export, or hand to an agent of the same tab.

- `src/` is the library, verified with Verus: the text and its cursor (`buffer`),
  what is shown and where (`ui`, `width`), where the text is kept (`state`), the
  agents of the tab (`agents`), the messages to the server and its answers (`ipc`,
  `json`), the decisions of the launcher (`launch`), the clipboard sequence
  (`clipboard`), and the event machine of the pane (`app`).
- `app/` is the program around it: the terminal, the disk and the socket. It does
  what the event machine asks for and hands back what came of it.
- `tests/` runs the library on concrete values.

Four things are taken on trust, each at the place where it is called: what
`serde_json` reads and writes, the columns `unicode-width` gives a character, the
columns `ratatui` gives a line, and that `String::push` appends.
