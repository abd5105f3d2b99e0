# watchxy

The logic of a terminal `watch` tool, proved with Verus.

- `src/text.rs`: splitting, joining, trimming and substring search on the
  `Seq<char>` view of strings.
- `src/store.rs`: the runtime configuration, the command-line tokenizer, the
  commands-file format and the JSON form of a command list.
- `src/command_state.rs`: which command runs (the active one, or all), and how
  wake requests coalesce.
- `src/tab_picker.rs`: command titles and the case-insensitive title filter.
- `src/components/tab_picker.rs`: the tab picker as a state machine (actions in,
  effects out), the rows it lists, the highlighted pieces of a title, and the
  popup geometry.
- `src/runner.rs`: the executor's decisions: run ids, output diffs, waits.
- `app/`: the terminal side: the async executor loop, process execution, the
  session store interface, and drawing with ratatui.
