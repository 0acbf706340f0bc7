# forge_core

The verified core of an editor's native plugin layer, written in Verus.

- `src/` is the library: LSP message framing and the values the LSP client
  derives from server replies (diagnostic texts and selection, locations,
  hover text, signature help, symbols, jump history, diagnostic
  navigation, completion triggers, and the session state of a language
  server: request ids, pending callbacks, the pre-initialization queue
  and shutdown), the LSP manager's decisions (workspace-edit plans with
  their edits in apply order, publishing diagnostics, semantic-token line
  updates, the navigation client, opening a location, the plugin's
  default settings), project search and replace (plain, regex and swap),
  the rows of the results view and the phases of the replace view, path and URI handling, columns, the
  minimap's line window, word wrapping and reflow, quoting, the keyboard
  macro recorder, and the decisions of the child-process and project
  file-list modules.  Each public function states its result in its
  contract; where the result comes from serde_json, PCRE2 or Unicode
  lower-casing, the contract states it through a named result of that
  call (`json_value`, `json_accepts`, `json_error`, `pcre_find`,
  `pcre_compiles`, `pcre_error`, `lowercase`, `path_stripped`).  The `pub proof fn` items state laws that
  hold across calls.
- `tests/` runs the library on concrete values.
- `app/` binds the library to Lua (mlua) and does the file, process, thread
  and drawing work around it.  It is capped in size, so it binds the
  transport, the client class, search, the project model, processes, the
  minimap, markdown preview, quoting, reflow and the macro recorder; the
  LSP manager and plugin, the replace view and the `core.process` and
  `core.project` Lua modules are not bound there.
