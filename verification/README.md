# cloudstate

The core of Cloudstate, a JavaScript database runtime, written in Verus with
its behaviour stated in contracts and proved.

`src/` is the verified library:

- `cloudstate`, `table`, `key_order`: the stored values, the keys and values of
  the roots, objects, maps, arrays and blobs tables, the order of map and array
  keys, and tables as sequences of entries with the edits made to them.
- `ops`: what each JavaScript op computes from the entries it reads: the value
  handed back and the edits made.
- `gc`: mark-and-sweep garbage collection, with the laws that it deletes
  exactly what no root reaches and that a second collection deletes nothing.
- `js_value`: how stored values become JavaScript values and back.
- `blob_storage`, `transaction`, `js_spans`, `permissions`, `module_loader`,
  `runner`: blob engines, the transaction lifecycle of a script run, tracing
  spans, permissions and the module loader's state.
- `request`, `execution`, `cli`: the scripts that the server builds for HTTP
  requests, how a script file is cut into sources, and the decisions of the
  command-line tool.

`app/` is the command-line tool around the library: it reads and writes the
redb database file for the `gc` and `backup` commands and draws the backup's
progress bars.
