# tool_runtime

The builtin tools of a coding agent, verified with Verus. The library decides
and renders; files, processes, the environment and the clock belong to its
caller.

- `src/` is the verified library. Each tool has a module: `fs_read`, `fs_list`,
  `fs_write`, `edit`, `patch`, `git`, `artifact`, `symbols`, `diagnostics` and
  `context`. `registry` and `capability` hold the catalog of tools and its
  lifecycle, `host_policies`, `attribution` and `facts` what the host has to know of
  a call, `supervision` the ledger of child processes and `python` the search for
  an interpreter. `text`, `order`, `matching`, `echo`, `page`, `cursor`, `view`,
  `classify` and `outcome` are shared by them.
- `src/outside.rs` holds the calls into other crates and into parts of the
  standard library, each with a contract that is believed, not proved.
- `tests/` runs the library on concrete values.
- `app/` is ordinary Rust around the library: it reads and writes files, runs
  processes and turns JSON into the library's types.

Public proof functions whose names begin with `law_` state what holds of a
module as a whole.
