# timefork

A copy-on-write time machine for coding agent workspaces: checkpoint the whole
workspace before every tool call, rewind to any checkpoint, compare any two, and
fork them into independent directories.

The rules of the tool are a Verus library under `src/`. Each operation is worked
out as a list of actions (`action`), or step by step (`clone`, `walk`, the search
for the store in `store`), with a contract that says exactly what comes out. The
program under `app/` carries the actions out: it reads and writes files, clones,
renames, takes the lock, and parses the command line.

| modules | what lives there |
|---|---|
| `text`, `number`, `label`, `clock`, `path`, `order` | texts, numbers, ages, paths and their order |
| `json` | JSON values, read and written by `serde_json` |
| `store`, `journal`, `git` | the layout of the store, its journal and numbers, git's head and exclude list |
| `clone`, `walk`, `listing`, `diff` | cloning a tree, walking through one, comparing two |
| `ops`, `fork`, `prune`, `tree_ref` | checkpoints, restores, forks and prunes |
| `hook`, `settings` | what the agent's hook is told, and how it is installed |
| `report`, `error` | what is printed |
| `disk`, `action`, `effect`, `place` | a model of the disk, and what actions make of it |
| `clone_law`, `copy_law`, `walk_law`, `snap_law`, `restore_law`, `fork_law`, `prune_law`, `step_law`, `diff_law` | the laws |

The laws are public proof functions. Among them: a checkpoint holds the workspace
as it was (`snap_saves_the_workspace`), a restore makes the workspace what the
checkpoint holds (`restore_brings_back`) and can be undone
(`restore_can_be_undone`), a fork holds its source and no store
(`fork_holds_its_source`), nothing outside the store, the fork or the restored
workspace is touched, and what is broken off between two steps loses nothing
(`broken_off_snap_records_what_is_there`, `broken_off_restore_keeps_the_trash`).

Which agent the hooks are for is set by the environment: `TIMEFORK_AGENT` is the
command that starts it, without which `install-hooks` has nowhere to go, and
`TIMEFORK_AGENT_NAME` what it is called, if that is another word. The settings of
the agent `x` are in `.x/settings.json` in the workspace.
