# disktracker

A tracker of disk usage. It scans directory trees, stores snapshots of them, tells what
grew between two snapshots and why, keeps a log of the changes of a volume, searches and
ranks what it knows, and answers questions through an agent.

The logic is a library that is verified with Verus. Every function states in its contract
what it returns or changes, over plain mathematical values.

## Layout

- `src/` is the library.
  - Scans: `arena`, `identity`, `scan`, `serial`, `parallel`, `warm`, and `agreement`
    and `same_dirs`, which show that every way of scanning a tree reports the same totals
    and the same directories.
  - Snapshots: `store`, `records`, `size_diff`, `explain`, `prune`, `mutations`, `events`,
    `commands`.
  - Volumes: `model`, `facts`, `ancestry`, `drain`, `snapshots`, `snapshot_diff`, `history`,
    `mutation_filter`, `search`, `top`, `top_request`, `top_interval`.
  - The daemon and the agent: `rpc`, `config`, `agent`, `agent_calls`, `agent_service`,
    `agent_tools`.
  - Words and numbers: `text`, `decimal`, `base64`, `calendar`, `moments`, `order`, `sums`,
    `lookup`, `report`, `tree`, `bench`.
- `tests/` runs the library on concrete values.
- `app/` is the program around it: the command line, directories and databases, the search
  index, the daemon's socket, and the network.

## Laws

A public proof function whose name begins with `law_` states something that holds of
several functions together or of every state, such as that entering a directory loses
nothing that was found before.

## What is taken on trust

Calls of `chrono`, `urlencoding` and a few functions of the standard library stand behind
small wrappers whose contracts are not proved. Each says which function it calls and what
it claims of it. A result that takes long to describe, such as what a text is in lower
case, is only named.
