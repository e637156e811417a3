# cvar_patch

Finds the console variable registry of a running game and removes the flag
that hides development-only variables and commands.

`src/` is a library verified with Verus. It does no I/O: it says which bytes of
the game's memory to fetch or store, and takes what came back.

- `plain`: values as they lie in memory, little-endian integers
- `remote`: requests for bytes of another process, and a copied chunk of it
- `cvar`: the layout of the registry and its linked lists
- `snapshot`: the choice of a process or module from a system snapshot
- `image`: the way from the export table of tier0.dll to the registry
- `patch`: the conversation with the game that removes the flag
- `process`: a model of the game's memory, and what a patch does to it
- `refusal`: what a patch has done by the time that a request is refused
- `error`: error codes of the system

`app/` is the program around it: system calls and messages.
