# unterm

The logic behind a terminal and code editor that live inside another editor's windows,
written in [Verus](https://github.com/verus-lang/verus): executable Rust whose behaviour is
stated in contracts and proved.

## Layout

- `src/` is the verified library.
  - `text`, `sort`: splitting and joining texts, and a stable sort by line.
  - `diff`, `patch`, `gutter`: line diffs against git's HEAD and index, staging and
    unstaging of single hunks, and what the editor gutter draws.
  - `blob`, `fetch`: git blobs as texts and back, and which background fetch counts.
  - `keys`: key events as terminal byte sequences.
  - `markdown`, `transcript`, `selection`, `panel`, `session`: the agent panel.
  - `popup`: the completion popup.
  - `pty`: the shell command and its environment.
- `tests/` run the library with the real outside crates.
- `app/` is ordinary Rust around the library: git repositories, pseudo-terminals, the GPU
  and the platform's windows.

Calls into outside crates stand behind small functions whose contracts are believed, not
proved; the comment above each says what is claimed of it. Proof functions named `law_...`
state what holds of the library as a whole.
