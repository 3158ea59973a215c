# Moet

A GTK4 terminal that pairs an embedded shell with an interactive,
directory-aware listing. This crate holds its logic as a library verified with
Verus; the windows, files and sockets around it are in `app/`.

| Module | What it decides |
| --- | --- |
| `cli` | what the arguments ask for |
| `config` | what the configuration file sets, and what it warns of |
| `startup` | what the path argument leads to before a window opens |
| `classify`, `listing`, `menu` | which entries are shown, in what order, with which labels, in what grid |
| `handlers` | what opening an entry does |
| `shell_inject` | what is typed into the shell, and when the prompt is restored |
| `input` | what keys, the pointer and dragged files do |
| `ipc` | what a session answers on its socket, and what a joining one takes over |
| `watcher` | which file system events count |
| `state` | the state of a session |
| `text`, `paths` | strings and Unix paths |

Each function states in its contract what it returns. What holds of several
functions together stands as a proof function whose name begins with `law_`.
What is taken from `std`, `regex` and `toml` without proof is marked
`external_body` or `assume_specification` and says what it takes for granted.

## Usage

```bash
moet [PATH]                       # PATH may be a directory or a file
moet --ls [PATH]                  # print the labelled listing to stdout, then exit
moet --join-session SOCKET        # attach to a running session's IPC socket
                                  # and inherit its current directory
moet -h | --help                  # print help
```

The configuration file is `~/.config/moet/moet.conf`, in TOML.
