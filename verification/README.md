# fzzx

A small, scriptable fuzzy picker for macOS: it reads newline-separated
choices from stdin, shows them in a borderless AppKit panel, and prints the
chosen one (or its zero-based index with `--index`) to stdout. Without
choices on stdin it is a prompt and prints the typed text. It exits with 0
after printing, 1 when cancelled, and 2 on invalid arguments, configuration
or input.

## Layout

- `src/` is the verified library, checked with Verus:
  - `text.rs`: characters, Unicode trimming, `str::lines`-style splitting,
    searching and decimal rendering;
  - `number.rs`: `usize` and float-literal syntax, and the exact comparison
    of a float literal with a decimal bound (the bounds are the points at
    which an `f64` reading rounds across 6, 96, 200 or to infinity);
  - `style.rs`: colors (`RRGGBB`/`RRGGBBAA`) and fonts (`family:size=N`);
  - `config.rs`: the options and the INI-style configuration file;
  - `cli.rs`: the command line (tokenized by `lexopt`) and how it combines
    with the configuration file;
  - `fuzzy.rs`: filtering and ranking the choices with `nucleo-matcher`;
  - `picker.rs`: the picker's state machine, what a row shows, the printed
    line and the exit status.
- `app/` is the program around it: arguments, environment, files, stdin and
  stdout, floating-point measurements, and the AppKit window.
- `tests/` runs the library on concrete inputs.

## Configuration

The default configuration path is `$XDG_CONFIG_HOME/fzzx/fzzx.ini`, falling
back to `~/.config/fzzx/fzzx.ini`. Sections are `[main]` (`font`, `prompt`,
`lines` from 1 to 8, `width` of at least 200) and `[colors]` (`background`,
`text`, `prompt`, `prompt-background`, `selection`, `selection-text`,
`match`); unknown sections or keys are errors. Every value has a
command-line override, which replaces only that value.
