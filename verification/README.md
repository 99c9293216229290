# lib: command-line option parsing, verified

A `getopt`-style option parser written in Verus. Options are described with the
builders of `options::Options` (`optflag`, `optopt`, `reqopt`, ...), a command line
is parsed with `Options::parse`, and the resulting `matches::Matches` is queried
with `opt_present`, `opt_str`, `opt_strs`, `opt_default`, ...

Layout of `src/`:

- `text.rs`: UTF-8 widths, whitespace, small string helpers.
- `names.rs`: option names, option values, the `Fail` reasons, option lookup.
- `grammar.rs`: the meaning of parsing, as spec functions over words.
- `options.rs`: the option builders, the parser, the usage line.
- `matches.rs`: the parse result and its queries.
- `wrap.rs`: splitting help text into pieces of bounded length.
- `laws.rs`: properties proved of parsing and splitting.

`app/lib.rs` reads `OsStr` command lines and wraps `Fail` as a `std::error::Error`.
