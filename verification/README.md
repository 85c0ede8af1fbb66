# simple_scpi

A lightweight SCPI (Standard Commands for Programmable Instruments) command
parser, verified with Verus.

An instrument's command set is a table of pattern strings and handlers. The
library parses input lines against it, with short and long keyword forms, numeric
suffixes, optional nodes and compound commands, and every function states in its
contract what it returns for every input that it admits.

| Syntax | Meaning |
|--------|---------|
| `SYSTem` | A keyword: upper case is the required short form, the full word is the long form. Matches `SYST`, `SYSTE` and `SYSTEM`, in any case. |
| `:` | Separates keywords. |
| `#` | Numeric suffix of a keyword, 1 where it is left out: `SOURce#` matches `SOUR`, `SOURC2` and `SOURCE2`. |
| `[...]` | Optional node, such as `[:LEVel]`. |
| `?` | Query. |
| `num` | Numeric parameter: a decimal literal, or a `#H`, `#Q` or `#B` literal, with an optional unit. |
| `bool` | `ON`, `OFF`, `1` or `0`. |
| `str` | A string, quoted or not. |

Commands on one line are separated by `;`. A command continues from the position
in the command tree that the one before it left, and is looked up at the root
where it is not found there; a leading `:` resets to the root.

## Layout

- `src/pattern.rs`: compiling patterns.
- `src/line.rs`: splitting lines into commands, and commands into keywords.
- `src/matching.rs`: matching keywords against a compiled pattern.
- `src/number.rs`, `src/param.rs`: parameter values.
- `src/command.rs`: command sets, parsing and dispatch.
- `src/laws/`: what holds of the library as a whole.
- `src/text.rs`, `src/error.rs`: strings and errors.
- `app/`: floating-point values, standard error traits and a demonstration.
- `tests/`: tests on concrete values.

A numeric parameter is an integer or the text of a decimal literal. The library
decides which texts are literals; `app/value.rs` turns them into `f64`.
