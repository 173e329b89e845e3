# carrot_utils

Small command-line text tools, with their logic verified by Verus.

| tool     | what it does                                                        |
|----------|---------------------------------------------------------------------|
| `case`   | converts a text to upper or lower case                              |
| `col`    | lays the words of a text out in columns that fit a width            |
| `count`  | numbers the lines of a text, counts its lines and its characters    |
| `cut`    | reads how a text is to be cut and reports the text                  |
| `seek`   | follows a growing file and prints each line that is added           |
| `shrink` | breaks a text into rows of a fixed number of characters             |
| `split`  | copies piped input to the terminal and to files                     |
| `tr`     | prints lines or characters from the start or the end of a text      |

Layout:

- `src/` is the verified library. `src/text.rs` holds what the tools share:
  lines as `str::lines` yields them, words as `str::split_whitespace`
  yields them, UTF-8 widths, decimal numbers and the reading of unsigned
  numbers. Each tool has a module of its own with its computation and the
  checking of its command line; the contracts are stated over `Seq<char>`
  views, and the modules hold the proved properties of each tool.
- `app/` is the binary: it reads the command line and the files, calls the
  library and prints. The binary picks the tool by the name it is called by.
- `tests/` runs the library on concrete texts.
