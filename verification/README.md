# grep_match

The line matcher of a `grep`: given the patterns and settings of a search, it
decides which lines are wanted and which parts of them to highlight. The library
is written in Verus, and what it promises is stated in contracts and proved.

## Layout

- `src/` is the verified library.
  - `config`, `error`, `engine`: the settings, what can go wrong, and what the
    matcher asks of a pattern engine.
  - `matcher`: compiling the patterns and deciding on a line (`Matcher`).
  - `merge`, `listing`, `finite`: the matches of several patterns in one line,
    merged in order, and why the list ends.
  - `literal`, `literal_engine`, `finder`: patterns that stand for themselves,
    an engine for them, and the substring search of `memchr` that it rests on.
  - `repeat`, `onig_engine`, `oniguruma`: the engine for regular expressions, and
    the calls into `onig` that it rests on.
  - `laws`, `order_laws`, `set_laws`, `alike_laws`, `literal_laws`, `onig_laws`,
    `compiled_laws`: what holds of the library as a whole.
- `app/` wraps the library for the `grep` program: warnings, exit status, panics.
- `tests/` runs both engines on concrete lines.

## Failures

`Matcher::match_line` and `Matcher::is_match` are for lines on which the engine
does not fail; that is what they require. `try_match_line` and `try_is_match`
take any line and return the failure.

## Lines that are not UTF-8

Plain patterns are found by their bytes in every line. For other patterns a line
that ends within a character is searched as if zero bytes followed it, for
Oniguruma reads on behind it. Lines of 2 GiB and more are refused.

## Ignoring case

Oniguruma takes its flags for case folding from a default of the process. With
the default as it comes, `ss` matches `ß` where case is ignored. `app/` sets the
default to what `case_fold_flags` says while it compiles, so that one character
folds to one character.
