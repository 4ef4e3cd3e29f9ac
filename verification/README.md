# goro

The logic of Goro, a review app for the git changes that coding agents write: diffs and patches,
the rows of a review, staging, discarding and undoing, recorded turns, agent hooks, comments, and
the state of a window.

- `src/` is the library. Every function states what it returns or changes, and Verus proves it.
  The proof functions named `law_*` state what holds across functions. Calls into other crates
  stand behind a few wrappers whose doc comments say what is taken on trust.
- `tests/` runs the library on concrete values.
- `app/` is the program around it: arguments, files, git, sockets, and drawing.

Functions that need git or the file system do not touch either. They take the replies received so
far and return the next call to make, an error, or the result (`calls::Step`); the program makes
the call and asks again.
