# suspense

The rules behind a workbench for prompting a coding harness against a project
and its Piton spec, verified with Verus.

- `src/` is the library. It reads shell commands and lays them out, works out
  the files a command or the harness refers to, writes and checks spec
  components, fills system prompts, folds the harness's reports into tasks and
  their output tables, keeps the prompt queue and the work of several projects
  apart, and holds the state of the panels, the ribbon and the theme. The
  contracts say what comes back; the properties that span functions stand as
  public proof functions, most of them at the end of a module.
- `app/` reads and saves the files those rules are about, keeps the user's
  choices, and measures in pixels.
- `tests/` runs the library on concrete values.

What is on disk reaches the library as a `Listing` of the paths it says it
needs, so everything in `src/` is a function of its arguments.
