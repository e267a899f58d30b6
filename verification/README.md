# runseal

Runs a command in the [nono](https://nono.sh) sandbox under a policy that grants it no more than it
needs, with the credentials it uses sealed away from it.

- `src/` is the library, written in Verus. All decisions are taken here: what a policy asks for,
  which profile of a repository is accepted, where credentials go and which environment is left,
  what the generated profile says, how the sandbox is started, which audit sessions are exported,
  and in which order all this is done. Each function carries a contract, and the laws of the library
  (such as: a relative path never leads out of the workspace, and no secret reaches the command's
  environment) stand beside the functions as public proof functions.
- `app/` is the program around it: the environment, the file system, processes, and serde's view of
  the types that are read from YAML or written as JSON.
- `tests/` runs the library on concrete values, with files and processes played by the tests.

What is believed without proof is small: two wrappers in `encoding` for the UTF-8 decoding of the
standard library, and the wrappers in `json` for `serde_json`.
