# dependency-check-updates

Checks the dependencies of a project and updates them: `package.json`,
`Cargo.toml`, `pyproject.toml`, GitHub workflows, Dockerfiles and Compose files.

- `src/` is the library, verified with Verus: parsing manifests, selecting
  versions, planning updates, rewriting manifests, and rendering what the user
  sees. JSON manifests, workflows, Dockerfiles and Compose files are rewritten in
  place, and every byte outside the versions is proved to stay. TOML manifests
  are edited as documents: every other value stays as it is written, the keys and
  tables keep their order, and so do the white space and comments that the
  document records. How such a document is written as text is
  left to `toml_edit`.
- `app/` is the command around it: arguments, files and HTTP.
- `tests/` runs the library on concrete manifests and registries' answers.

Trusted are the calls into `node-semver`, `semver`, `pep440_rs`, `serde_json`,
`toml_edit` and `owo-colors`, and three functions of the standard library; each
has a doc comment that says what is taken on trust.
