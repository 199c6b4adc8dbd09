# brass_control

A small version-control client: content-addressed objects (blobs, trees,
commits) stored zlib-compressed under their SHA-256 identifiers, a staging
index, branch and leaf references, ignore rules, access rules, and a
three-way merge of a leaf into the current branch.

- `src/` is the library, verified with Verus: the object, index, reference
  and ignore-file formats, the access and ignore rules, the staging and
  status logic, the merge, and the common-ancestor search.  Calls into
  `sha2`, `flate2` and `globset` go through small trusted wrappers whose
  contracts state what those crates document.
- `app/` is the `brass` program around it: the command line (`clap`), the
  XML configuration files (`serde`, `quick-xml`) and all file-system work.
- `tests/` runs the library on concrete values.
