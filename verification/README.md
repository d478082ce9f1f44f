# suppa

`spp` collects TODO-like annotation comments (`// TODO: ...`, `# FIX: ...`)
from a project with ripgrep and writes them to a Markdown, JSON or TOON file,
one section per configured label. Updating a Markdown file keeps the checked
state of checkbox items: checked items move to the label's archive, and
archived items stay there.

## Layout

- `src/` is the library, verified with Verus. Every public function states
  its result over spec functions on `Seq<char>` and the views of the data
  types.
  - `text`: trimming, line splitting, decimal numbers, over characters.
  - `model`: configuration, labels, annotations, output formats.
  - `config`, `create_config`: choosing and assembling the configuration
    from what the caller found on disk and in the TOML file.
  - `search`: the ripgrep pattern and arguments, and the reading of
    ripgrep's output into annotations.
  - `common`: grouping annotations under the label they stand for.
  - `format::markdown`: new and updated Markdown documents;
    `format::read_back`: what reading back a new or updated document
    gives, the update of an unedited document, and a second update that
    changes nothing; `format::json`, `format::toon`: the
    JSON and TOON documents as data.
  - `create_markdown`: the earlier Markdown layout (sorted items, no archive).
  - `function`: the summary of counts per label.
- `app/` is the command line: arguments, files, running ripgrep, printing,
  and the serde, TOML and TOON encodings.
- `tests/` holds the tests of the library.
