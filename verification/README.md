# dedoop

Finds byte-identical files by content across one or two directories, and either shows
them, links to them for review, or deletes all but one copy of each.

`src/` is a Verus library. It holds the rules of a search, each with its contract and
proof; it does no input or output. `app/` is the command around it: it reads the file
system, hands plain values to the library, and performs the actions that the library
decides on.

| Module | What it is for |
|---|---|
| `path`, `lex`, `order` | paths as components; orders; stable sorting, grouping and tables |
| `text`, `format` | bytes as text; numbers, sizes, times and colours as text |
| `entry`, `scan`, `hidden`, `drive` | which files take part; what skipping hidden ones comes to; which drives rotate |
| `filter` | hard links and sizes |
| `compare`, `resolve` | small groups, compared byte by byte |
| `digest`, `pipeline`, `readable` | large groups, hashed in samples and then in full; files that cannot be read |
| `search`, `found`, `permuted` | what the stages come to when they are put together, from the files that take part to the groups, in whatever order they come |
| `select`, `place`, `output`, `organise`, `links` | originals and duplicates; where files are, whatever their paths; what must not be lost; what is done with them |
| `stats`, `report` | the numbers, the report, the preview and the summary |

The functions named `lemma_…` that are public state what holds of the library as a whole:
files with the same bytes are found (`found`, `search`), groups hold only what belongs together
(`compare`, `pipeline`, `resolve`), skipping hidden files is a filter (`hidden`), files that
cannot be read disturb no others (`readable`), source files are not touched unless deletion
is asked for, and deletion takes nothing but duplicates and keeps one copy of every group
(`organise`). The order in which files are found does not matter (`permuted`).

One exception holds for source files: `duplicate_report.txt` in the output directory, where an
earlier run left it, is written over, and goes with the directory, even where it was searched.
Any other file in its place is left alone, and no report is written then.

What is not proved is what the functions marked `external_body` claim of BLAKE3 and of the
standard library's treatment of UTF-8; each says so where it stands.

## Usage

```
dedoop <FOLDER1> [FOLDER2] [OPTIONS]

  -o, --output <PATH>      Output directory [default: ./duplicates_output]
  -s, --min-size <BYTES>   Ignore files smaller than this [default: 1]
  -w, --workers <N>        Parallel worker threads [default: CPU count]
  -p, --prefer <PATH>      Treat files in this folder as originals
      --hidden             Include hidden files and folders (also --no-hidden)
      --delete             Delete duplicates; one copy is kept
      --dry-run            Print groups only
      --hdd-workers <N>    Max workers for rotational drives [default: 4]
```
