# unoc_rs

A toolkit for Android mod developers: it reads APK, APKS, XAPK, APKM and split APK inputs,
parses their DEX files, builds a class model of each app, fingerprints and matches classes
between two versions, audits DEX references, and rewrites class names in smali or Java
sources.

The library in `src/` is written in Verus: the verifier proves each function against its
contract, except the few trusted wrappers named below, whose contracts it takes on trust. It
holds:

- `dex/`: the DEX reader (header, tables, LEB128, class data, instruction summaries);
- `apk`, `input`, `pipeline`: reading APK archives, resolving inputs into parts, merging parts;
- `model`, `fingerprint`, `labels`: the class model of an app, class fingerprints, report labels;
- `audit`: the reference audit, with its definition index and resolution rules;
- `mapping`, `remap`, `chunks`, `markup`: what mapping reports say, class renames and source
  rewriting, the chunking of text reports, and JSON embedded in HTML;
- `inspect`, `memory`, `progress`, `cli`: the inspection report, memory-limit arguments,
  progress lines and subcommand settings.

Calls into `zip`, into the standard library's sorts and into its UTF-8 decoding sit behind
small trusted wrappers (marked `#[verifier::external_body]`): their bodies are not verified, and
their doc comments say what their contracts claim of the code they call.

`app/` is the command-line tool around the library: argument parsing, files and directories,
the process memory limit, and the class matcher and report writers, whose similarity scores
are floating point.
