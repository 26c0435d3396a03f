# crisp_docx

Surgery on `.docx` packages, verified with Verus.

A package is a zip archive of named parts, most of them XML. The operations rewrite those
parts event by event and leave alone what they have no business with:

- strip the attributes that track editing sessions, and clean up run properties;
- convert between footnotes and endnotes, and turn `[N]` markers into footnotes;
- transplant the body of a document into the layout of another, and map styles;
- find and drop cosmetic bold, infer headings from direct formatting;
- read what a blueprint prescribes, and give footnote numbers its format;
- set quotation marks, parse inline markdown;
- extract paragraphs, by text or by run, and write them back translated;
- check a package for the faults that make Word refuse it.

`src/` is the library. Every function in it is verified against its contract; what it takes
on trust of `quick_xml`, `zip`, `serde_json` and std is stated, with the reason, at the
wrapper that makes the call. The laws that span several functions are public proof
functions whose names begin with `law_`.

- `xml`, `wellformed`, `joined`, `bytes`, `text`, `names`, `substitution`: events, texts and
  tables.
- `package`, `rels`, `story`, `ns`: packages and their parts.
- one module for each operation on a package, and `notes_file` for the notes that one of them
  takes; `paragraph_laws`, `run_texts`, `footnote_form`, `footnote_laws` and `injection_laws`
  state what holds of several of them.
- `align`: alignment of a text with its translation, and the transfer of formatting.
- `llm`: what providers of translations are asked, and what their replies mean.
- `translate`: translations into paragraphs.

`app/` is the command line, the HTTP clients and the Python module around the library: files,
network and floating point, which the library does not touch. The features `align` and `nmt`
need the `crispembed` and `crispasr` crates.

`tests/` runs the library on concrete documents.
