# typst-run

Typst documents with embedded R code. The R code stands in fenced chunks:

    ```r
    #| key: mean
    #| echo: true
    mean(c(1, 2, 3))
    ```

The chunks are taken out of the document and run with `Rscript`. What a chunk
gave, a plot, text or an error, stands in the result wherever the document says
`#codekey(mean)`. The result is `_build/enriched.typ` beside the document. With
`--watch` the document is processed again after each change.

## Layout

- `src/` is the library, verified with Verus.
  - `text`, `whitespace`, `scan`, `position`: text by byte offset.
  - `literal`, `bracket`, `frontmatter`, `directive`: the parts of a document.
  - `chunk`, `document`: chunks, and documents with and without them.
  - `escape`, `render`: what stands in place of a call.
  - `execution`: the R script of a chunk, and what running it gave.
  - `session`: one run over a document, and watching it.
  - `laws`, `forms`: what holds of the library as a whole, and of the usual forms
    of chunks and calls; `shift`: why the text in front of a place does not matter.
  - `foreign`: what is taken on trust of the standard library.
- `app/` is the program: arguments, files, `Rscript` and the file watcher.
- `tests/` runs the library on given values.
