# lecturner

Turns papers and text files into narrated audio, paragraph by paragraph: rip the prose of a PDF,
have it rewritten for reading aloud, speak it chunk by chunk, check each chunk by transcribing it,
and merge what passed into one file. Batches run unattended.

- `src/` is the verified library: everything that decides or computes.
  - `text`, `words`, `chars`, `numbers`, `order`: strings as sequences, and lists of positions.
  - `chunks`: splitting text into synthesis chunks.
  - `glyphs`, `columns`, `rip`: from the words on a page to paragraphs of prose.
  - `cleanup`: the rewriting pass.
  - `speech`, `phonemes`, `validation`: requests, phoneme error rates, the one retry.
  - `wav`: reading, writing and merging WAV files.
  - `records`, `runs`: what a run leaves behind, and the steps of a run and of a repair.
  - `batch`, `jobs`: the inbox, the log, and the steps of a job.
  - `config`, `commands`: the configuration, and the programs that a run starts.
- `app/` is the program around it: the command line, files, servers, Whisper and the PDF reader.
- `tests/` runs the library.

The proof functions whose names begin with `law_` state what holds across functions.

The program looks for `cmudict.dict`, the CMU Pronouncing Dictionary, and `lecturner.toml` next to
itself and then in the working directory.
