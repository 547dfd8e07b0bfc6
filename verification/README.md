# DDB Toolbox

Tools for Vocaloid voicebanks: reading a DDI index into a model and a YAML
summary, extracting the sounds of a DDB as WAV files (with label and
segmentation files), saving the EpR frame chunks of a DDB, packing a
voicebank tree into a DDI and DDB, and grafting growl (VQM) samples from one
voicebank onto another.

The library in `src/` is written in Verus. Every function in it is verified
against its contract, except two small wrappers whose contracts are trusted:
`search::find`, which calls `memchr::memmem::find`, and
`text::from_utf8_lossy`, which calls `String::from_utf8_lossy`.

- `bytes`, `cursor`, `text`, `search` — little-endian fields, a read
  position over bytes, lossy UTF-8 text, forward and backward pattern search.
- `format` — the layout of each DDI section as a function from the file's
  bytes and a position to what reading there yields; `parse` — the readers,
  proved to follow it.
- `model`, `ordmap`, `dict` — the records read, ordered maps with the
  insertion rule of a search tree, and the summary built from them.
- `ddi` — string fields, the searches, and `DDIModel`, whose `read` is
  specified section by section.
- `mixins`, `pack`, `frm2`, `wav`, `names`, `segment` — the logic of the
  tools: segment copying and VQM streams, DDI reference patching, FRM2
  chunk scanning, sound headers and sample lists, file names, and the text
  parts of segmentation files.
- `gui` — the window's state machine: what each message does and which
  dialog or task it asks for.

`app/` is the program around it: the iced window, file dialogs, file and
archive I/O, YAML output, and the floating-point timings of label and
segmentation files.
