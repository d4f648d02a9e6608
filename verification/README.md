# kokoro-rs

Command-line text-to-speech with the Kokoro v1.0 model. Text given as an argument or
on standard input is split into chunks, phonemised and synthesised, and the audio is
played, or written to a file, as it is generated.

What the program decides is in a library verified with Verus, under `src/`:

| Module | What it does |
| --- | --- |
| `text` | splits text into chunks on sentence boundaries, sized in phonemes |
| `punctuation` | keeps punctuation across phonemisation |
| `phonemes` | phonemises text and maps phonemes to the model's tokens |
| `voices` | the style vectors of a voice pack |
| `synth` | batches phonemes to the model's context and says what the model is run on |
| `trim` | takes the silence off either end of the audio |
| `audio` | streaming WAV, choosing a device, and handing audio to it |
| `models` | finds the files that are needed, and takes the runtime out of its archive |
| `cli` | the options, the course of a run, and when a gap goes between sentences |
| `laws` | what holds of the library as a whole |

The laws say, among other things:

- Chunks hold every letter of the text in order, and without character caps every word.
  The one thing that is dropped is a closing quote or bracket between the end of a
  sentence and the space after it.
- No chunk is longer than the character cap it is held to, and one has more phonemes than
  its budget only where it has no clause to be broken at.
- A chunk carries exactly the phonemes its text is phonemised to, where it was joined only
  at marks, with no white space there next to a mark that the model does not know. A line
  that ends without a mark is joined to the next with nothing between them.
- Marks come back where they were taken from.
- Every batch of phonemes fits the model's context.

`app/` is the program around the library: arguments, files, downloads, the ONNX Runtime,
espeak-ng and the audio device. Its archive of espeak-ng data, `espeak-ng-data.tar.gz`,
is installed beside the program.
