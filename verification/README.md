# pocket-tts-deploy

Text planning, array decoding and scheduling behind a speech-synthesis deployment, verified with
[Verus](https://github.com/verus-lang/verus). The models themselves run outside: in OpenVINO, in
ONNX Runtime, or in candle. What to feed the step model, when to stop, and how to read the files is
decided by the library; the noise of the sampler and the scaling of latents are floating point and stay
outside.

## Library (`src/`)

| module | what it decides |
|---|---|
| `text` | white space, trimming, splitting, searching, decimal numbers |
| `sentences` | splitting a text into sentences |
| `prompt` | preparing a sentence for the tokenizer |
| `chunks`, `plan` | packing tokenized sentences into runs that fit the context |
| `synth` | one run: text prefill, generation up to the end of speech, decoding |
| `tensors`, `protocol`, `mimi` | layouts and names of the tensors that the models take, and the streaming state of the decoder |
| `half`, `npy`, `npz` | binary16 numbers, NumPy arrays, and archives of them |
| `voice`, `dump` | precomputed voice states |
| `package`, `params` | where a package is, its files, devices and parameters |
| `bench` | seeds, labels, file names and frames of the benchmarks |
| `serve`, `wasm_demo` | starting the server, step by step |

Floating-point values never enter the library: it carries them as bit patterns, or as values of a
type that it does not look into.

Functions whose name begins with `law_` are proofs about the library as a whole: that splitting
loses nothing but white space, that packed chunks fit and are as few as can be, what every call of the step model is fed, that no step runs outside the context, that
a configuration wins over a variant, and so on.

What is believed rather than proved stands in items marked `external_body` or
`assume_specification`: the zip archive reader in `npz`, UTF-8 decoding in `npy`, character classes
and case mapping in `prompt`, `String::push` in `text`, and the `Debug` text of an error in `bench`.

## Programs (`app/`)

`app/` holds what the library leaves out: the command line, files, devices, floating point, and the
HTTP server. It needs the `pocket_tts` crate, which has the tokenizer and the candle model. The server is
generic over the site that it serves (`server::Site`).

```
pocket-tts-deploy synth --pkg <package> --text "안녕하세요." --out out.wav
pocket-tts-deploy live-bench --variant korean --voice 2_0000.wav
pocket-tts-deploy onnx-bench --onnx step.onnx --quant FP32
```
