# rkwhisper

Whisper speech recognition on Rockchip NPUs, as a verified library and the programs around it.

`src/` is the library. Everything in it is proved by [Verus](https://github.com/verus-lang/verus)
against the contracts that stand in the code. `app/` holds the command line, the daemon, its clients
and the Python module: what reads files and sockets, what runs models on the NPU, and what computes
with floating-point numbers.

| Module | What it holds |
| --- | --- |
| `spec`, `markers` | the sizes of the models, and markers for audio and tensors |
| `float_bits` | floating-point numbers as bit patterns, with the order of their values |
| `frontend` | what becomes of a WAV file, and the polyphase layout of the mel model's input |
| `grid`, `cache`, `decoder` | the layouts of the caches, the decoder's masks, inputs and outputs |
| `beam`, `suppression`, `whisper`, `window_pass` | beam search, suppressed tokens, decoding a window, segments |
| `text`, `tokens`, `token_decoders` | text, the tokenizer's control tokens, and what its decoders take |
| `vad`, `windows` | speech segments out of probabilities, and the windows to transcribe |
| `parallel`, `live_jobs`, `scheduler` | work on several NPU cores: order of results, live streams, queues |
| `wire`, `protocol`, `protocol_laws`, `protocol_fields`, `ring` | the daemon's messages, frames and shared audio ring |
| `daemon`, `daemon_stream`, `session`, `client` | configuration, requests, and both sides of a session |

A number that a model computes comes into the library as a bit pattern (`F32`, `F16`), and times
leave it as counts of timestamp steps: the library never computes with floats.

Calls into other crates are few, and what is taken on trust of each is written above it: the
vocabulary, the decoders and the decoding of `tokenizers`, the queues of `tokio`, and the quoting
and UTF-8 decoding of the standard library.
