# gemma-wgpu

Gemma-4 E2B inference. The logic of the engine is a library verified with
Verus; a thin program around it reads files, talks to the network and drives a
GPU.

    src/     the verified library
    tests/   tests that run it
    app/     the program: command line, downloads, memory maps, wgpu

## The library

| module | what it holds |
|---|---|
| `float` | single and double precision arithmetic on bit patterns, correctly rounded |
| `text`, `json` | strings as sequences of characters; JSON documents as plain data |
| `config`, `template`, `tokenizer` | configuration, chat template, Unigram and BPE tokenizers with a streaming decoder |
| `safetensors`, `dequant`, `weights` | the checkpoint: file format, packed weights, logical names |
| `backend`, `backend_cpu` | the operations that the model is written against, and the reference backend |
| `kvcache`, `model` | keys and values of earlier tokens; the decoder graph |
| `stepwise`, `rows` | decoding token by token is running the whole sequence; what a query does not see |
| `sampler`, `engine`, `run` | choosing the next token; loading and generating; what a whole run comes to |
| `dispatch`, `frame`, `device` | what a GPU is asked to do: launches, buffers, limits |
| `hub`, `chat`, `bench` | decisions of the commands: downloads, chat lines, benchmark inputs |

Numbers are held as IEEE-754 bit patterns (`F32`, `F64`). Sums, products,
quotients and roots are computed and proved in the library; the exponential and
the trigonometric functions are handed to it as functions.

## The program

`app/main.rs` has the commands `download`, `chat`, `generate`, `bench` and
`info`. The WGSL kernels are read from `kernels/` (or `GEMMA_WGPU_KERNELS`) when
a device is opened, and `bench` reads the model's `config.json`.
