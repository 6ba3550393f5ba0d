# dragonwing

Verified core of an ONNX inference runtime: it reads a model, compiles it to a
graph of supported ops, rewrites the graph (layout, batch normalization,
fusion, quantization) and runs it on the CPU or plans its run on a Vulkan
device.

## Layout

* `src/`: the library. Every function carries a contract that Verus proves, but
  for two wrappers around the standard library's UTF-8 decoding (in `proto` and
  `model`), whose doc comments say what is taken on trust.
* `tests/`: tests of the library on concrete values.
* `app/`: command-line tools. They read files, talk to the hardware and print.

## Reading and compiling

| Module | Contents |
| --- | --- |
| `proto`, `model` | the protobuf wire format, and ONNX models written in it |
| `builder`, `ops` | what is supported of each op, and the shapes of its results |
| `graph` | validation and compilation |
| `inspect` | what a model is made of |

## Rewriting

| Module | Contents |
| --- | --- |
| `batchnorm` | batch normalization goes into the convolution before it |
| `relayout`, `layout` | channels last; transposed weights |
| `fusion` | Conv + Relu, Conv + bias + Relu, SiLU, quantized Conv + Requantize + Relu; what fusion keeps |
| `qdq`, `quantize`, `scales` | quantized graphs |
| `precision` | how far quantized numbers are from what they stand for |
| `calibration` | the ranges, or percentiles, that activations take |

## Running

| Module | Contents |
| --- | --- |
| `runtime` | the generic runtime and the one for the CPU |
| `vulkan` | the commands that a driver carries out |
| `kernels`, `int8`, `ieee` | arithmetic on tensors, bytes that stand for numbers, floating-point numbers |
| `postprocess` | from a detector's output to boxes |

`harness`, `micro_graph`, `generators`, `sample` and `bench` hold what the
tools test and measure with.

## Floating-point numbers

A number is kept as its bits. `ieee` computes on them as IEEE 754 says
(rounding to nearest, ties to even) and is proved against rational arithmetic.
The exponential function and the optimized kernels are handed in by the
caller; contracts speak of whatever they answer.

## Backends

The tools call `dragonwing_cpu`, `dragonwing_vulkan`, `dragonwing_hal` and
`dragonwing_core`, which live in crates of their own.
