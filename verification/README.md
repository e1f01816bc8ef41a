# lama_inpaint

Image inpainting with the big-lama generator: a library whose planning, network and
device code is verified with Verus, and a small program around it.

- `src/` is the library. Its modules are listed in `src/lib.rs`.
- `app/` is the program: arguments, PNG files, the weight file, the CUDA device, and the
  floating-point numbers that the library computes with. It reads the weight file and
  drives the device through the `lightgpu` toolkit.
- `tests/` runs the library on concrete values, the device plan on a device in software
  among them.

The library is generic over its numbers (`scalar::Scalar`). Its contracts say which
operations are applied to which operands in which order, so they hold for any rounding;
what the Fourier transforms mean is proved for exact arithmetic in `dft`, `chirp` and
`unitary`.

The one thing taken on trust is `par::par_map`: that rayon's parallel map returns, in
order, what the closure returns for every index.
