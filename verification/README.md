# ldpc

Parity-check matrices, Tanner graphs and CSS code construction for
belief-propagation decoding of classical LDPC codes and quantum CSS codes
with noisy syndrome measurements, verified with Verus.

- `src/matrix.rs`: compressed sparse row matrices over `u8`; identity,
  transpose, horizontal concatenation and Kronecker product, assembled with
  `sprs`.
- `src/css.rs`: the CSS condition `Hx · Hzᵀ = 0 (mod 2)`, CSS codes, their
  decoding graphs, and the 3-qubit and Steane codes.
- `src/hgp.rs`: hypergraph product codes, with the proof that they always
  satisfy the CSS condition.
- `src/random_ldpc.rs`: random regular LDPC matrices from a random pairing of
  sockets (`rand`), with degree bounds.
- `src/graph.rs`: Tanner graphs (classical, and extended by one
  syndrome-error node per check for quantum decoding), syndrome checks.
- `src/decoder.rs`: the record of a decoding run.
- `app/`: the simulation program: channels, the floating-point
  belief-propagation decoder and the three simulations (`classic`, `jd`,
  `css`).
