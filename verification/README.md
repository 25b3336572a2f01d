# shark

The SHARK calculator: arithmetic on real and complex numbers, trigonometric functions and
logarithms, polynomials in `x`, simple equation solving, bracket auto-completion, input
aliases and step-by-step output.

- `src/` is the library, verified with Verus: tokenising and rewriting of the input
  (function names such as `sinh` taken as whole words),
  bracket completion (with the laws that a pass changes nothing exactly when the brackets
  are balanced, and that one pass balances input whose brackets only lack their closing
  partners), constants, signs, factorials, the choice of which tokens each operator
  and function combines, the written-out steps, the alias table (sorted, so that an
  alias is replaced before its prefixes), polynomials read into terms and written back,
  and the equation solver's choices: which side holds the unknown, which operator is
  moved across `=` next, and how the steps of both sides line up.
- `app/` is the interactive program: the terminal loop, colours, and the floating-point
  and complex arithmetic, which the library tells what to compute and where the result goes.
- `tests/` runs the library on concrete inputs.
