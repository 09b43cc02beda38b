# narmax

Polynomial NARMAX model structures, verified with Verus.

`src/` is the verified library:

- `symbol`, `regressor`: lagged symbols `name(k-index)^power` and their products,
  with a mathematical view (a sequence of name/lag/power triples), products,
  order-insensitive equality and the text form `y(k-1)^2*u(k-2)`;
- `order`, `sorting`, `terms`: the term order, sorting, and the algebra of products
  (merging powers, degrees, canonical forms);
- `candidates`, `monomials`: candidate dictionaries, from lag maps and from monomials
  over `y(k-1..ny)`, `u(k-1..nu)`;
- `layout`: which samples enter the evaluation of a regressor;
- `dataset`: the line and field layout of sample files;
- `narmax_method`, `narmax_model`, `lags`: maximum lags and the index bookkeeping of
  forward selection and pruning;
- `laws`: properties of products and equality stated for all inputs.

`app/` holds what works on floating-point numbers (evaluation, least squares,
FROLS, MGS, SEMP, coefficient refinement, error metrics) and the programs that read
the sample files and print the comparisons.
