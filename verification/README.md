# backend

Equivalent-circuit models for electrochemical impedance spectroscopy.

A circuit is written as a string of element names and brackets, such as
`R(CPEC)`: elements side by side are in series, a bracketed group at odd depth
is a parallel connection and one at even depth a series connection.

- `src/` is the verified library (Verus): the circuit language (`syntax`),
  the network a circuit string denotes and its laws (`network`), the supply of
  elements by name (`element_map`), circuit models that check and assemble
  networks (`model`), and the rules on measured-data files (`data`).
- `app/` is the program around it: the element impedance formulas and the
  floating-point evaluation of an assembled network (complex numbers from
  `num`), reading data files with `csv`, and the fitting cost for `argmin`.
- `tests/` exercises the library on concrete circuits.
