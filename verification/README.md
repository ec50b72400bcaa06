# ccr_enclave

Analysis of a confidential credit register (CCR) and of textbook regression
examples, with its decision logic verified in Verus.

## Layout

- `src/` — the verified library
  - `binary64.rs`: exact values of IEEE-754 binary64 numbers (`Real`), their
    encoding and decoding, and the IEEE comparisons `<`, `<=`, `==` decided
    exactly;
  - `sorting.rs`: stable ascending sort of values;
  - `summary.rs`: positions of P5, Q1, the median, Q3 and P95 in a sorted sample,
    and the values found there;
  - `pvalue.rs`: rows of the Student's t table and the p-value range of a t
    statistic;
  - `credit.rs`: records of the register, lending-profile selection, income
    bands and the credit-health breakdown;
  - `design.rs`: rows of a design matrix from its columns, and coefficient names.
- `app/` — the menu program: JSON and sealed-storage I/O, the floating-point
  statistics (means, standard deviations, least-squares fits through
  rusty-machine) and the printing of reports.
- `tests/` — tests of the library on concrete values.
