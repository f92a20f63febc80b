# rsomics_roc_auc

Binary ranking and threshold classification metrics: the descending-score
classification curve, the ROC curve and the precision-recall curve, with the
sort, the tie collapse, the counts, the rates and the input scanning proved
correct with Verus.

Layout:

- `src/` — the verified library.
  - `score.rs`: scores as IEEE-754 bit patterns and their order.
  - `samples.rs`: the labelled samples.
  - `sort.rs`, `count.rs`: the stable descending merge sort and counting lemmas.
  - `clf_curve.rs`: the classification curve, its uniqueness and its laws.
  - `sample_order.rs`: the curve depends only on the multiset of samples.
  - `roc.rs`, `ap.rs`: the ROC and precision-recall curves as exact ratios,
    with the thinning (subsequence, chord, area), monotonicity and
    single-class laws.
  - `parse.rs`: the two-column text scanner and the sample assembly.
  - `metric.rs`: which curve each metric reads.
  - `repr.rs`: laying out a double's shortest digits as Python's `repr` does.
- `app/` — the command line: file and stdin input, decimal-to-double parsing,
  the floating-point rates, areas and sums, and the shortest digits of each
  printed double.
- `tests/` — the tests of the library.
