//! Binary ranking and threshold classification: the descending-score
//! classification curve, the ROC curve, and the precision-recall curve, with
//! their counts, rates and tie handling stated as contracts and proved.
//!
//! Scores are IEEE-754 doubles held as their bit patterns; the order of the
//! scores is read from the patterns (see `score`). Rates are exact ratios of
//! integer counts (see `ratio`). Input text is scanned into rows by `parse`.

pub mod ap;
pub mod clf_curve;
mod count;
pub mod metric;
pub mod parse;
pub mod ratio;
pub mod repr;
pub mod roc;
pub mod sample_order;
pub mod samples;
pub mod score;
mod sort;

pub use ap::{PrCurve, pr_curve};
pub use clf_curve::{ClfCurve, binary_clf_curve};
pub use metric::{Metric, MetricCurve, metric_curve};
pub use parse::{ParseError, Row, RowScan, assemble_samples, scan_rows};
pub use ratio::Ratio;
pub use repr::{is_scientific_form, python_repr_layout, python_repr_of};
pub use roc::{RocCurve, has_both_classes, roc_curve};
pub use samples::Samples;
pub use score::{INFINITY_BITS, is_finite_score, score_key};
