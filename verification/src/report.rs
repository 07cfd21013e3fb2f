//! The whole pipeline on a report: parse it, then print it as text or JSON.

use vstd::prelude::*;
use crate::parser::{parse, parse_report, reports, views, law_parsed_report_is_a_tree, ParseError, SizeUnit};
use crate::printer::{print_tree, print_tree_json, tree_text, tree_json, PrintOptions};
use crate::coverage::lemma_tree_counts_fit;

verus! {

/// Parses the report `input`, sizes in `unit`, and prints its tree: as a JSON
/// array when `json`, else as indented text. A refused report gives the
/// error that `parse` gives.
pub fn pretty_report(input: &str, unit: SizeUnit, opts: &PrintOptions, json: bool) -> (r: Result<
    String,
    ParseError,
>)
    ensures
        match parse_report(input@, unit) {
            Ok(es) => r matches Ok(s) && s@ == (if json {
                tree_json(es, *opts)
            } else {
                tree_text(es, *opts)
            }),
            Err(f) => r matches Err(e) && reports(e, f),
        },
{
    match parse(input, unit) {
        Err(e) => Err(e),
        Ok(entries) => {
            let n = entries.len();
            proof {
                law_parsed_report_is_a_tree(input@, unit);
                assert(views(entries@).len() == n);
                lemma_tree_counts_fit(views(entries@));
            }
            let s = entries.as_slice();
            assert(s@ == entries@);
            if json {
                Ok(print_tree_json(s, opts))
            } else {
                Ok(print_tree(s, opts))
            }
        },
    }
}

} // verus!
