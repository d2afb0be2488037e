//! Choosing the Feature Reports that a command works on.
use vstd::prelude::*;

use crate::layout::ReportLayout;

verus! {

/// Why no report could be chosen.
#[derive(Clone, Copy, Debug, PartialEq, Eq, Structural)]
pub enum SelectionError {
    /// The device declares no Feature Report at all.
    NoFeatureReports,
    /// No report carries the requested Report ID.
    NotFound { report_id: u8 },
}

impl SelectionError {
    /// A message for the user; a missing report is named by its ID.
    pub fn message(&self) -> (r: String)
        ensures
            self matches SelectionError::NotFound { report_id } ==> r@
                == "Unable to find report "@ + crate::text::decimal_text(report_id as nat),
            self is NoFeatureReports ==> r@ == "This device does not have any Feature Reports"@,
    {
        match self {
            SelectionError::NoFeatureReports => {
                String::from_str("This device does not have any Feature Reports")
            },
            SelectionError::NotFound { report_id } => {
                let mut m = String::from_str("Unable to find report ");
                m.append(crate::text::decimal(*report_id as u32).as_str());
                m
            },
        }
    }
}

/// The report is one that the filter lets through.
pub open spec fn passes_filter(report: ReportLayout, filter: Option<u8>) -> bool {
    match filter {
        None => true,
        Some(id) => report.report_id == Some(id),
    }
}

/// Picks the report to write to: the first one with the requested Report
/// ID, or with no filter the first report of the descriptor.
pub fn select_report(reports: &Vec<ReportLayout>, filter: Option<u8>) -> (r: Result<
    usize,
    SelectionError,
>)
    ensures
        reports@.len() == 0 ==> r == Err::<usize, SelectionError>(SelectionError::NoFeatureReports),
        reports@.len() > 0 && filter is None ==> r == Ok::<usize, SelectionError>(0),
        reports@.len() > 0 && filter is Some ==> (r is Ok <==> exists|i: int|
            0 <= i < reports@.len() && passes_filter(#[trigger] reports@[i], filter)),
        r matches Ok(i) ==> i < reports@.len() && passes_filter(reports@[i as int], filter)
            && forall|k: int| 0 <= k < i ==> !passes_filter(#[trigger] reports@[k], filter),
        reports@.len() > 0 && r is Err ==> (filter matches Some(id) && r == Err::<
            usize,
            SelectionError,
        >(SelectionError::NotFound { report_id: id })),
{
    if reports.len() == 0 {
        return Err(SelectionError::NoFeatureReports);
    }
    match filter {
        None => Ok(0),
        Some(id) => {
            let mut i: usize = 0;
            while i < reports.len()
                invariant
                    i <= reports@.len(),
                    filter == Some(id),
                    forall|k: int| 0 <= k < i ==> !passes_filter(#[trigger] reports@[k], filter),
                decreases reports@.len() - i,
            {
                if reports[i].report_id == Some(id) {
                    return Ok(i);
                }
                i = i + 1;
            }
            Err(SelectionError::NotFound { report_id: id })
        },
    }
}

/// The reports to list, by index and in descriptor order: those that carry
/// the requested Report ID, or all of them when no filter is given.
pub fn reports_to_list(reports: &Vec<ReportLayout>, filter: Option<u8>) -> (r: Vec<usize>)
    ensures
        forall|k: int|
            0 <= k < r@.len() ==> #[trigger] r@[k] < reports@.len() && passes_filter(
                reports@[r@[k] as int],
                filter,
            ),
        forall|k1: int, k2: int| 0 <= k1 < k2 < r@.len() ==> r@[k1] < r@[k2],
        forall|i: int|
            0 <= i < reports@.len() && passes_filter(#[trigger] reports@[i], filter)
                ==> r@.contains(i as usize),
{
    let mut out: Vec<usize> = Vec::new();
    let mut i: usize = 0;
    while i < reports.len()
        invariant
            i <= reports@.len(),
            forall|k: int|
                0 <= k < out@.len() ==> #[trigger] out@[k] < i && passes_filter(
                    reports@[out@[k] as int],
                    filter,
                ),
            forall|k1: int, k2: int| 0 <= k1 < k2 < out@.len() ==> out@[k1] < out@[k2],
            forall|j: int|
                0 <= j < i && passes_filter(#[trigger] reports@[j], filter) ==> out@.contains(
                    j as usize,
                ),
        decreases reports@.len() - i,
    {
        let keep = match filter {
            None => true,
            Some(id) => reports[i].report_id == Some(id),
        };
        if keep {
            let ghost before = out@;
            out.push(i);
            assert forall|j: int|
                0 <= j <= i && passes_filter(#[trigger] reports@[j], filter) implies out@.contains(
                j as usize,
            ) by {
                if j < i {
                    let k = choose|k: int| 0 <= k < before.len() && before[k] == j as usize;
                    assert(out@[k] == j as usize);
                } else {
                    assert(out@[out@.len() - 1] == i);
                }
            }
        }
        i = i + 1;
    }
    out
}

} // verus!
