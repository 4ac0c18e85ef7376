//! The reporter: usage as lines of text.

use crate::text::{decimal, decimal_digits, display_name, shown_name};
use crate::usage::{Usage, UsageResult};
use vstd::prelude::*;
use vstd::string::StringExecFns;

verus! {

/// The bytes in one megabyte.
pub const BYTES_PER_MEGABYTE: u128 = 1_048_576;

/// The line of one subvolume: total bytes, exclusive bytes and the name
/// shown, with one space between them.
pub open spec fn usage_line_of(result: UsageResult) -> Seq<char> {
    decimal_digits(result.usage.total_bytes as nat) + seq![' '] + decimal_digits(
        result.usage.exclusive_bytes as nat,
    ) + seq![' '] + shown_name(result.name)
}

/// The two lines of a targeted comparison, in whole megabytes.
pub open spec fn targeted_report_of(usage: Usage) -> Seq<char> {
    "total: "@ + decimal_digits((usage.total_bytes / BYTES_PER_MEGABYTE) as nat) + "\nexclusive: "@
        + decimal_digits((usage.exclusive_bytes / BYTES_PER_MEGABYTE) as nat)
}

/// The progress line for a subvolume whose tree is about to be walked.
pub open spec fn progress_line_of(name: Option<String>) -> Seq<char> {
    "collecting extents for subvol "@ + shown_name(name)
}

/// A byte count in whole megabytes, rounded down.
pub fn megabytes(bytes: u128) -> (whole: u128)
    ensures
        whole == bytes / BYTES_PER_MEGABYTE,
{
    bytes / BYTES_PER_MEGABYTE
}

/// The progress line for a subvolume whose tree is about to be walked,
/// without a line end. It belongs on the diagnostic stream.
pub fn progress_line(name: &Option<String>) -> (line: String)
    ensures
        line@ == progress_line_of(*name),
{
    let mut line = String::from_str("collecting extents for subvol ");
    line.append(display_name(name).as_str());
    line
}

/// The output line of one subvolume, without a line end:
/// `<total_bytes> <exclusive_bytes> <name>`.
pub fn usage_line(result: &UsageResult) -> (line: String)
    ensures
        line@ == usage_line_of(*result),
{
    proof {
        reveal_strlit(" ");
    }
    let mut line = decimal(result.usage.total_bytes);
    line.append(" ");
    line.append(decimal(result.usage.exclusive_bytes).as_str());
    line.append(" ");
    line.append(display_name(&result.name).as_str());
    assert(" "@ =~= seq![' ']);
    line
}

/// The report of a targeted comparison: `total: <MB>`, a line end, and
/// `exclusive: <MB>`, both in whole megabytes.
pub fn targeted_report(usage: &Usage) -> (report: String)
    ensures
        report@ == targeted_report_of(*usage),
{
    let mut report = String::from_str("total: ");
    report.append(decimal(megabytes(usage.total_bytes)).as_str());
    report.append("\nexclusive: ");
    report.append(decimal(megabytes(usage.exclusive_bytes)).as_str());
    report
}

} // verus!
