//! Terminal styling: each kind of output gets its own color, switched on
//! by an ANSI escape prefix and switched off by the reset suffix.

use vstd::prelude::*;
use vstd::string::*;

verus! {

/// Format used to display forest data.
pub enum ForestFormat {
    TaskName,
    TreeName,
    Date,
    Time,
    Uid,
    Box,
}

/// The ANSI escape sequence that switches the color of a format on.
pub open spec fn style_prefix(fmt: ForestFormat) -> Seq<char> {
    match fmt {
        ForestFormat::TaskName => "\u{1b}[36m"@,
        ForestFormat::TreeName => "\u{1b}[35m"@,
        ForestFormat::Date => "\u{1b}[34m"@,
        ForestFormat::Time => "\u{1b}[32m"@,
        ForestFormat::Uid => "\u{1b}[33m"@,
        ForestFormat::Box => "\u{1b}[90m"@,
    }
}

/// Formats the input string with the given format: the color prefix, the
/// text, and the reset sequence.
pub fn format(s: &String, fmt: ForestFormat) -> (r: String)
    ensures
        r@ == style_prefix(fmt) + s@ + "\u{1b}[0m"@,
{
    let mut out = match fmt {
        ForestFormat::TaskName => String::from_str("\u{1b}[36m"),
        ForestFormat::TreeName => String::from_str("\u{1b}[35m"),
        ForestFormat::Date => String::from_str("\u{1b}[34m"),
        ForestFormat::Time => String::from_str("\u{1b}[32m"),
        ForestFormat::Uid => String::from_str("\u{1b}[33m"),
        ForestFormat::Box => String::from_str("\u{1b}[90m"),
    };
    out.append(s.as_str());
    out.append("\u{1b}[0m");
    out
}

} // verus!
