//! The texts of the window.
use vstd::prelude::*;
use vstd::string::StringExecFns;

use crate::decimal::push_decimal;
use crate::size::format_size;

verus! {

/// How long a scan has taken: seconds, or minutes and seconds from one minute on.
pub open spec fn elapsed_text(seconds: nat) -> Seq<char> {
    if seconds < 60 {
        crate::decimal::decimal(seconds) + "s"@
    } else {
        crate::decimal::decimal(seconds / 60) + "m "@ + crate::decimal::decimal(seconds % 60)
            + "s"@
    }
}

/// How full a disk is; `percent` is the text of the part that is used.
pub open spec fn usage_text(available: nat, total: nat, percent: Seq<char>) -> Seq<char> {
    crate::size::size_text(available) + " free of "@ + crate::size::size_text(total) + " ("@
        + percent + "% used)"@
}

/// The text of an entry of the tree: its icon, its name, and its size unless that is pending.
pub open spec fn node_text(
    is_dir: bool,
    name: Seq<char>,
    size: nat,
    size_pending: bool,
) -> Seq<char> {
    (if is_dir {
        "\u{1F4C1}"@
    } else {
        "\u{1F4C4}"@
    }) + " "@ + name + "   "@ + (if size_pending {
        "..."@
    } else {
        crate::size::size_text(size)
    })
}

/// The mark before an entry of the tree: which way a directory is folded, nothing for a file.
pub open spec fn node_mark(is_dir: bool, is_open: bool) -> char {
    if !is_dir {
        ' '
    } else if is_open {
        '\u{25BC}'
    } else {
        '\u{25B6}'
    }
}

/// How long a scan has taken, as text.
pub fn format_elapsed(seconds: u64) -> (text: String)
    ensures
        text@ == elapsed_text(seconds as nat),
{
    let mut out = String::new();
    if seconds >= 60 {
        push_decimal(&mut out, seconds / 60);
        out.append("m ");
    }
    push_decimal(&mut out, seconds % 60);
    out.append("s");
    assert(out@ =~= elapsed_text(seconds as nat));
    out
}

/// How full a disk is, as text.
pub fn format_usage(available: u64, total: u64, percent: &str) -> (text: String)
    ensures
        text@ == usage_text(available as nat, total as nat, percent@),
{
    let mut out = format_size(available);
    out.append(" free of ");
    out.append(format_size(total).as_str());
    out.append(" (");
    out.append(percent);
    out.append("% used)");
    out
}

/// The text of an entry of the tree.
pub fn format_node(is_dir: bool, name: &str, size: u64, size_pending: bool) -> (text: String)
    ensures
        text@ == node_text(is_dir, name@, size as nat, size_pending),
{
    let mut out = String::new();
    if is_dir {
        out.append("\u{1F4C1}");
    } else {
        out.append("\u{1F4C4}");
    }
    out.append(" ");
    out.append(name);
    out.append("   ");
    if size_pending {
        out.append("...");
    } else {
        out.append(format_size(size).as_str());
    }
    assert(out@ =~= node_text(is_dir, name@, size as nat, size_pending));
    out
}

/// The mark before an entry of the tree.
pub fn mark_node(is_dir: bool, is_open: bool) -> (mark: char)
    ensures
        mark == node_mark(is_dir, is_open),
{
    if !is_dir {
        ' '
    } else if is_open {
        '\u{25BC}'
    } else {
        '\u{25B6}'
    }
}

} // verus!
