//! The text of the duplicate report.
use vstd::prelude::*;
use crate::digest::ContentKey;
use crate::group::{DuplicateGroup, views};

verus! {

/// The character of decimal digit `d`.
pub open spec fn digit_char(d: int) -> char {
    seq!['0', '1', '2', '3', '4', '5', '6', '7', '8', '9'][d]
}

/// The decimal digits of `n`, most significant first, without leading zeros.
pub open spec fn decimal(n: nat) -> Seq<char>
    decreases n,
{
    if n < 10 {
        seq![digit_char(n as int)]
    } else {
        decimal(n / 10).push(digit_char((n % 10) as int))
    }
}

/// `digits` with a ',' before each group of three, counted from the right.
pub open spec fn group_thousands(digits: Seq<char>) -> Seq<char>
    decreases digits.len(),
{
    if digits.len() <= 3 {
        digits
    } else {
        group_thousands(digits.take(digits.len() - 3)) + seq![','] + digits.skip(
            digits.len() - 3,
        )
    }
}

/// `n` written in English notation: "1,234,567".
pub open spec fn formatted(n: nat) -> Seq<char> {
    group_thousands(decimal(n))
}

/// Relies on `num_format::ToFormattedString::to_formatted_string` with
/// `Locale::en`, whose grouping is standard and whose separator is ",":
/// decimal digits with a comma between groups of three.
#[verifier::external_body]
fn format_number(n: u64) -> (r: String)
    ensures
        r@ == formatted(n as nat),
{
    num_format::ToFormattedString::to_formatted_string(&n, &num_format::Locale::en)
}

/// The first line of the report.
pub open spec fn banner(total: u64) -> Seq<char> {
    "Dupes found totaling "@ + formatted(total as nat) + " bytes:\n"@
}

/// One indented line per path.
pub open spec fn member_lines(paths: Seq<String>) -> Seq<char>
    decreases paths.len(),
{
    if paths.len() == 0 {
        Seq::empty()
    } else {
        member_lines(paths.drop_last()) + "\t"@ + paths.last()@ + "\n"@
    }
}

/// A group's heading followed by its members.
pub open spec fn group_text(group: (ContentKey, Seq<String>)) -> Seq<char> {
    "Duplicates of size "@ + formatted(group.0.size as nat) + "\n"@ + member_lines(group.1)
}

/// The text of each group, in order.
pub open spec fn groups_text(groups: Seq<(ContentKey, Seq<String>)>) -> Seq<char>
    decreases groups.len(),
{
    if groups.len() == 0 {
        Seq::empty()
    } else {
        groups_text(groups.drop_last()) + group_text(groups.last())
    }
}

/// The whole report: the banner with `total`, then every group.
pub open spec fn report_text(groups: Seq<(ContentKey, Seq<String>)>, total: u64) -> Seq<char> {
    banner(total) + groups_text(groups)
}

/// Writes the report for `groups`, whose members take `total` bytes.
pub fn render_report(groups: &Vec<DuplicateGroup>, total: u64) -> (r: String)
    ensures
        r@ == report_text(views(groups@), total),
{
    let ghost all = views(groups@);
    let mut out = String::new();
    out.append("Dupes found totaling ");
    let total_text = format_number(total);
    out.append(total_text.as_str());
    out.append(" bytes:\n");
    assert(out@ =~= banner(total));
    let mut i: usize = 0;
    assert(all.take(0) =~= Seq::<(ContentKey, Seq<String>)>::empty());
    while i < groups.len()
        invariant
            i <= groups.len(),
            all == views(groups@),
            out@ == banner(total) + groups_text(all.take(i as int)),
        decreases groups.len() - i,
    {
        let ghost before = out@;
        let group = &groups[i];
        out.append("Duplicates of size ");
        let size_text = format_number(group.key.size);
        out.append(size_text.as_str());
        out.append("\n");
        let ghost heading = out@;
        let mut k: usize = 0;
        assert(group.paths@.take(0) =~= Seq::<String>::empty());
        while k < group.paths.len()
            invariant
                k <= group.paths.len(),
                out@ == heading + member_lines(group.paths@.take(k as int)),
            decreases group.paths.len() - k,
        {
            out.append("\t");
            out.append(group.paths[k].as_str());
            out.append("\n");
            assert(group.paths@.take(k + 1).drop_last() =~= group.paths@.take(k as int));
            k = k + 1;
        }
        assert(group.paths@.take(group.paths@.len() as int) =~= group.paths@);
        assert(all.take(i + 1).drop_last() =~= all.take(i as int));
        assert(all[i as int] == groups@[i as int]@);
        i = i + 1;
    }
    assert(all.take(all.len() as int) =~= all);
    out
}

} // verus!
