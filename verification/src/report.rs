//! The duplicate report: plain text, one section per duplicate group.
//!
//! A section is the line `Duplicate Group <N>:`, with groups numbered from
//! one, then one line per member, indented by two spaces, the original first,
//! then an empty line.

use crate::hash_grouper::{group_views, DuplicateGroup, GroupView};
use crate::text::{decimal, decimal_text, text_views};
use vstd::prelude::*;

verus! {

/// The line that names one member of a group.
pub open spec fn member_line(path: Seq<char>) -> Seq<char> {
    "  "@ + path + "\n"@
}

/// The lines that name `members`, in order.
pub open spec fn member_lines(members: Seq<Seq<char>>) -> Seq<char>
    decreases members.len(),
{
    if members.len() == 0 {
        Seq::empty()
    } else {
        member_lines(members.drop_last()) + member_line(members.last())
    }
}

/// The line that opens the section of the group with the given number.
pub open spec fn group_header(number: nat) -> Seq<char> {
    "Duplicate Group "@ + decimal(number) + ":\n"@
}

/// The section of one group: header, members, empty line.
pub open spec fn group_section(number: nat, group: GroupView) -> Seq<char> {
    group_header(number) + member_lines(group.members) + "\n"@
}

/// The whole report: the sections of `groups` in order, numbered from one.
pub open spec fn report_text(groups: Seq<GroupView>) -> Seq<char>
    decreases groups.len(),
{
    if groups.len() == 0 {
        Seq::empty()
    } else {
        report_text(groups.drop_last()) + group_section(groups.len() as nat, groups.last())
    }
}

/// Appends the lines that name `members` to `text`.
fn append_member_lines(text: &mut String, members: &Vec<String>)
    ensures
        final(text)@ == old(text)@ + member_lines(text_views(members@)),
{
    let ghost paths = text_views(members@);
    let mut m: usize = 0;
    while m < members.len()
        invariant
            m <= members@.len(),
            paths == text_views(members@),
            text@ == old(text)@ + member_lines(paths.take(m as int)),
        decreases members@.len() - m,
    {
        let ghost earlier = text@;
        text.append("  ");
        text.append(members[m].as_str());
        text.append("\n");
        proof {
            assert(paths.take(m + 1).drop_last() =~= paths.take(m as int));
            assert(paths.take(m + 1).last() == members@[m as int]@);
            assert(text@ =~= old(text)@ + member_lines(paths.take(m + 1)));
        }
        m += 1;
    }
    assert(paths.take(members@.len() as int) =~= paths);
}

/// Renders the report on `groups`.
pub fn render_report(groups: &Vec<DuplicateGroup>) -> (text: String)
    ensures
        text@ == report_text(group_views(groups@)),
{
    let ghost views = group_views(groups@);
    let mut text = String::new();
    let mut g: usize = 0;
    while g < groups.len()
        invariant
            g <= groups@.len(),
            views == group_views(groups@),
            text@ == report_text(views.take(g as int)),
        decreases groups@.len() - g,
    {
        let number = decimal_text(g + 1);
        text.append("Duplicate Group ");
        text.append(number.as_str());
        text.append(":\n");
        append_member_lines(&mut text, groups[g].members());
        text.append("\n");
        proof {
            assert(views.take(g + 1).drop_last() =~= views.take(g as int));
            assert(views.take(g + 1).last() == groups@[g as int]@);
            assert(text@ =~= report_text(views.take(g + 1)));
        }
        g += 1;
    }
    assert(views.take(groups@.len() as int) =~= views);
    text
}

} // verus!
