//! Builds the one managed hosts line: the loopback address, the anchor
//! token, then every hostname of every group in document order, each
//! followed by a synthesized `www.`-prefixed variant unless the hostname
//! already carries `www.` somewhere in it.

use vstd::prelude::*;

use crate::groups::{GroupModel, HostnameGroups};
use crate::text::contains_seq;
use crate::text::contains_sub;

verus! {

/// The anchor token that identifies the managed line.
pub open spec fn anchor() -> Seq<char> {
    "refocus.dev"@
}

/// The anchor token as a string slice.
pub fn anchor_str() -> (s: &'static str)
    ensures
        s@ == anchor(),
{
    "refocus.dev"
}

/// The `www.` marker.
pub open spec fn www_marker() -> Seq<char> {
    "www."@
}

/// What one hostname contributes to the managed line: the hostname and a
/// space, then — only when the hostname does not already contain `www.` —
/// its `www.`-prefixed variant and a space.
pub open spec fn entry_for(h: Seq<char>) -> Seq<char> {
    if contains_seq(h, www_marker()) {
        h + " "@
    } else {
        h + " "@ + www_marker() + h + " "@
    }
}

/// The entries of one group's hostnames, in order.
pub open spec fn entries_for_hostnames(hostnames: Seq<Seq<char>>) -> Seq<char>
    decreases hostnames.len(),
{
    if hostnames.len() == 0 {
        Seq::empty()
    } else {
        entries_for_hostnames(hostnames.drop_last()) + entry_for(hostnames.last())
    }
}

/// The entries of all groups, in document order. Disabled groups are not
/// filtered out, and a hostname held by two groups appears twice.
pub open spec fn entries_for_groups(groups: Seq<GroupModel>) -> Seq<char>
    decreases groups.len(),
{
    if groups.len() == 0 {
        Seq::empty()
    } else {
        entries_for_groups(groups.drop_last()) + entries_for_hostnames(groups.last().hostnames)
    }
}

/// The full managed line for a group document.
pub open spec fn refocus_line_spec(groups: Seq<GroupModel>) -> Seq<char> {
    "127.0.0.1 "@ + anchor() + " "@ + entries_for_groups(groups)
}

/// A hostname that already carries the `www.` marker contributes a single
/// token: no second, `www.`-prefixed variant is synthesized for it.
pub proof fn lemma_no_double_www(h: Seq<char>)
    requires
        contains_seq(h, www_marker()),
    ensures
        entry_for(h) == h + " "@,
{
}

/// A well-formed group document: no hostname contains a newline, so the
/// managed line really is a single line.
pub open spec fn groups_wf(groups: Seq<GroupModel>) -> bool {
    forall|i: int, j: int|
        0 <= i < groups.len() && 0 <= j < groups[i].hostnames.len() ==> !(
        #[trigger] groups[i].hostnames[j]).contains('\n')
}

proof fn lemma_entries_hostnames_no_newline(hostnames: Seq<Seq<char>>)
    requires
        forall|j: int| 0 <= j < hostnames.len() ==> !(#[trigger] hostnames[j]).contains('\n'),
    ensures
        !entries_for_hostnames(hostnames).contains('\n'),
    decreases hostnames.len(),
{
    reveal_strlit(" ");
    reveal_strlit("www.");
    if hostnames.len() == 0 {
        assert(!entries_for_hostnames(hostnames).contains('\n'));
    } else {
        assert(forall|j: int|
            0 <= j < hostnames.drop_last().len() ==> !(#[trigger] hostnames.drop_last()[
            j]).contains('\n'));
        lemma_entries_hostnames_no_newline(hostnames.drop_last());
        let h = hostnames.last();
        assert(!" "@.contains('\n'));
        assert(!www_marker().contains('\n'));
        crate::text::lemma_concat_contains(h, " "@, '\n');
        crate::text::lemma_concat_contains(h + " "@, www_marker(), '\n');
        crate::text::lemma_concat_contains(h + " "@ + www_marker(), h, '\n');
        crate::text::lemma_concat_contains(h + " "@ + www_marker() + h, " "@, '\n');
        assert(!entry_for(h).contains('\n'));
        crate::text::lemma_concat_contains(
            entries_for_hostnames(hostnames.drop_last()),
            entry_for(h),
            '\n',
        );
    }
}

/// For a well-formed document the managed line contains no newline.
pub proof fn lemma_refocus_line_no_newline(groups: Seq<GroupModel>)
    requires
        groups_wf(groups),
    ensures
        !refocus_line_spec(groups).contains('\n'),
    decreases groups.len(),
{
    reveal_strlit("127.0.0.1 ");
    reveal_strlit("refocus.dev");
    reveal_strlit(" ");
    assert(!entries_for_groups(groups).contains('\n')) by {
        lemma_entries_groups_no_newline(groups);
    }
    assert(!"127.0.0.1 "@.contains('\n'));
    assert(!anchor().contains('\n'));
    assert(!" "@.contains('\n'));
    crate::text::lemma_concat_contains("127.0.0.1 "@, anchor(), '\n');
    crate::text::lemma_concat_contains("127.0.0.1 "@ + anchor(), " "@, '\n');
    crate::text::lemma_concat_contains(
        "127.0.0.1 "@ + anchor() + " "@,
        entries_for_groups(groups),
        '\n',
    );
}

proof fn lemma_entries_groups_no_newline(groups: Seq<GroupModel>)
    requires
        groups_wf(groups),
    ensures
        !entries_for_groups(groups).contains('\n'),
    decreases groups.len(),
{
    if groups.len() == 0 {
    } else {
        assert(groups_wf(groups.drop_last())) by {
            assert(forall|i: int|
                0 <= i < groups.drop_last().len() ==> #[trigger] groups.drop_last()[i]
                    == groups[i]);
        }
        lemma_entries_groups_no_newline(groups.drop_last());
        let hs = groups.last().hostnames;
        assert(forall|j: int| 0 <= j < hs.len() ==> !(#[trigger] hs[j]).contains('\n')) by {
            assert(groups.last() == groups[groups.len() - 1]);
        }
        lemma_entries_hostnames_no_newline(hs);
        crate::text::lemma_concat_contains(
            entries_for_groups(groups.drop_last()),
            entries_for_hostnames(hs),
            '\n',
        );
    }
}

/// The managed line always contains the anchor token.
pub proof fn lemma_refocus_line_has_anchor(groups: Seq<GroupModel>)
    ensures
        contains_seq(refocus_line_spec(groups), anchor()),
{
    reveal_strlit("127.0.0.1 ");
    reveal_strlit("refocus.dev");
    let line = refocus_line_spec(groups);
    assert(line.subrange(10, 10 + anchor().len() as int) =~= anchor());
}

/// Renders the managed line for the given groups.
pub fn construct_refocus_line(hostgroups: &HostnameGroups) -> (line: String)
    ensures
        line@ == refocus_line_spec(hostgroups.deep_view()),
{
    let ghost all = hostgroups.deep_view();
    let mut line = String::from_str("127.0.0.1 ");
    line.append("refocus.dev");
    line.append(" ");
    let mut g: usize = 0;
    while g < hostgroups.len()
        invariant
            g <= hostgroups.len(),
            all == hostgroups.deep_view(),
            all.len() == hostgroups.len(),
            line@ == "127.0.0.1 "@ + anchor() + " "@ + entries_for_groups(all.take(g as int)),
        decreases hostgroups.len() - g,
    {
        let hostnames = &hostgroups[g].hostnames;
        let ghost hs = all[g as int].hostnames;
        proof {
            assert(hs == hostnames.deep_view());
        }
        let mut j: usize = 0;
        while j < hostnames.len()
            invariant
                j <= hostnames.len(),
                hs == hostnames.deep_view(),
                hs.len() == hostnames.len(),
                line@ == "127.0.0.1 "@ + anchor() + " "@ + entries_for_groups(all.take(g as int))
                    + entries_for_hostnames(hs.take(j as int)),
            decreases hostnames.len() - j,
        {
            let ghost before = line@;
            let h = &hostnames[j];
            line.append(h.as_str());
            line.append(" ");
            if !contains_sub(h.as_str(), "www.") {
                line.append("www.");
                line.append(h.as_str());
                line.append(" ");
                proof {
                    assert(line@ =~= before + entry_for(hs[j as int]));
                }
            } else {
                proof {
                    assert(line@ =~= before + entry_for(hs[j as int]));
                }
            }
            proof {
                assert(hs.take(j + 1).drop_last() =~= hs.take(j as int));
                assert(hs.take(j + 1).last() == hs[j as int]);
                assert(entries_for_hostnames(hs.take(j + 1)) == entries_for_hostnames(
                    hs.take(j as int),
                ) + entry_for(hs[j as int]));
                assert(line@ =~= "127.0.0.1 "@ + anchor() + " "@ + entries_for_groups(
                    all.take(g as int),
                ) + entries_for_hostnames(hs.take(j + 1)));
            }
            j = j + 1;
        }
        proof {
            assert(hs.take(hs.len() as int) =~= hs);
            assert(all.take(g + 1).drop_last() =~= all.take(g as int));
            assert(all.take(g + 1).last() == all[g as int]);
            assert(entries_for_groups(all.take(g + 1)) == entries_for_groups(all.take(g as int))
                + entries_for_hostnames(hs));
            assert(line@ =~= "127.0.0.1 "@ + anchor() + " "@ + entries_for_groups(all.take(g + 1)));
        }
        g = g + 1;
    }
    proof {
        assert(all.take(all.len() as int) =~= all);
    }
    line
}

} // verus!
