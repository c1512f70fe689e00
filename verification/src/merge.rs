//! Merges the managed line into hosts-file content. The content is split
//! into lines; every line that contains the anchor token is replaced by the
//! freshly built managed line, and when no line contains it the managed
//! line is appended as a new final line. Every other line is preserved
//! verbatim, and every line of the output ends in one newline.

use vstd::prelude::*;

use crate::groups::{GroupModel, HostnameGroups};
use crate::line::{
    anchor, anchor_str, construct_refocus_line, groups_wf, lemma_refocus_line_has_anchor,
    lemma_refocus_line_no_newline, refocus_line_spec,
};
use crate::text::{
    contains_seq, contains_sub, join_lines, lemma_join_push, lemma_split_join,
    lemma_split_on_no_sep, split_on, split_sep,
};

verus! {

/// A line that belongs to this tool: it contains the anchor token.
pub open spec fn line_is_managed(l: Seq<char>) -> bool {
    contains_seq(l, anchor())
}

/// Some line of the document contains the anchor token.
pub open spec fn has_anchor_line(lines: Seq<Seq<char>>) -> bool {
    exists|i: int| 0 <= i < lines.len() && #[trigger] line_is_managed(lines[i])
}

/// Every anchor-bearing line replaced by the managed line, all other lines
/// kept verbatim.
pub open spec fn replace_managed(lines: Seq<Seq<char>>, managed: Seq<char>) -> Seq<Seq<char>> {
    lines.map_values(
        |l: Seq<char>|
            if line_is_managed(l) {
                managed
            } else {
                l
            },
    )
}

/// The merged document: anchor lines regenerated in place, or the managed
/// line appended when none exists; each line followed by one newline.
pub open spec fn merge_spec(content: Seq<char>, groups: Seq<GroupModel>) -> Seq<char> {
    let managed = refocus_line_spec(groups);
    let lines = split_on(content, '\n');
    if has_anchor_line(lines) {
        join_lines(replace_managed(lines, managed))
    } else {
        join_lines(lines.push(managed))
    }
}

/// Produces new hosts-file content with the managed line for `hostgroups`
/// merged into `content`.
pub fn merge_hosts(content: &str, hostgroups: &HostnameGroups) -> (out: String)
    ensures
        out@ == merge_spec(content@, hostgroups.deep_view()),
{
    let lines = split_sep(content, '\n');
    let ghost doc = lines.deep_view();
    let managed = construct_refocus_line(hostgroups);
    let ghost ml = managed@;

    let mut found = false;
    let mut i: usize = 0;
    while i < lines.len()
        invariant
            i <= lines.len(),
            doc == lines.deep_view(),
            doc.len() == lines.len(),
            found ==> has_anchor_line(doc),
            !found ==> forall|k: int| 0 <= k < i ==> !line_is_managed(#[trigger] doc[k]),
        decreases lines.len() - i,
    {
        if contains_sub(lines[i].as_str(), anchor_str()) {
            proof {
                assert(line_is_managed(doc[i as int]));
            }
            found = true;
        }
        i = i + 1;
    }

    let mut out = String::new();
    if found {
        let ghost target = replace_managed(doc, ml);
        let mut j: usize = 0;
        while j < lines.len()
            invariant
                j <= lines.len(),
                doc == lines.deep_view(),
                doc.len() == lines.len(),
                ml == managed@,
                target == replace_managed(doc, ml),
                out@ == join_lines(target.take(j as int)),
            decreases lines.len() - j,
        {
            let ghost before = out@;
            if contains_sub(lines[j].as_str(), anchor_str()) {
                out.append(managed.as_str());
            } else {
                out.append(lines[j].as_str());
            }
            out.append("\n");
            proof {
                reveal_strlit("\n");
                assert("\n"@ =~= seq!['\n']);
                assert(target[j as int] == if line_is_managed(doc[j as int]) {
                    ml
                } else {
                    doc[j as int]
                });
                lemma_join_push(target.take(j as int), target[j as int]);
                assert(target.take(j + 1) =~= target.take(j as int).push(target[j as int]));
                assert(out@ =~= join_lines(target.take(j + 1)));
            }
            j = j + 1;
        }
        proof {
            assert(target.take(target.len() as int) =~= target);
            assert(has_anchor_line(doc));
        }
    } else {
        let mut j: usize = 0;
        while j < lines.len()
            invariant
                j <= lines.len(),
                doc == lines.deep_view(),
                doc.len() == lines.len(),
                out@ == join_lines(doc.take(j as int)),
            decreases lines.len() - j,
        {
            out.append(lines[j].as_str());
            out.append("\n");
            proof {
                reveal_strlit("\n");
                assert("\n"@ =~= seq!['\n']);
                lemma_join_push(doc.take(j as int), doc[j as int]);
                assert(doc.take(j + 1) =~= doc.take(j as int).push(doc[j as int]));
                assert(out@ =~= join_lines(doc.take(j + 1)));
            }
            j = j + 1;
        }
        out.append(managed.as_str());
        out.append("\n");
        proof {
            reveal_strlit("\n");
            assert("\n"@ =~= seq!['\n']);
            assert(doc.take(doc.len() as int) =~= doc);
            lemma_join_push(doc, ml);
            assert(out@ =~= join_lines(doc.push(ml)));
            assert(!has_anchor_line(doc)) by {
                assert(forall|k: int| 0 <= k < doc.len() ==> !line_is_managed(#[trigger] doc[k]));
            }
        }
    }
    out
}

/// Merging is idempotent: merging the merge's own output with the same
/// groups returns that output unchanged.
pub proof fn lemma_merge_idempotent(content: Seq<char>, groups: Seq<GroupModel>)
    requires
        groups_wf(groups),
    ensures
        merge_spec(merge_spec(content, groups), groups) == merge_spec(content, groups),
{
    let ml = refocus_line_spec(groups);
    let lines = split_on(content, '\n');
    lemma_refocus_line_no_newline(groups);
    lemma_refocus_line_has_anchor(groups);
    lemma_split_on_no_sep(content, '\n');
    if has_anchor_line(lines) {
        let replaced = replace_managed(lines, ml);
        assert(forall|k: int| 0 <= k < replaced.len() ==> !(#[trigger] replaced[k]).contains('\n'));
        lemma_split_join(replaced);
        let out = join_lines(replaced);
        assert(split_on(out, '\n') == replaced);
        let w = choose|i: int| 0 <= i < lines.len() && #[trigger] line_is_managed(lines[i]);
        assert(replaced[w] == ml);
        assert(line_is_managed(replaced[w]));
        assert(has_anchor_line(replaced));
        assert(replace_managed(replaced, ml) =~= replaced);
        assert(merge_spec(out, groups) == out);
    } else {
        let appended = lines.push(ml);
        assert(forall|k: int| 0 <= k < appended.len() ==> !(#[trigger] appended[k]).contains('\n'));
        lemma_split_join(appended);
        let out = join_lines(appended);
        assert(split_on(out, '\n') == appended);
        assert(appended[appended.len() - 1] == ml);
        assert(line_is_managed(appended[appended.len() - 1]));
        assert(has_anchor_line(appended));
        assert(replace_managed(appended, ml) =~= appended) by {
            assert(forall|k: int|
                0 <= k < lines.len() ==> !line_is_managed(#[trigger] appended[k]));
        }
        assert(merge_spec(out, groups) == out);
    }
}

/// A merge never multiplies anchor lines: on content holding at most one
/// line with the anchor token, the output holds exactly one — the managed
/// line — and every line without the token is preserved verbatim in place.
pub proof fn lemma_merge_keeps_anchor_unique(content: Seq<char>, groups: Seq<GroupModel>)
    requires
        groups_wf(groups),
        forall|i: int, j: int|
            0 <= i < split_on(content, '\n').len() && 0 <= j < split_on(content, '\n').len()
                && line_is_managed(#[trigger] split_on(content, '\n')[i]) && line_is_managed(
                #[trigger] split_on(content, '\n')[j],
            ) ==> i == j,
    ensures
        ({
            let before = split_on(content, '\n');
            let after = split_on(merge_spec(content, groups), '\n');
            &&& exists|i: int| 0 <= i < after.len() && line_is_managed(#[trigger] after[i])
            &&& forall|i: int, j: int|
                0 <= i < after.len() && 0 <= j < after.len() && line_is_managed(
                    #[trigger] after[i],
                ) && line_is_managed(#[trigger] after[j]) ==> i == j
            &&& forall|k: int|
                0 <= k < before.len() && !line_is_managed(#[trigger] before[k]) ==> after[k]
                    == before[k]
        }),
{
    let ml = refocus_line_spec(groups);
    let before = split_on(content, '\n');
    lemma_refocus_line_no_newline(groups);
    lemma_refocus_line_has_anchor(groups);
    lemma_split_on_no_sep(content, '\n');
    if has_anchor_line(before) {
        let after = replace_managed(before, ml);
        assert(forall|k: int| 0 <= k < after.len() ==> !(#[trigger] after[k]).contains('\n'));
        lemma_split_join(after);
        assert(split_on(merge_spec(content, groups), '\n') == after);
        assert(forall|k: int|
            0 <= k < after.len() ==> (line_is_managed(#[trigger] after[k]) <==> line_is_managed(
                before[k],
            )));
        let w = choose|i: int| 0 <= i < before.len() && #[trigger] line_is_managed(before[i]);
        assert(line_is_managed(after[w]));
    } else {
        lemma_merge_appends_unique_anchor_line(content, groups);
        let after = split_on(merge_spec(content, groups), '\n');
        assert(line_is_managed(after[after.len() - 1]));
    }
}

/// On content with no existing anchor line, the merge appends exactly one
/// managed line at the end: every prior line is unchanged in place, and the
/// final line is the only one containing the anchor token.
pub proof fn lemma_merge_appends_unique_anchor_line(content: Seq<char>, groups: Seq<GroupModel>)
    requires
        groups_wf(groups),
        !has_anchor_line(split_on(content, '\n')),
    ensures
        ({
            let before = split_on(content, '\n');
            let after = split_on(merge_spec(content, groups), '\n');
            &&& after.len() == before.len() + 1
            &&& forall|i: int| 0 <= i < before.len() ==> after[i] == before[i]
            &&& after.last() == refocus_line_spec(groups)
            &&& forall|i: int|
                0 <= i < after.len() ==> (line_is_managed(#[trigger] after[i]) <==> i == after.len()
                    - 1)
        }),
{
    let ml = refocus_line_spec(groups);
    let before = split_on(content, '\n');
    lemma_refocus_line_no_newline(groups);
    lemma_refocus_line_has_anchor(groups);
    lemma_split_on_no_sep(content, '\n');
    let appended = before.push(ml);
    assert(forall|k: int| 0 <= k < appended.len() ==> !(#[trigger] appended[k]).contains('\n'));
    lemma_split_join(appended);
    assert(split_on(merge_spec(content, groups), '\n') == appended);
    assert(forall|k: int| 0 <= k < before.len() ==> !line_is_managed(#[trigger] appended[k]));
    assert(line_is_managed(appended[appended.len() - 1]));
}

} // verus!
