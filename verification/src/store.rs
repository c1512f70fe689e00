//! Mutations on the group document: adding hostnames to a group (created at
//! the end when missing), deleting hostnames across all groups, toggling
//! groups' disabled flags, and splitting comma-separated command tokens.
//! All name and hostname matching is case-insensitive on both sides.

use vstd::prelude::*;

use crate::groups::{clone_group, clone_string_vec, lower_of, eq_ignore_case, GroupModel,
    HostnameGroup, HostnameGroups};
use crate::text::{contains_char, nonempty_pieces, split_on, split_sep};

verus! {

/// The group's name equals the sought name, ignoring case.
pub open spec fn name_matches(g: GroupModel, name: Seq<char>) -> bool {
    lower_of(g.name) == lower_of(name)
}

/// Some group of the document matches the name.
pub open spec fn has_match(groups: Seq<GroupModel>, name: Seq<char>) -> bool {
    exists|i: int| 0 <= i < groups.len() && #[trigger] name_matches(groups[i], name)
}

/// The index of the first group matching the name.
pub open spec fn first_match(groups: Seq<GroupModel>, name: Seq<char>) -> int
    decreases groups.len(),
{
    if groups.len() == 0 {
        0
    } else if name_matches(groups[0], name) {
        0
    } else {
        1 + first_match(groups.drop_first(), name)
    }
}

/// When a match exists, `first_match` lands on the first matching group.
pub proof fn lemma_first_match(groups: Seq<GroupModel>, name: Seq<char>)
    requires
        has_match(groups, name),
    ensures
        0 <= first_match(groups, name) < groups.len(),
        name_matches(groups[first_match(groups, name)], name),
        forall|k: int| 0 <= k < first_match(groups, name) ==> !name_matches(
            #[trigger] groups[k],
            name,
        ),
    decreases groups.len(),
{
    if name_matches(groups[0], name) {
    } else {
        let rest = groups.drop_first();
        assert(has_match(rest, name)) by {
            let i = choose|i: int| 0 <= i < groups.len() && #[trigger] name_matches(
                groups[i],
                name,
            );
            assert(i > 0);
            assert(rest[i - 1] == groups[i]);
            assert(name_matches(rest[i - 1], name));
        }
        lemma_first_match(rest, name);
        assert(forall|k: int| 1 <= k < groups.len() ==> #[trigger] groups[k] == rest[k - 1]);
    }
}

/// Only candidates containing a dot are accepted as hostnames; other tokens
/// are silently dropped.
pub open spec fn valid_hostname(h: Seq<char>) -> bool {
    h.contains('.')
}

/// The accepted candidates, in order.
pub open spec fn filter_valid(hostnames: Seq<Seq<char>>) -> Seq<Seq<char>>
    decreases hostnames.len(),
{
    if hostnames.len() == 0 {
        Seq::empty()
    } else {
        let rest = filter_valid(hostnames.drop_last());
        if valid_hostname(hostnames.last()) {
            rest.push(hostnames.last())
        } else {
            rest
        }
    }
}

/// Adding hostnames: the accepted candidates are appended to the first
/// group whose name matches ignoring case; when no group matches, a new
/// group with the given name and the accepted candidates is appended at the
/// end, not disabled.
pub open spec fn add_spec(groups: Seq<GroupModel>, name: Seq<char>, hostnames: Seq<Seq<char>>)
    -> Seq<GroupModel> {
    let accepted = filter_valid(hostnames);
    if has_match(groups, name) {
        let j = first_match(groups, name);
        groups.update(
            j,
            GroupModel {
                name: groups[j].name,
                hostnames: groups[j].hostnames + accepted,
                disabled: groups[j].disabled,
            },
        )
    } else {
        groups.push(GroupModel { name, hostnames: accepted, disabled: None })
    }
}

/// Appends clones of `src`'s strings to `dst`.
fn append_string_vec(dst: &mut Vec<String>, src: &Vec<String>)
    ensures
        final(dst).deep_view() == old(dst).deep_view() + src.deep_view(),
{
    let ghost base = dst.deep_view();
    let mut i: usize = 0;
    while i < src.len()
        invariant
            i <= src.len(),
            dst.deep_view() == base + src.deep_view().take(i as int),
        decreases src.len() - i,
    {
        let ghost prev = dst.deep_view();
        dst.push(src[i].clone());
        proof {
            assert(dst.deep_view() =~= prev.push(src@[i as int]@));
            assert(base + src.deep_view().take(i + 1) =~= prev.push(src@[i as int]@));
        }
        i = i + 1;
    }
    proof {
        assert(src.deep_view().take(src@.len() as int) =~= src.deep_view());
    }
}

/// Adds the given hostname candidates to the named group, creating the
/// group at the end of the document when it is missing.
pub fn add_hostnames(groups: &mut HostnameGroups, group_name: &str, hostnames: &Vec<String>)
    ensures
        final(groups).deep_view() == add_spec(
            old(groups).deep_view(),
            group_name@,
            hostnames.deep_view(),
        ),
{
    let ghost doc = groups.deep_view();
    let ghost hv = hostnames.deep_view();

    let mut accepted: Vec<String> = Vec::new();
    let mut t: usize = 0;
    while t < hostnames.len()
        invariant
            t <= hostnames.len(),
            hv == hostnames.deep_view(),
            hv.len() == hostnames.len(),
            accepted.deep_view() == filter_valid(hv.take(t as int)),
        decreases hostnames.len() - t,
    {
        let ghost prev = accepted.deep_view();
        if contains_char(hostnames[t].as_str(), '.') {
            accepted.push(hostnames[t].clone());
            proof {
                assert(accepted.deep_view() =~= prev.push(hv[t as int]));
            }
        }
        proof {
            assert(hv.take(t + 1).drop_last() =~= hv.take(t as int));
            assert(hv.take(t + 1).last() == hv[t as int]);
        }
        t = t + 1;
    }
    proof {
        assert(hv.take(hv.len() as int) =~= hv);
    }

    let mut found = false;
    let mut idx: usize = 0;
    let mut i: usize = 0;
    while i < groups.len()
        invariant
            i <= groups.len(),
            doc == groups.deep_view(),
            doc.len() == groups.len(),
            !found ==> forall|k: int| 0 <= k < i ==> !name_matches(#[trigger] doc[k], group_name@),
            found ==> idx < i && name_matches(doc[idx as int], group_name@) && forall|k: int|
                0 <= k < idx ==> !name_matches(#[trigger] doc[k], group_name@),
        decreases groups.len() - i,
    {
        if !found && eq_ignore_case(groups[i].name.as_str(), group_name) {
            found = true;
            idx = i;
        }
        i = i + 1;
    }

    if found {
        proof {
            assert(has_match(doc, group_name@));
            lemma_first_match(doc, group_name@);
            assert(first_match(doc, group_name@) == idx as int) by {
                let fm = first_match(doc, group_name@);
                if fm < idx as int {
                    assert(!name_matches(doc[fm], group_name@));
                } else if (idx as int) < fm {
                    assert(!name_matches(doc[idx as int], group_name@));
                }
            }
        }
        let ghost target = add_spec(doc, group_name@, hv);
        let mut res: Vec<HostnameGroup> = Vec::new();
        let mut k: usize = 0;
        while k < groups.len()
            invariant
                k <= groups.len(),
                doc == groups.deep_view(),
                doc.len() == groups.len(),
                idx < groups.len(),
                target == add_spec(doc, group_name@, hv),
                target.len() == doc.len(),
                first_match(doc, group_name@) == idx as int,
                has_match(doc, group_name@),
                accepted.deep_view() == filter_valid(hv),
                res.deep_view() == target.take(k as int),
            decreases groups.len() - k,
        {
            let ghost prev = res.deep_view();
            if k == idx {
                let mut merged = clone_string_vec(&groups[k].hostnames);
                append_string_vec(&mut merged, &accepted);
                let g = HostnameGroup {
                    name: groups[k].name.clone(),
                    hostnames: merged,
                    disabled: groups[k].disabled,
                };
                proof {
                    assert(g@ =~= target[k as int]);
                }
                res.push(g);
            } else {
                res.push(clone_group(&groups[k]));
            }
            proof {
                assert(res.deep_view() =~= prev.push(target[k as int]));
                assert(target.take(k + 1) =~= target.take(k as int).push(target[k as int]));
            }
            k = k + 1;
        }
        proof {
            assert(target.take(target.len() as int) =~= target);
        }
        *groups = res;
    } else {
        proof {
            assert(!has_match(doc, group_name@)) by {
                assert(forall|k: int| 0 <= k < doc.len() ==> !name_matches(
                    #[trigger] doc[k],
                    group_name@,
                ));
            }
        }
        let g = HostnameGroup::new(group_name.to_owned(), accepted);
        let ghost prev = groups.deep_view();
        groups.push(g);
        proof {
            assert(groups.deep_view() =~= prev.push(
                GroupModel { name: group_name@, hostnames: filter_valid(hv), disabled: None },
            ));
        }
    }
}

/// The hostname's lowercase form equals some deletion token's lowercase
/// form.
pub open spec fn matched_by(tokens: Seq<Seq<char>>, h: Seq<char>) -> bool {
    exists|i: int| 0 <= i < tokens.len() && lower_of(h) == lower_of(#[trigger] tokens[i])
}

/// The hostnames that survive a deletion, in order.
pub open spec fn keep_hostnames(hostnames: Seq<Seq<char>>, tokens: Seq<Seq<char>>)
    -> Seq<Seq<char>>
    decreases hostnames.len(),
{
    if hostnames.len() == 0 {
        Seq::empty()
    } else {
        let rest = keep_hostnames(hostnames.drop_last(), tokens);
        if matched_by(tokens, hostnames.last()) {
            rest
        } else {
            rest.push(hostnames.last())
        }
    }
}

/// Deleting hostnames: in every group, every hostname matching any token
/// ignoring case is removed; names, flags, group order and the other
/// hostnames are untouched.
pub open spec fn delete_spec(groups: Seq<GroupModel>, tokens: Seq<Seq<char>>) -> Seq<GroupModel> {
    groups.map_values(
        |g: GroupModel|
            GroupModel {
                name: g.name,
                hostnames: keep_hostnames(g.hostnames, tokens),
                disabled: g.disabled,
            },
    )
}

/// Does any token match the hostname, ignoring case?
fn matched_by_any(tokens: &Vec<String>, h: &str) -> (m: bool)
    ensures
        m == matched_by(tokens.deep_view(), h@),
{
    let mut i: usize = 0;
    while i < tokens.len()
        invariant
            i <= tokens.len(),
            tokens.deep_view().len() == tokens.len(),
            forall|k: int| 0 <= k < i ==> lower_of(h@) != lower_of(
                #[trigger] tokens.deep_view()[k],
            ),
        decreases tokens.len() - i,
    {
        if eq_ignore_case(h, tokens[i].as_str()) {
            proof {
                assert(lower_of(h@) == lower_of(tokens.deep_view()[i as int]));
            }
            return true;
        }
        i = i + 1;
    }
    false
}

/// Removes every hostname that matches one of the tokens, ignoring case,
/// from every group.
pub fn delete_hostnames(groups: &mut HostnameGroups, tokens: &Vec<String>)
    ensures
        final(groups).deep_view() == delete_spec(old(groups).deep_view(), tokens.deep_view()),
{
    let ghost doc = groups.deep_view();
    let ghost toks = tokens.deep_view();
    let ghost target = delete_spec(doc, toks);
    let mut res: Vec<HostnameGroup> = Vec::new();
    let mut i: usize = 0;
    while i < groups.len()
        invariant
            i <= groups.len(),
            doc == groups.deep_view(),
            doc.len() == groups.len(),
            toks == tokens.deep_view(),
            target == delete_spec(doc, toks),
            target.len() == doc.len(),
            res.deep_view() == target.take(i as int),
        decreases groups.len() - i,
    {
        let hostnames = &groups[i].hostnames;
        let ghost hv = doc[i as int].hostnames;
        proof {
            assert(hv == hostnames.deep_view());
        }
        let mut kept: Vec<String> = Vec::new();
        let mut j: usize = 0;
        while j < hostnames.len()
            invariant
                j <= hostnames.len(),
                hv == hostnames.deep_view(),
                hv.len() == hostnames.len(),
                toks == tokens.deep_view(),
                kept.deep_view() == keep_hostnames(hv.take(j as int), toks),
            decreases hostnames.len() - j,
        {
            let ghost prev = kept.deep_view();
            if !matched_by_any(tokens, hostnames[j].as_str()) {
                kept.push(hostnames[j].clone());
                proof {
                    assert(kept.deep_view() =~= prev.push(hv[j as int]));
                }
            }
            proof {
                assert(hv.take(j + 1).drop_last() =~= hv.take(j as int));
                assert(hv.take(j + 1).last() == hv[j as int]);
            }
            j = j + 1;
        }
        let g = HostnameGroup {
            name: groups[i].name.clone(),
            hostnames: kept,
            disabled: groups[i].disabled,
        };
        let ghost prev = res.deep_view();
        proof {
            assert(hv.take(hv.len() as int) =~= hv);
            assert(g@ =~= target[i as int]);
        }
        res.push(g);
        proof {
            assert(res.deep_view() =~= prev.push(target[i as int]));
            assert(target.take(i + 1) =~= target.take(i as int).push(target[i as int]));
        }
        i = i + 1;
    }
    proof {
        assert(target.take(target.len() as int) =~= target);
    }
    *groups = res;
}

/// One toggle: an absent flag counts as "not disabled" and flips to
/// disabled.
pub open spec fn flip(disabled: Option<bool>) -> Option<bool> {
    match disabled {
        None => Some(true),
        Some(b) => Some(!b),
    }
}

/// One pass with one name: every group matching the name, ignoring case,
/// has its flag flipped.
pub open spec fn toggle_one(groups: Seq<GroupModel>, name: Seq<char>) -> Seq<GroupModel> {
    groups.map_values(
        |g: GroupModel|
            if name_matches(g, name) {
                GroupModel { name: g.name, hostnames: g.hostnames, disabled: flip(g.disabled) }
            } else {
                g
            },
    )
}

/// Toggling with several names applies the passes in order; a group named
/// twice is flipped twice.
pub open spec fn toggle_spec(groups: Seq<GroupModel>, names: Seq<Seq<char>>) -> Seq<GroupModel>
    decreases names.len(),
{
    if names.len() == 0 {
        groups
    } else {
        toggle_one(toggle_spec(groups, names.drop_last()), names.last())
    }
}

/// Flips the disabled flag of every group whose name matches one of the
/// given names, ignoring case.
pub fn toggle_groups(groups: &mut HostnameGroups, names: &Vec<String>)
    ensures
        final(groups).deep_view() == toggle_spec(old(groups).deep_view(), names.deep_view()),
{
    let ghost orig = groups.deep_view();
    let ghost nv = names.deep_view();
    let mut t: usize = 0;
    while t < names.len()
        invariant
            t <= names.len(),
            nv == names.deep_view(),
            nv.len() == names.len(),
            groups.deep_view() == toggle_spec(orig, nv.take(t as int)),
        decreases names.len() - t,
    {
        let ghost cur = groups.deep_view();
        let ghost pass = toggle_one(cur, nv[t as int]);
        let mut res: Vec<HostnameGroup> = Vec::new();
        let mut i: usize = 0;
        while i < groups.len()
            invariant
                i <= groups.len(),
                cur == groups.deep_view(),
                cur.len() == groups.len(),
                nv.len() == names.len(),
                t < names.len(),
                nv[t as int] == names.deep_view()[t as int],
                pass == toggle_one(cur, nv[t as int]),
                pass.len() == cur.len(),
                res.deep_view() == pass.take(i as int),
            decreases groups.len() - i,
        {
            let ghost prev = res.deep_view();
            let g = if eq_ignore_case(groups[i].name.as_str(), names[t].as_str()) {
                let flipped = match groups[i].disabled {
                    None => Some(true),
                    Some(b) => Some(!b),
                };
                HostnameGroup {
                    name: groups[i].name.clone(),
                    hostnames: clone_string_vec(&groups[i].hostnames),
                    disabled: flipped,
                }
            } else {
                clone_group(&groups[i])
            };
            proof {
                assert(g@ =~= pass[i as int]);
            }
            res.push(g);
            proof {
                assert(res.deep_view() =~= prev.push(pass[i as int]));
                assert(pass.take(i + 1) =~= pass.take(i as int).push(pass[i as int]));
            }
            i = i + 1;
        }
        proof {
            assert(pass.take(pass.len() as int) =~= pass);
        }
        *groups = res;
        proof {
            assert(nv.take(t + 1).drop_last() =~= nv.take(t as int));
            assert(nv.take(t + 1).last() == nv[t as int]);
        }
        t = t + 1;
    }
    proof {
        assert(nv.take(nv.len() as int) =~= nv);
    }
}

/// A group passes the listing filter when the filter is empty or occurs as
/// a substring of the group's lowercased name. The filter itself is taken
/// as given, not lowercased.
pub open spec fn listing_matches(g: GroupModel, filter: Seq<char>) -> bool {
    filter.len() == 0 || crate::text::contains_seq(lower_of(g.name), filter)
}

/// The groups that pass the listing filter, in document order.
pub open spec fn filter_groups_spec(groups: Seq<GroupModel>, filter: Seq<char>)
    -> Seq<GroupModel>
    decreases groups.len(),
{
    if groups.len() == 0 {
        Seq::empty()
    } else {
        let rest = filter_groups_spec(groups.drop_last(), filter);
        if listing_matches(groups.last(), filter) {
            rest.push(groups.last())
        } else {
            rest
        }
    }
}

/// Selects the groups whose lowercased name contains the filter; an empty
/// filter selects every group.
pub fn filter_groups(groups: &HostnameGroups, filter: &str) -> (selected: HostnameGroups)
    ensures
        selected.deep_view() == filter_groups_spec(groups.deep_view(), filter@),
{
    let ghost doc = groups.deep_view();
    let empty_filter = filter.is_empty();
    let mut selected: Vec<HostnameGroup> = Vec::new();
    let mut i: usize = 0;
    while i < groups.len()
        invariant
            i <= groups.len(),
            doc == groups.deep_view(),
            doc.len() == groups.len(),
            empty_filter == (filter@.len() == 0),
            selected.deep_view() == filter_groups_spec(doc.take(i as int), filter@),
        decreases groups.len() - i,
    {
        let ghost prev = selected.deep_view();
        let keep = if empty_filter {
            true
        } else {
            let lname = crate::groups::lowercase(groups[i].name.as_str());
            crate::text::contains_sub(lname.as_str(), filter)
        };
        proof {
            assert(keep == listing_matches(doc[i as int], filter@));
        }
        if keep {
            selected.push(clone_group(&groups[i]));
            proof {
                assert(selected.deep_view() =~= prev.push(doc[i as int]));
            }
        }
        proof {
            assert(doc.take(i + 1).drop_last() =~= doc.take(i as int));
            assert(doc.take(i + 1).last() == doc[i as int]);
        }
        i = i + 1;
    }
    proof {
        assert(doc.take(doc.len() as int) =~= doc);
    }
    selected
}

/// Splits a comma-separated command token list; empty tokens are dropped.
pub open spec fn split_args_spec(s: Seq<char>) -> Seq<Seq<char>> {
    nonempty_pieces(split_on(s, ','))
}

/// Splits a comma-separated command argument into its non-empty tokens.
pub fn split_args(s: &str) -> (tokens: Vec<String>)
    ensures
        tokens.deep_view() == split_args_spec(s@),
{
    let pieces = split_sep(s, ',');
    let ghost pv = pieces.deep_view();
    let mut tokens: Vec<String> = Vec::new();
    let mut i: usize = 0;
    while i < pieces.len()
        invariant
            i <= pieces.len(),
            pv == pieces.deep_view(),
            pv.len() == pieces.len(),
            tokens.deep_view() == nonempty_pieces(pv.take(i as int)),
        decreases pieces.len() - i,
    {
        let ghost prev = tokens.deep_view();
        if !pieces[i].as_str().is_empty() {
            tokens.push(pieces[i].clone());
            proof {
                assert(tokens.deep_view() =~= prev.push(pv[i as int]));
            }
        }
        proof {
            assert(pv.take(i + 1).drop_last() =~= pv.take(i as int));
            assert(pv.take(i + 1).last() == pv[i as int]);
        }
        i = i + 1;
    }
    proof {
        assert(pv.take(pv.len() as int) =~= pv);
    }
    tokens
}

} // verus!
