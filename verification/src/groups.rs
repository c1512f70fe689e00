//! Hostname groups: the configuration document is an ordered sequence of
//! named groups, each holding an ordered list of hostnames and an optional
//! disabled flag. Groups are looked up by case-insensitive name; the first
//! match wins.

use vstd::prelude::*;

verus! {

/// Mathematical model of one hostname group.
#[verifier::ext_equal]
pub struct GroupModel {
    pub name: Seq<char>,
    pub hostnames: Seq<Seq<char>>,
    pub disabled: Option<bool>,
}

/// The group document: an ordered sequence of groups, insertion order
/// preserved.
pub type HostnameGroups = Vec<HostnameGroup>;

/// One named group of hostnames. `disabled` is optional; an absent flag is
/// treated as "not disabled".
#[derive(Debug, Clone, PartialEq, Eq)]
pub struct HostnameGroup {
    pub name: String,
    pub hostnames: Vec<String>,
    pub disabled: Option<bool>,
}

impl View for HostnameGroup {
    type V = GroupModel;

    open spec fn view(&self) -> GroupModel {
        GroupModel {
            name: self.name@,
            hostnames: self.hostnames.deep_view(),
            disabled: self.disabled,
        }
    }
}

impl DeepView for HostnameGroup {
    type V = GroupModel;

    open spec fn deep_view(&self) -> GroupModel {
        self@
    }
}

impl HostnameGroup {
    /// A fresh group with the given name and hostnames, not disabled.
    pub fn new(name: String, hostnames: Vec<String>) -> (g: Self)
        ensures
            g@ == (GroupModel { name: name@, hostnames: hostnames.deep_view(), disabled: None }),
    {
        HostnameGroup { name, hostnames, disabled: None }
    }
}

/// The hostnames of a listing, each indented by two spaces, one per line.
pub open spec fn padded_hostnames(hostnames: Seq<Seq<char>>) -> Seq<char>
    decreases hostnames.len(),
{
    if hostnames.len() == 0 {
        Seq::empty()
    } else if hostnames.len() == 1 {
        "  "@ + hostnames[0]
    } else {
        padded_hostnames(hostnames.drop_last()) + "\n"@ + "  "@ + hostnames.last()
    }
}

/// The listing text of one group: its name, then its hostnames indented.
pub open spec fn display_spec(g: GroupModel) -> Seq<char> {
    "Group: "@ + g.name + "\n"@ + padded_hostnames(g.hostnames) + "\n"@
}

impl HostnameGroup {
    /// Renders this group as the group listing prints it.
    pub fn display_string(&self) -> (r: String)
        ensures
            r@ == display_spec(self@),
    {
        let ghost hv = self@.hostnames;
        let mut r = String::from_str("Group: ");
        r.append(self.name.as_str());
        r.append("\n");
        proof {
            assert(r@ =~= "Group: "@ + self@.name + "\n"@ + padded_hostnames(hv.take(0)));
        }
        let mut j: usize = 0;
        while j < self.hostnames.len()
            invariant
                j <= self.hostnames.len(),
                hv == self@.hostnames,
                hv.len() == self.hostnames.len(),
                r@ == "Group: "@ + self@.name + "\n"@ + padded_hostnames(hv.take(j as int)),
            decreases self.hostnames.len() - j,
        {
            if j > 0 {
                r.append("\n");
            }
            r.append("  ");
            r.append(self.hostnames[j].as_str());
            proof {
                if j == 0 {
                    assert(hv.take(1)[0] == hv[0]);
                    assert(padded_hostnames(hv.take(1)) == "  "@ + hv[0]);
                } else {
                    assert(hv.take(j + 1).drop_last() =~= hv.take(j as int));
                    assert(hv.take(j + 1).last() == hv[j as int]);
                    assert(padded_hostnames(hv.take(j + 1)) == padded_hostnames(hv.take(j as int))
                        + "\n"@ + "  "@ + hv[j as int]);
                }
                assert(r@ =~= "Group: "@ + self@.name + "\n"@ + padded_hostnames(hv.take(j + 1)));
            }
            j = j + 1;
        }
        r.append("\n");
        proof {
            assert(hv.take(hv.len() as int) =~= hv);
            assert(r@ =~= display_spec(self@));
        }
        r
    }
}

/// The group that a freshly seeded configuration document holds: a fixed
/// list of well-known distracting domains, not disabled.
pub open spec fn default_group_model() -> GroupModel {
    GroupModel {
        name: "Social Media"@,
        hostnames: seq!["facebook.com"@, "instagram.com"@, "twitter.com"@, "linkedin.com"@],
        disabled: None,
    }
}

impl Default for HostnameGroup {
    fn default() -> (g: Self)
        ensures
            g@ == default_group_model(),
    {
        let mut hostnames: Vec<String> = Vec::new();
        hostnames.push(String::from_str("facebook.com"));
        hostnames.push(String::from_str("instagram.com"));
        hostnames.push(String::from_str("twitter.com"));
        hostnames.push(String::from_str("linkedin.com"));
        let g = HostnameGroup { name: String::from_str("Social Media"), hostnames, disabled: None };
        proof {
            assert(g@.hostnames =~= default_group_model().hostnames);
            assert(g@ =~= default_group_model());
        }
        g
    }
}

/// The document seeded on first use: one default group.
pub fn default_groups() -> (groups: HostnameGroups)
    ensures
        groups.deep_view() == seq![default_group_model()],
{
    let mut groups: HostnameGroups = Vec::new();
    groups.push(HostnameGroup::default());
    proof {
        assert(groups.deep_view() =~= seq![default_group_model()]);
    }
    groups
}

/// The lowercase form of a character sequence, as `str::to_lowercase`
/// computes it.
pub uninterp spec fn lower_of(s: Seq<char>) -> Seq<char>;

/// Relies on str::to_lowercase: the result is a function of the characters
/// alone.
#[verifier::external_body]
pub(crate) fn lowercase(s: &str) -> (r: String)
    ensures
        r@ == lower_of(s@),
{
    s.to_lowercase()
}

/// Case-insensitive string equality: both sides are compared in lowercase
/// form.
pub fn eq_ignore_case(a: &str, b: &str) -> (r: bool)
    ensures
        r == (lower_of(a@) == lower_of(b@)),
{
    let la = lowercase(a);
    let lb = lowercase(b);
    la == lb
}

/// A copy of a string vector whose model is unchanged.
pub fn clone_string_vec(v: &Vec<String>) -> (r: Vec<String>)
    ensures
        r.deep_view() == v.deep_view(),
{
    let mut r: Vec<String> = Vec::new();
    let mut i: usize = 0;
    while i < v.len()
        invariant
            i <= v.len(),
            r.deep_view() == v.deep_view().take(i as int),
        decreases v.len() - i,
    {
        let ghost prev = r.deep_view();
        r.push(v[i].clone());
        proof {
            assert(r.deep_view() =~= prev.push(v@[i as int]@));
            assert(v.deep_view().take(i + 1) =~= v.deep_view().take(i as int).push(v@[i as int]@));
        }
        i = i + 1;
    }
    proof {
        assert(v.deep_view().take(v@.len() as int) =~= v.deep_view());
    }
    r
}

/// A copy of a group whose model is unchanged.
pub fn clone_group(g: &HostnameGroup) -> (r: HostnameGroup)
    ensures
        r@ == g@,
{
    let r = HostnameGroup {
        name: g.name.clone(),
        hostnames: clone_string_vec(&g.hostnames),
        disabled: g.disabled,
    };
    proof {
        assert(r@ =~= g@);
    }
    r
}

} // verus!
