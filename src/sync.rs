use vstd::prelude::*;
use vstd::string::*;
use crate::labels::{labels_view, same_text, Label, LabelView};

verus! {

/// What to do to a repository's labels: which of the wanted labels to create
/// (their positions in the wanted list) and which existing names to delete.
pub struct SyncPlan {
    pub create: Vec<usize>,
    pub delete: Vec<String>,
}

pub open spec fn names_of(v: Seq<String>) -> Seq<Seq<char>> {
    v.map_values(|s: String| s@)
}

pub open spec fn has_name(names: Seq<Seq<char>>, x: Seq<char>) -> bool {
    exists|i: int| 0 <= i < names.len() && names[i] == x
}

pub open spec fn wanted_name(wanted: Seq<LabelView>, x: Seq<char>) -> bool {
    exists|i: int| 0 <= i < wanted.len() && wanted[i].name == x
}

/// Whether an existing label may stay although nothing asks for it.
pub open spec fn allowed(all: Seq<Seq<char>>, by_repo: Option<Seq<Seq<char>>>, x: Seq<char>) -> bool {
    has_name(all, x) || match by_repo {
        Some(r) => has_name(r, x),
        None => false,
    }
}

/// Positions, among the first `n` wanted labels, of those that do not exist yet.
pub open spec fn to_create(wanted: Seq<LabelView>, existing: Seq<Seq<char>>, n: nat) -> Seq<usize>
    decreases n,
{
    if n == 0 {
        seq![]
    } else {
        let prev = to_create(wanted, existing, (n - 1) as nat);
        if has_name(existing, wanted[n - 1].name) {
            prev
        } else {
            prev.push((n - 1) as usize)
        }
    }
}

/// Among the first `n` existing names, those that nothing asks for and that
/// are not allowed to stay.
pub open spec fn to_delete(
    wanted: Seq<LabelView>,
    existing: Seq<Seq<char>>,
    all: Seq<Seq<char>>,
    by_repo: Option<Seq<Seq<char>>>,
    n: nat,
) -> Seq<Seq<char>>
    decreases n,
{
    if n == 0 {
        seq![]
    } else {
        let prev = to_delete(wanted, existing, all, by_repo, (n - 1) as nat);
        let x = existing[n - 1];
        if wanted_name(wanted, x) || allowed(all, by_repo, x) {
            prev
        } else {
            prev.push(x)
        }
    }
}

fn contains_name(names: &Vec<String>, x: &str) -> (r: bool)
    ensures
        r == has_name(names_of(names@), x@),
{
    let mut i: usize = 0;
    while i < names.len()
        invariant
            i <= names@.len(),
            forall|k: int| 0 <= k < i ==> names@[k]@ != x@,
        decreases names@.len() - i,
    {
        if same_text(names[i].as_str(), x) {
            assert(names_of(names@)[i as int] == x@);
            return true;
        }
        i = i + 1;
    }
    assert(forall|k: int| 0 <= k < names@.len() ==> names_of(names@)[k] == names@[k]@);
    false
}

fn is_wanted(wanted: &Vec<Label>, x: &str) -> (r: bool)
    ensures
        r == wanted_name(labels_view(wanted@), x@),
{
    let mut i: usize = 0;
    while i < wanted.len()
        invariant
            i <= wanted@.len(),
            forall|k: int| 0 <= k < i ==> wanted@[k].name@ != x@,
        decreases wanted@.len() - i,
    {
        if same_text(wanted[i].name.as_str(), x) {
            assert(labels_view(wanted@)[i as int].name == x@);
            return true;
        }
        i = i + 1;
    }
    assert(forall|k: int|
        0 <= k < wanted@.len() ==> labels_view(wanted@)[k].name == wanted@[k].name@);
    false
}

/// Decides how to bring a repository's labels in line with the wanted ones:
/// every wanted label whose name does not exist is created, and every existing
/// name that is not wanted and not allowed, in every repository or in this one,
/// is deleted. Nothing is updated in place.
pub fn plan_sync(
    wanted: &Vec<Label>,
    existing: &Vec<String>,
    all_allowed: &Vec<String>,
    repo_allowed: Option<&Vec<String>>,
) -> (r: SyncPlan)
    ensures
        r.create@ == to_create(labels_view(wanted@), names_of(existing@), wanted@.len()),
        names_of(r.delete@) == to_delete(
            labels_view(wanted@),
            names_of(existing@),
            names_of(all_allowed@),
            match repo_allowed {
                Some(v) => Some(names_of(v@)),
                None => None,
            },
            existing@.len(),
        ),
{
    let ghost wv = labels_view(wanted@);
    let ghost ev = names_of(existing@);
    let ghost av = names_of(all_allowed@);
    let ghost rv = match repo_allowed {
        Some(v) => Some(names_of(v@)),
        None => None,
    };
    let mut create: Vec<usize> = Vec::new();
    let mut i: usize = 0;
    while i < wanted.len()
        invariant
            i <= wanted@.len(),
            wv == labels_view(wanted@),
            ev == names_of(existing@),
            create@ == to_create(wv, ev, i as nat),
        decreases wanted@.len() - i,
    {
        assert(wv[i as int].name == wanted@[i as int].name@);
        if !contains_name(existing, wanted[i].name.as_str()) {
            create.push(i);
        }
        i = i + 1;
    }
    let mut delete: Vec<String> = Vec::new();
    let mut j: usize = 0;
    assert(names_of(delete@) =~= seq![]);
    while j < existing.len()
        invariant
            j <= existing@.len(),
            wv == labels_view(wanted@),
            ev == names_of(existing@),
            av == names_of(all_allowed@),
            rv == match repo_allowed {
                Some(v) => Some(names_of(v@)),
                None => None,
            },
            names_of(delete@) == to_delete(wv, ev, av, rv, j as nat),
        decreases existing@.len() - j,
    {
        let name = existing[j].as_str();
        assert(ev[j as int] == name@);
        let keep = is_wanted(wanted, name) || contains_name(all_allowed, name) || match repo_allowed {
            Some(v) => contains_name(v, name),
            None => false,
        };
        if !keep {
            let ghost before = names_of(delete@);
            delete.push(existing[j].clone());
            assert(names_of(delete@) =~= before.push(name@));
        }
        j = j + 1;
    }
    SyncPlan { create, delete }
}

} // verus!
