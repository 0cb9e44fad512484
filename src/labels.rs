use vstd::prelude::*;
use vstd::string::*;
use crate::data::{
    eval_template, keys_view, FormatError, FormatString, LabelGroupSpec, LabelSpec, LabelsFile,
    TemplateView,
};

verus! {

broadcast use vstd::std_specs::vec::group_vec_axioms;

/// A resolved label: its final name, colour and description.
pub struct Label {
    pub name: String,
    pub colour: String,
    pub description: String,
}

pub struct LabelView {
    pub name: Seq<char>,
    pub colour: Seq<char>,
    pub description: Seq<char>,
}

impl View for Label {
    type V = LabelView;

    open spec fn view(&self) -> LabelView {
        LabelView { name: self.name@, colour: self.colour@, description: self.description@ }
    }
}

pub open spec fn labels_view(v: Seq<Label>) -> Seq<LabelView> {
    v.map_values(|l: Label| l@)
}

/// The colour of a label that neither it nor any enclosing group sets.
pub open spec fn default_colour() -> Seq<char> {
    seq!['7', 'f', '7', 'f', '7', 'f']
}

/// The key under which a label's stem is visible to templates.
pub open spec fn stem_key() -> Seq<char> {
    seq!['s', 't', 'e', 'm']
}

pub open spec fn digit_char(d: nat) -> char {
    if d == 0 {
        '0'
    } else if d == 1 {
        '1'
    } else if d == 2 {
        '2'
    } else if d == 3 {
        '3'
    } else if d == 4 {
        '4'
    } else if d == 5 {
        '5'
    } else if d == 6 {
        '6'
    } else if d == 7 {
        '7'
    } else if d == 8 {
        '8'
    } else {
        '9'
    }
}

/// The decimal numeral of `n`, without leading zeros.
pub open spec fn decimal(n: nat) -> Seq<char>
    decreases n,
{
    if n < 10 {
        seq![digit_char(n)]
    } else {
        decimal(n / 10).push(digit_char(n % 10))
    }
}

/// Whether an optional scope set admits `repo`.
pub open spec fn in_scope(repos: Option<Vec<String>>, repo: Seq<char>) -> bool {
    match repos {
        None => true,
        Some(v) => exists|i: int| 0 <= i < v@.len() && #[trigger] v@[i]@ == repo,
    }
}

pub open spec fn colour_view(c: Option<&String>) -> Option<Seq<char>> {
    match c {
        Some(c) => Some(c@),
        None => None,
    }
}

pub open spec fn template_view(d: Option<&FormatString>) -> Option<TemplateView> {
    match d {
        Some(d) => Some(d@),
        None => None,
    }
}

pub open spec fn own_colour(c: Option<String>) -> Option<Seq<char>> {
    match c {
        Some(c) => Some(c@),
        None => None,
    }
}

pub open spec fn own_template(d: Option<FormatString>) -> Option<TemplateView> {
    match d {
        Some(d) => Some(d@),
        None => None,
    }
}

/// The own setting if there is one, else the inherited one.
pub open spec fn or_inherited<T>(own: Option<T>, inherited: Option<T>) -> Option<T> {
    match own {
        Some(x) => Some(x),
        None => inherited,
    }
}

pub open spec fn patterns_view(p: Seq<&FormatString>) -> Seq<TemplateView> {
    p.map_values(|f: &FormatString| f@)
}

/// Name composition from step `n` on: the pattern `n` places from the innermost
/// turns `name` into the next name, and `name` becomes visible under key `n`.
pub open spec fn compose(
    pats: Seq<TemplateView>,
    n: nat,
    name: Seq<char>,
    keys: Seq<(Seq<char>, Seq<char>)>,
) -> Result<Seq<char>, Seq<char>>
    decreases pats.len() - n,
{
    if n >= pats.len() {
        Ok(name)
    } else {
        match eval_template(pats[pats.len() - 1 - n], name, keys) {
            Err(k) => Err(k),
            Ok(next) => compose(pats, n + 1, next, keys.push((decimal(n), name))),
        }
    }
}

/// The label that a stem resolves to under the given colour, description
/// template and pattern stack, or the first unknown key.
pub open spec fn label_model(
    stem: Seq<char>,
    colour: Option<Seq<char>>,
    desc: Option<TemplateView>,
    pats: Seq<TemplateView>,
) -> Result<LabelView, Seq<char>> {
    let keys = seq![(stem_key(), stem)];
    let d = match desc {
        None => Ok(seq![]),
        Some(t) => eval_template(t, stem, keys),
    };
    match d {
        Err(k) => Err(k),
        Ok(d) => match compose(pats, 0, stem, keys) {
            Err(k) => Err(k),
            Ok(name) => Ok(
                LabelView {
                    name,
                    colour: match colour {
                        Some(c) => c,
                        None => default_colour(),
                    },
                    description: d,
                },
            ),
        },
    }
}

/// Both lists in order, or the first error.
pub open spec fn join(
    a: Result<Seq<LabelView>, Seq<char>>,
    b: Result<Seq<LabelView>, Seq<char>>,
) -> Result<Seq<LabelView>, Seq<char>> {
    match a {
        Err(k) => Err(k),
        Ok(x) => match b {
            Err(k) => Err(k),
            Ok(y) => Ok(x + y),
        },
    }
}

pub open spec fn join_one(
    a: Result<Seq<LabelView>, Seq<char>>,
    b: Result<LabelView, Seq<char>>,
) -> Result<Seq<LabelView>, Seq<char>> {
    match a {
        Err(k) => Err(k),
        Ok(x) => match b {
            Err(k) => Err(k),
            Ok(y) => Ok(x.push(y)),
        },
    }
}

/// The labels of the first `n` plain stems of a group.
pub open spec fn plain_model(
    stems: Seq<String>,
    n: nat,
    colour: Option<Seq<char>>,
    desc: Option<TemplateView>,
    pats: Seq<TemplateView>,
) -> Result<Seq<LabelView>, Seq<char>>
    decreases n,
{
    if n == 0 {
        Ok(seq![])
    } else {
        join_one(
            plain_model(stems, (n - 1) as nat, colour, desc, pats),
            label_model(stems[n - 1]@, colour, desc, pats),
        )
    }
}

/// The labels of the first `n` elaborated labels of a group; those whose own
/// scope set excludes `repo` give none.
pub open spec fn elaborated_model(
    repo: Seq<char>,
    elab: Seq<(String, LabelSpec)>,
    n: nat,
    colour: Option<Seq<char>>,
    desc: Option<TemplateView>,
    pats: Seq<TemplateView>,
) -> Result<Seq<LabelView>, Seq<char>>
    decreases n,
{
    if n == 0 {
        Ok(seq![])
    } else {
        let prev = elaborated_model(repo, elab, (n - 1) as nat, colour, desc, pats);
        let (stem, spec) = elab[n - 1];
        if !in_scope(spec.repos, repo) {
            prev
        } else {
            join_one(
                prev,
                label_model(
                    stem@,
                    or_inherited(own_colour(spec.colour), colour),
                    or_inherited(own_template(spec.description), desc),
                    pats,
                ),
            )
        }
    }
}

/// The labels of a group and its subtree, resolved for `repo`, given what the
/// enclosing groups set and their patterns (outermost first).
pub open spec fn node_model(
    repo: Seq<char>,
    node: LabelGroupSpec,
    colour: Option<Seq<char>>,
    desc: Option<TemplateView>,
    pats: Seq<TemplateView>,
) -> Result<Seq<LabelView>, Seq<char>>
    decreases node, node.subgroups@.len() + 1,
{
    if !in_scope(node.label_spec.repos, repo) {
        Ok(seq![])
    } else {
        let pats2 = pats.push(node.pattern@);
        let colour2 = or_inherited(own_colour(node.label_spec.colour), colour);
        let desc2 = or_inherited(own_template(node.label_spec.description), desc);
        join(
            join(
                plain_model(node.labels@, node.labels@.len(), colour2, desc2, pats2),
                elaborated_model(
                    repo,
                    node.elaborated_labels@,
                    node.elaborated_labels@.len(),
                    colour2,
                    desc2,
                    pats2,
                ),
            ),
            subgroups_model(repo, node, node.subgroups@.len(), colour2, desc2, pats2),
        )
    }
}

/// The labels of the first `n` subgroups of `node`, under the group's own
/// resolved colour, description and pattern stack.
pub open spec fn subgroups_model(
    repo: Seq<char>,
    node: LabelGroupSpec,
    n: nat,
    colour: Option<Seq<char>>,
    desc: Option<TemplateView>,
    pats: Seq<TemplateView>,
) -> Result<Seq<LabelView>, Seq<char>>
    decreases node, n,
{
    if n == 0 || n > node.subgroups@.len() {
        Ok(seq![])
    } else {
        join(
            subgroups_model(repo, node, (n - 1) as nat, colour, desc, pats),
            node_model(repo, node.subgroups@[n - 1].1, colour, desc, pats),
        )
    }
}

/// The labels of the first `n` top-level groups, each walked afresh.
pub open spec fn groups_model(repo: Seq<char>, groups: Seq<(String, LabelGroupSpec)>, n: nat) -> Result<
    Seq<LabelView>,
    Seq<char>,
>
    decreases n,
{
    if n == 0 {
        Ok(seq![])
    } else {
        join(
            groups_model(repo, groups, (n - 1) as nat),
            node_model(repo, groups[n - 1].1, None, None, seq![]),
        )
    }
}

/// The decimal numeral of `n`.
fn decimal_string(n: usize) -> (r: String)
    ensures
        r@ == decimal(n as nat),
    decreases n,
{
    let mut s = if n >= 10 {
        decimal_string(n / 10)
    } else {
        String::new()
    };
    let d = n % 10;
    proof {
        reveal_strlit("0");
        reveal_strlit("1");
        reveal_strlit("2");
        reveal_strlit("3");
        reveal_strlit("4");
        reveal_strlit("5");
        reveal_strlit("6");
        reveal_strlit("7");
        reveal_strlit("8");
        reveal_strlit("9");
    }
    let digit = if d == 0 {
        "0"
    } else if d == 1 {
        "1"
    } else if d == 2 {
        "2"
    } else if d == 3 {
        "3"
    } else if d == 4 {
        "4"
    } else if d == 5 {
        "5"
    } else if d == 6 {
        "6"
    } else if d == 7 {
        "7"
    } else if d == 8 {
        "8"
    } else {
        "9"
    };
    s.append(digit);
    assert(s@ =~= decimal(n as nat));
    s
}

/// Whether two texts are equal, character by character.
pub(crate) fn same_text(a: &str, b: &str) -> (r: bool)
    ensures
        r == (a@ == b@),
{
    let n = a.unicode_len();
    if n != b.unicode_len() {
        return false;
    }
    let mut i: usize = 0;
    while i < n
        invariant
            i <= n,
            n == a@.len(),
            n == b@.len(),
            a@.subrange(0, i as int) == b@.subrange(0, i as int),
        decreases n - i,
    {
        if a.get_char(i) != b.get_char(i) {
            assert(a@[i as int] != b@[i as int]);
            return false;
        }
        assert(a@.subrange(0, i + 1) =~= a@.subrange(0, i as int).push(a@[i as int]));
        assert(b@.subrange(0, i + 1) =~= b@.subrange(0, i as int).push(b@[i as int]));
        i = i + 1;
    }
    assert(a@ =~= a@.subrange(0, n as int));
    assert(b@ =~= b@.subrange(0, n as int));
    true
}

/// Whether an optional scope set admits `repo`.
fn applies_to(repos: &Option<Vec<String>>, repo: &str) -> (r: bool)
    ensures
        r == in_scope(*repos, repo@),
{
    match repos {
        None => true,
        Some(v) => {
            let mut i: usize = 0;
            while i < v.len()
                invariant
                    *repos == Some(*v),
                    i <= v@.len(),
                    forall|k: int| 0 <= k < i ==> v@[k]@ != repo@,
                decreases v@.len() - i,
            {
                if same_text(v[i].as_str(), repo) {
                    assert((*repos)->Some_0@[i as int]@ == repo@);
                    return true;
                }
                i = i + 1;
            }
            false
        },
    }
}

/// Composes a label's final name: each pattern of the stack, innermost first,
/// rewrites the name, and the name it rewrote becomes visible under its depth.
fn compose_name(stem: &String, pattern: &Vec<&FormatString>) -> (r: Result<String, FormatError>)
    ensures
        match compose(patterns_view(pattern@), 0, stem@, seq![(stem_key(), stem@)]) {
            Ok(name) => r is Ok && r->Ok_0@ == name,
            Err(k) => match r {
                Err(FormatError::UnknownKey(e)) => e@ == k,
                _ => false,
            },
        },
{
    let ghost pats = patterns_view(pattern@);
    let mut name = stem.clone();
    let mut scratch: Vec<(String, String)> = Vec::new();
    proof {
        reveal_strlit("stem");
    }
    let key = String::from_str("stem");
    assert(key@ =~= stem_key());
    scratch.push((key, stem.clone()));
    assert(keys_view(scratch@) =~= seq![(stem_key(), stem@)]);
    let ghost target = compose(pats, 0, stem@, keys_view(scratch@));
    let mut n: usize = 0;
    while n < pattern.len()
        invariant
            n <= pattern@.len(),
            pats == patterns_view(pattern@),
            target == compose(pats, 0, stem@, seq![(stem_key(), stem@)]),
            target == compose(pats, n as nat, name@, keys_view(scratch@)),
        decreases pattern@.len() - n,
    {
        let pat = pattern[pattern.len() - 1 - n];
        assert(pats[pats.len() - 1 - n] == pat@);
        let mut next = String::new();
        match pat.eval(name.as_str(), &scratch, &mut next) {
            Err(e) => {
                return Err(e);
            },
            Ok(()) => {},
        }
        let ghost kv = keys_view(scratch@);
        let ghost prev = name@;
        scratch.push((decimal_string(n), name));
        assert(keys_view(scratch@) =~= kv.push((decimal(n as nat), prev)));
        name = next;
        n = n + 1;
    }
    Ok(name)
}

/// The error that reports `k` as an unknown key.
pub open spec fn unknown_key<T>(r: Result<T, FormatError>, k: Seq<char>) -> bool {
    match r {
        Err(FormatError::UnknownKey(e)) => e@ == k,
        _ => false,
    }
}

/// The key mapping that holds only the stem.
fn stem_keys(stem: &String) -> (r: Vec<(String, String)>)
    ensures
        keys_view(r@) == seq![(stem_key(), stem@)],
{
    proof {
        reveal_strlit("stem");
    }
    let key = String::from_str("stem");
    assert(key@ =~= stem_key());
    let mut keys: Vec<(String, String)> = Vec::new();
    keys.push((key, stem.clone()));
    assert(keys_view(keys@) =~= seq![(stem_key(), stem@)]);
    keys
}

/// Resolves one label: its description from the description template with the
/// stem as default, its name from the pattern stack, its colour as given or the
/// default one.
fn make_label(
    stem: &String,
    colour: Option<&String>,
    description: Option<&FormatString>,
    pattern: &Vec<&FormatString>,
) -> (r: Result<Label, FormatError>)
    ensures
        match label_model(stem@, colour_view(colour), template_view(description), patterns_view(pattern@)) {
            Ok(l) => r is Ok && r->Ok_0@ == l,
            Err(k) => unknown_key(r, k),
        },
{
    let desc = match description {
        None => String::new(),
        Some(f) => {
            let keys = stem_keys(stem);
            let mut out = String::new();
            match f.eval(stem.as_str(), &keys, &mut out) {
                Err(e) => {
                    return Err(e);
                },
                Ok(()) => {},
            }
            assert(out@ =~= eval_template(f@, stem@, seq![(stem_key(), stem@)])->Ok_0);
            out
        },
    };
    let name = match compose_name(stem, pattern) {
        Err(e) => {
            return Err(e);
        },
        Ok(n) => n,
    };
    let colour = match colour {
        Some(c) => c.clone(),
        None => {
            proof {
                reveal_strlit("7f7f7f");
            }
            let c = String::from_str("7f7f7f");
            assert(c@ =~= default_colour());
            c
        },
    };
    Ok(Label { name, colour, description: desc })
}

proof fn lemma_plain_err_stays(
    stems: Seq<String>,
    m: nat,
    n: nat,
    colour: Option<Seq<char>>,
    desc: Option<TemplateView>,
    pats: Seq<TemplateView>,
)
    requires
        m <= n,
        plain_model(stems, m, colour, desc, pats) is Err,
    ensures
        plain_model(stems, n, colour, desc, pats) == plain_model(stems, m, colour, desc, pats),
    decreases n - m,
{
    if m < n {
        lemma_plain_err_stays(stems, m, (n - 1) as nat, colour, desc, pats);
    }
}

proof fn lemma_elaborated_err_stays(
    repo: Seq<char>,
    elab: Seq<(String, LabelSpec)>,
    m: nat,
    n: nat,
    colour: Option<Seq<char>>,
    desc: Option<TemplateView>,
    pats: Seq<TemplateView>,
)
    requires
        m <= n,
        elaborated_model(repo, elab, m, colour, desc, pats) is Err,
    ensures
        elaborated_model(repo, elab, n, colour, desc, pats) == elaborated_model(
            repo,
            elab,
            m,
            colour,
            desc,
            pats,
        ),
    decreases n - m,
{
    if m < n {
        lemma_elaborated_err_stays(repo, elab, m, (n - 1) as nat, colour, desc, pats);
    }
}

proof fn lemma_subgroups_err_stays(
    repo: Seq<char>,
    node: LabelGroupSpec,
    m: nat,
    n: nat,
    colour: Option<Seq<char>>,
    desc: Option<TemplateView>,
    pats: Seq<TemplateView>,
)
    requires
        m <= n <= node.subgroups@.len(),
        subgroups_model(repo, node, m, colour, desc, pats) is Err,
    ensures
        subgroups_model(repo, node, n, colour, desc, pats) == subgroups_model(
            repo,
            node,
            m,
            colour,
            desc,
            pats,
        ),
    decreases n - m,
{
    if m < n {
        lemma_subgroups_err_stays(repo, node, m, (n - 1) as nat, colour, desc, pats);
    }
}

/// Appends to `into` the labels of `spec` and its subtree, resolved for
/// `for_repo` under what the enclosing groups set and their patterns.
fn gather_labels<'a>(
    for_repo: &str,
    into: &mut Vec<Label>,
    colour: Option<&'a String>,
    description: Option<&'a FormatString>,
    pattern: &Vec<&'a FormatString>,
    spec: &'a LabelGroupSpec,
) -> (r: Result<(), FormatError>)
    ensures
        match node_model(
            for_repo@,
            *spec,
            colour_view(colour),
            template_view(description),
            patterns_view(pattern@),
        ) {
            Ok(ls) => r is Ok && labels_view(final(into)@) == labels_view(old(into)@) + ls,
            Err(k) => unknown_key(r, k),
        },
    decreases spec,
{
    if !applies_to(&spec.label_spec.repos, for_repo) {
        assert(labels_view(into@) =~= labels_view(into@) + seq![]);
        return Ok(());
    }
    let ghost start = labels_view(into@);
    let ghost target = node_model(
        for_repo@,
        *spec,
        colour_view(colour),
        template_view(description),
        patterns_view(pattern@),
    );
    let mut pats: Vec<&'a FormatString> = Vec::new();
    let mut i: usize = 0;
    while i < pattern.len()
        invariant
            i <= pattern@.len(),
            pats@ == pattern@.subrange(0, i as int),
        decreases pattern@.len() - i,
    {
        pats.push(pattern[i]);
        assert(pats@ =~= pattern@.subrange(0, i + 1));
        i = i + 1;
    }
    pats.push(&spec.pattern);
    let group_colour = match &spec.label_spec.colour {
        Some(c) => Some(c),
        None => colour,
    };
    let group_description = match &spec.label_spec.description {
        Some(d) => Some(d),
        None => description,
    };
    let ghost pv = patterns_view(pats@);
    let ghost cv = colour_view(group_colour);
    let ghost dv = template_view(group_description);
    assert(pv =~= patterns_view(pattern@).push(spec.pattern@));
    let ghost labels = spec.labels@;
    let ghost elab = spec.elaborated_labels@;
    assert(target == join(
        join(
            plain_model(labels, labels.len(), cv, dv, pv),
            elaborated_model(for_repo@, elab, elab.len(), cv, dv, pv),
        ),
        subgroups_model(for_repo@, *spec, spec.subgroups@.len(), cv, dv, pv),
    ));

    let mut i: usize = 0;
    assert(labels_view(into@) =~= start + seq![]);
    while i < spec.labels.len()
        invariant
            i <= labels.len(),
            labels == spec.labels@,
            pv == patterns_view(pats@),
            cv == colour_view(group_colour),
            dv == template_view(group_description),
            target == node_model(
                for_repo@,
                *spec,
                colour_view(colour),
                template_view(description),
                patterns_view(pattern@),
            ),
            labels == spec.labels@,
            elab == spec.elaborated_labels@,
            target == join(
                join(
                    plain_model(labels, labels.len(), cv, dv, pv),
                    elaborated_model(for_repo@, elab, elab.len(), cv, dv, pv),
                ),
                subgroups_model(for_repo@, *spec, spec.subgroups@.len(), cv, dv, pv),
            ),
            plain_model(labels, i as nat, cv, dv, pv) is Ok,
            labels_view(into@) == start + plain_model(labels, i as nat, cv, dv, pv)->Ok_0,
        decreases labels.len() - i,
    {
        match make_label(&spec.labels[i], group_colour, group_description, &pats) {
            Err(e) => {
                proof {
                    lemma_plain_err_stays(labels, (i + 1) as nat, labels.len(), cv, dv, pv);
                }
                return Err(e);
            },
            Ok(l) => {
                let ghost before = labels_view(into@);
                into.push(l);
                assert(labels_view(into@) =~= before.push(l@));
            },
        }
        i = i + 1;
    }
    let ghost after_plain = labels_view(into@);

    let mut i: usize = 0;
    assert(after_plain =~= after_plain + seq![]);
    while i < spec.elaborated_labels.len()
        invariant
            i <= elab.len(),
            elab == spec.elaborated_labels@,
            pv == patterns_view(pats@),
            cv == colour_view(group_colour),
            dv == template_view(group_description),
            target == node_model(
                for_repo@,
                *spec,
                colour_view(colour),
                template_view(description),
                patterns_view(pattern@),
            ),
            labels == spec.labels@,
            elab == spec.elaborated_labels@,
            target == join(
                join(
                    plain_model(labels, labels.len(), cv, dv, pv),
                    elaborated_model(for_repo@, elab, elab.len(), cv, dv, pv),
                ),
                subgroups_model(for_repo@, *spec, spec.subgroups@.len(), cv, dv, pv),
            ),
            plain_model(labels, labels.len(), cv, dv, pv) is Ok,
            elaborated_model(for_repo@, elab, i as nat, cv, dv, pv) is Ok,
            labels_view(into@) == after_plain + elaborated_model(
                for_repo@,
                elab,
                i as nat,
                cv,
                dv,
                pv,
            )->Ok_0,
        decreases elab.len() - i,
    {
        let (stem, own) = &spec.elaborated_labels[i];
        if applies_to(&own.repos, for_repo) {
            let c = match &own.colour {
                Some(c) => Some(c),
                None => group_colour,
            };
            let d = match &own.description {
                Some(d) => Some(d),
                None => group_description,
            };
            match make_label(stem, c, d, &pats) {
                Err(e) => {
                    proof {
                        lemma_elaborated_err_stays(
                            for_repo@,
                            elab,
                            (i + 1) as nat,
                            elab.len(),
                            cv,
                            dv,
                            pv,
                        );
                    }
                    return Err(e);
                },
                Ok(l) => {
                    let ghost before = labels_view(into@);
                    into.push(l);
                    assert(labels_view(into@) =~= before.push(l@));
                },
            }
        }
        i = i + 1;
    }
    let ghost after_elab = labels_view(into@);

    let mut i: usize = 0;
    assert(after_elab =~= after_elab + seq![]);
    while i < spec.subgroups.len()
        invariant
            i <= spec.subgroups@.len(),
            pv == patterns_view(pats@),
            cv == colour_view(group_colour),
            dv == template_view(group_description),
            target == node_model(
                for_repo@,
                *spec,
                colour_view(colour),
                template_view(description),
                patterns_view(pattern@),
            ),
            labels == spec.labels@,
            elab == spec.elaborated_labels@,
            target == join(
                join(
                    plain_model(labels, labels.len(), cv, dv, pv),
                    elaborated_model(for_repo@, elab, elab.len(), cv, dv, pv),
                ),
                subgroups_model(for_repo@, *spec, spec.subgroups@.len(), cv, dv, pv),
            ),
            plain_model(labels, labels.len(), cv, dv, pv) is Ok,
            elaborated_model(for_repo@, elab, elab.len(), cv, dv, pv) is Ok,
            subgroups_model(for_repo@, *spec, i as nat, cv, dv, pv) is Ok,
            labels_view(into@) == after_elab + subgroups_model(
                for_repo@,
                *spec,
                i as nat,
                cv,
                dv,
                pv,
            )->Ok_0,
        decreases spec.subgroups@.len() - i,
    {
        let ghost before = labels_view(into@);
        match gather_labels(for_repo, into, group_colour, group_description, &pats, &spec.subgroups[i].1) {
            Err(e) => {
                proof {
                    lemma_subgroups_err_stays(
                        for_repo@,
                        *spec,
                        (i + 1) as nat,
                        spec.subgroups@.len(),
                        cv,
                        dv,
                        pv,
                    );
                }
                return Err(e);
            },
            Ok(()) => {},
        }
        i = i + 1;
    }
    assert(labels_view(into@) =~= start + (plain_model(labels, labels.len(), cv, dv, pv)->Ok_0
        + elaborated_model(for_repo@, elab, elab.len(), cv, dv, pv)->Ok_0) + subgroups_model(
        for_repo@,
        *spec,
        spec.subgroups@.len(),
        cv,
        dv,
        pv,
    )->Ok_0);
    Ok(())
}

/// Lexicographic order of names, comparing characters by code point (the
/// order in which `String` compares).
pub open spec fn name_le(a: Seq<char>, b: Seq<char>) -> bool
    decreases a.len(),
{
    if a.len() == 0 {
        true
    } else if b.len() == 0 {
        false
    } else if (a[0] as u32) != (b[0] as u32) {
        (a[0] as u32) < (b[0] as u32)
    } else {
        name_le(a.drop_first(), b.drop_first())
    }
}

/// Whether the labels stand in order of their names.
pub open spec fn sorted_by_name(ls: Seq<LabelView>) -> bool {
    forall|i: int, j: int| 0 <= i < j < ls.len() ==> name_le(#[trigger] ls[i].name, #[trigger] ls[j].name)
}

proof fn lemma_name_le_total(a: Seq<char>, b: Seq<char>)
    ensures
        name_le(a, b) || name_le(b, a),
    decreases a.len(),
{
    if a.len() > 0 && b.len() > 0 && (a[0] as u32) == (b[0] as u32) {
        lemma_name_le_total(a.drop_first(), b.drop_first());
    }
}

proof fn lemma_name_le_trans(a: Seq<char>, b: Seq<char>, c: Seq<char>)
    requires
        name_le(a, b),
        name_le(b, c),
    ensures
        name_le(a, c),
    decreases a.len(),
{
    if a.len() > 0 && b.len() > 0 && c.len() > 0 && (a[0] as u32) == (b[0] as u32) && (b[0]
        as u32) == (c[0] as u32) {
        lemma_name_le_trans(a.drop_first(), b.drop_first(), c.drop_first());
    }
}

/// Whether `a` comes no later than `b` in name order.
fn name_leq(a: &str, b: &str) -> (r: bool)
    ensures
        r == name_le(a@, b@),
{
    let n = a.unicode_len();
    let m = b.unicode_len();
    let mut i: usize = 0;
    assert(a@.subrange(0, n as int) =~= a@);
    assert(b@.subrange(0, m as int) =~= b@);
    while i < n && i < m
        invariant
            n == a@.len(),
            m == b@.len(),
            i <= n,
            i <= m,
            name_le(a@, b@) == name_le(
                a@.subrange(i as int, n as int),
                b@.subrange(i as int, m as int),
            ),
        decreases n - i,
    {
        let x = a.get_char(i);
        let y = b.get_char(i);
        let ghost sa = a@.subrange(i as int, n as int);
        let ghost sb = b@.subrange(i as int, m as int);
        assert(sa[0] == x && sb[0] == y);
        if (x as u32) != (y as u32) {
            return (x as u32) < (y as u32);
        }
        assert(sa.drop_first() =~= a@.subrange(i + 1, n as int));
        assert(sb.drop_first() =~= b@.subrange(i + 1, m as int));
        i = i + 1;
    }
    i == n
}

/// Sorts labels by name (`name_le` order), keeping every label.
fn sort_by_name(labels: Vec<Label>) -> (r: Vec<Label>)
    ensures
        labels_view(r@).to_multiset() == labels_view(labels@).to_multiset(),
        sorted_by_name(labels_view(r@)),
{
    broadcast use vstd::seq_lib::group_to_multiset_ensures;

    let ghost all = labels_view(labels@).to_multiset();
    let mut rest = labels;
    let mut out: Vec<Label> = Vec::new();
    assert(labels_view(out@) =~= seq![]);
    while rest.len() > 0
        invariant
            labels_view(out@).to_multiset().add(labels_view(rest@).to_multiset()) == all,
            sorted_by_name(labels_view(out@)),
        decreases rest@.len(),
    {
        let ghost before_rest = labels_view(rest@);
        let l = rest.pop().unwrap();
        assert(before_rest =~= labels_view(rest@).push(l@));
        let mut p: usize = 0;
        while p < out.len() && name_leq(out[p].name.as_str(), l.name.as_str())
            invariant
                p <= out@.len(),
                forall|k: int| 0 <= k < p ==> name_le(#[trigger] out@[k].name@, l.name@),
            decreases out@.len() - p,
        {
            p = p + 1;
        }
        let ghost s = labels_view(out@);
        let ghost x = l@;
        proof {
            assert forall|k: int| p <= k < s.len() implies name_le(x.name, #[trigger] s[k].name) by {
                assert(!name_le(s[p as int].name, x.name));
                lemma_name_le_total(s[p as int].name, x.name);
                if k > p {
                    lemma_name_le_trans(x.name, s[p as int].name, s[k].name);
                }
            }
        }
        out.insert(p, l);
        let ghost t = labels_view(out@);
        proof {
            assert(t =~= s.insert(p as int, x));
            assert(t.remove(p as int) =~= s);
            assert(t[p as int] == x);
            assert(t.contains(x));
            t.to_multiset_ensures();
            labels_view(rest@).to_multiset_ensures();
            assert(s.to_multiset() == t.to_multiset().remove(x));
            assert(t.to_multiset() =~= s.to_multiset().insert(x));
            assert forall|a: int, b: int| 0 <= a < b < t.len() implies name_le(
                #[trigger] t[a].name,
                #[trigger] t[b].name,
            ) by {
                if b < p {
                } else if b == p {
                    assert(t[a] == s[a]);
                } else if a < p {
                    assert(t[a] == s[a] && t[b] == s[b - 1]);
                    lemma_name_le_trans(s[a].name, x.name, s[b - 1].name);
                } else if a == p {
                    assert(t[b] == s[b - 1]);
                } else {
                    assert(t[a] == s[a - 1] && t[b] == s[b - 1]);
                }
            }
            assert(labels_view(rest@).push(x).to_multiset() =~= labels_view(rest@).to_multiset().insert(x));
        }
    }
    assert(labels_view(rest@) =~= seq![]);
    assert(labels_view(out@).to_multiset().add(labels_view(rest@).to_multiset()) =~= labels_view(out@).to_multiset());
    out
}

proof fn lemma_groups_err_stays(repo: Seq<char>, groups: Seq<(String, LabelGroupSpec)>, m: nat, n: nat)
    requires
        m <= n,
        groups_model(repo, groups, m) is Err,
    ensures
        groups_model(repo, groups, n) == groups_model(repo, groups, m),
    decreases n - m,
{
    if m < n {
        lemma_groups_err_stays(repo, groups, m, (n - 1) as nat);
    }
}

/// Resolves every label of the tree for `repo`: each top-level group is walked
/// afresh, and the labels come out sorted by name, duplicates kept. The first
/// unknown key met aborts the whole run.
pub fn build_labels(repo: &str, labels: &LabelsFile) -> (r: Result<Vec<Label>, FormatError>)
    ensures
        match groups_model(repo@, labels.groups@, labels.groups@.len()) {
            Ok(ls) => r is Ok && labels_view(r->Ok_0@).to_multiset() == ls.to_multiset()
                && sorted_by_name(labels_view(r->Ok_0@)),
            Err(k) => unknown_key(r, k),
        },
{
    let ghost groups = labels.groups@;
    let mut output: Vec<Label> = Vec::new();
    let patterns: Vec<&FormatString> = Vec::new();
    assert(patterns_view(patterns@) =~= seq![]);
    let mut i: usize = 0;
    assert(labels_view(output@) =~= seq![]);
    while i < labels.groups.len()
        invariant
            i <= groups.len(),
            groups == labels.groups@,
            patterns@.len() == 0,
            groups_model(repo@, groups, i as nat) is Ok,
            labels_view(output@) == groups_model(repo@, groups, i as nat)->Ok_0,
        decreases groups.len() - i,
    {
        assert(patterns_view(patterns@) =~= seq![]);
        match gather_labels(repo, &mut output, None, None, &patterns, &labels.groups[i].1) {
            Err(e) => {
                proof {
                    lemma_groups_err_stays(repo@, groups, (i + 1) as nat, groups.len());
                }
                return Err(e);
            },
            Ok(()) => {},
        }
        i = i + 1;
    }
    Ok(sort_by_name(output))
}

/// A group whose scope set excludes `repo` contributes no labels, and neither
/// does any group or label of its subtree, whatever scopes they declare.
pub proof fn lemma_out_of_scope_group(
    repo: Seq<char>,
    node: LabelGroupSpec,
    colour: Option<Seq<char>>,
    desc: Option<TemplateView>,
    pats: Seq<TemplateView>,
)
    requires
        !in_scope(node.label_spec.repos, repo),
    ensures
        node_model(repo, node, colour, desc, pats) == Ok::<Seq<LabelView>, Seq<char>>(seq![]),
{
}

/// A label's colour is its own if it sets one, else its group's, else the
/// nearest ancestor's, else `7f7f7f`; the same order picks its description
/// template, and with none at any level its description is empty.
pub proof fn lemma_setting_precedence(
    stem: Seq<char>,
    own: Option<Seq<char>>,
    group: Option<Seq<char>>,
    ancestor: Option<Seq<char>>,
    own_desc: Option<TemplateView>,
    group_desc: Option<TemplateView>,
    ancestor_desc: Option<TemplateView>,
    pats: Seq<TemplateView>,
)
    ensures
        match label_model(
            stem,
            or_inherited(own, or_inherited(group, ancestor)),
            or_inherited(own_desc, or_inherited(group_desc, ancestor_desc)),
            pats,
        ) {
            Ok(l) => {
                &&& l.colour == if own is Some {
                    own->Some_0
                } else if group is Some {
                    group->Some_0
                } else if ancestor is Some {
                    ancestor->Some_0
                } else {
                    default_colour()
                }
                &&& (own_desc is None && group_desc is None && ancestor_desc is None)
                    ==> l.description == Seq::<char>::empty()
            },
            Err(_) => true,
        },
{
}

proof fn lemma_groups_concat(repo: Seq<char>, a: Seq<(String, LabelGroupSpec)>, b: Seq<(String, LabelGroupSpec)>, n: nat)
    requires
        n <= b.len(),
    ensures
        groups_model(repo, a + b, a.len() + n) == join(
            groups_model(repo, a, a.len()),
            groups_model(repo, b, n),
        ),
    decreases n,
{
    if n == 0 {
        assert forall|m: nat| m <= a.len() implies groups_model(repo, a + b, m) == groups_model(
            repo,
            a,
            m,
        ) by {
            lemma_groups_prefix(repo, a, b, m);
        }
        match groups_model(repo, a, a.len()) {
            Ok(x) => {
                assert(x + seq![] =~= x);
            },
            Err(_) => {},
        }
    } else {
        lemma_groups_concat(repo, a, b, (n - 1) as nat);
        assert((a + b)[a.len() + n - 1] == b[n - 1]);
        match groups_model(repo, a, a.len()) {
            Ok(x) => match groups_model(repo, b, (n - 1) as nat) {
                Ok(y) => match node_model(repo, b[n - 1].1, None, None, seq![]) {
                    Ok(z) => {
                        assert(x + y + z =~= x + (y + z));
                    },
                    Err(_) => {},
                },
                Err(_) => {},
            },
            Err(_) => {},
        }
    }
}

proof fn lemma_groups_prefix(repo: Seq<char>, a: Seq<(String, LabelGroupSpec)>, b: Seq<(String, LabelGroupSpec)>, m: nat)
    requires
        m <= a.len(),
    ensures
        groups_model(repo, a + b, m) == groups_model(repo, a, m),
    decreases m,
{
    if m > 0 {
        lemma_groups_prefix(repo, a, b, (m - 1) as nat);
        assert((a + b)[m - 1] == a[m - 1]);
    }
}

/// The order of the top-level groups does not change which labels come out:
/// with the groups split in two and the second part put first, resolution
/// fails or succeeds alike, and yields the same labels, duplicates counted.
pub proof fn lemma_group_order(
    repo: Seq<char>,
    a: Seq<(String, LabelGroupSpec)>,
    b: Seq<(String, LabelGroupSpec)>,
)
    ensures
        groups_model(repo, a + b, (a + b).len()) is Ok <==> groups_model(repo, b + a, (b + a).len()) is Ok,
        groups_model(repo, a + b, (a + b).len()) is Ok ==> groups_model(
            repo,
            a + b,
            (a + b).len(),
        )->Ok_0.to_multiset() == groups_model(repo, b + a, (b + a).len())->Ok_0.to_multiset(),
{
    lemma_groups_concat(repo, a, b, b.len());
    lemma_groups_concat(repo, b, a, a.len());
    match (groups_model(repo, a, a.len()), groups_model(repo, b, b.len())) {
        (Ok(x), Ok(y)) => {
            vstd::seq_lib::lemma_multiset_commutative(x, y);
            vstd::seq_lib::lemma_multiset_commutative(y, x);
        },
        _ => {},
    }
}

} // verus!
