use vstd::prelude::*;
use vstd::string::*;

verus! {

/// What a placeholder of a template stands for, as contracts see it.
pub enum Piece {
    OpenBrace,
    CloseBrace,
    Positional,
    Keyed(Seq<char>),
}

/// A parsed template: segments of (leading literal, placeholder), then a trailing literal.
pub struct TemplateView {
    pub args: Seq<(Seq<char>, Piece)>,
    pub rest: Seq<char>,
}

/// A parsed format string, ready to be evaluated many times.
#[derive(Clone, Debug)]
pub struct FormatString {
    pub args: Vec<FormatArg>,
    pub rest: String,
}

/// One segment of a format string: literal text followed by a placeholder.
#[derive(Clone, Debug)]
pub struct FormatArg {
    pub leading_text: String,
    pub fmt: FormatSpec,
}

/// The placeholder kinds: `{{`, `}}`, `{}` and `{key}`.
#[derive(Clone, Debug, Hash, PartialEq, Eq)]
pub enum FormatSpec {
    EscapeLeftBrace,
    EscapeRightBrace,
    Default,
    Keyed(String),
}

/// The two ways a template can fail: at parse time, or at evaluation time.
#[derive(Clone, Debug, PartialEq, Eq)]
pub enum FormatError {
    /// An unescaped or unterminated brace; holds the template text.
    MalformedTemplate(String),
    /// A keyed placeholder whose key has no value; holds the key.
    UnknownKey(String),
}

impl View for FormatSpec {
    type V = Piece;

    open spec fn view(&self) -> Piece {
        match self {
            FormatSpec::EscapeLeftBrace => Piece::OpenBrace,
            FormatSpec::EscapeRightBrace => Piece::CloseBrace,
            FormatSpec::Default => Piece::Positional,
            FormatSpec::Keyed(k) => Piece::Keyed(k@),
        }
    }
}

impl View for FormatArg {
    type V = (Seq<char>, Piece);

    open spec fn view(&self) -> (Seq<char>, Piece) {
        (self.leading_text@, self.fmt@)
    }
}

impl View for FormatString {
    type V = TemplateView;

    open spec fn view(&self) -> TemplateView {
        TemplateView { args: self.args@.map_values(|a: FormatArg| a@), rest: self.rest@ }
    }
}

/// The key mapping as contracts see it: (key, value) pairs, the first match wins.
pub open spec fn keys_view(keys: Seq<(String, String)>) -> Seq<(Seq<char>, Seq<char>)> {
    keys.map_values(|p: (String, String)| (p.0@, p.1@))
}

pub open spec fn lookup(keys: Seq<(Seq<char>, Seq<char>)>, k: Seq<char>) -> Option<Seq<char>>
    decreases keys.len(),
{
    if keys.len() == 0 {
        None
    } else if keys[0].0 == k {
        Some(keys[0].1)
    } else {
        lookup(keys.drop_first(), k)
    }
}

/// The text a placeholder renders to, or the key that has no value.
pub open spec fn piece_text(p: Piece, default: Seq<char>, keys: Seq<(Seq<char>, Seq<char>)>) -> Result<
    Seq<char>,
    Seq<char>,
> {
    match p {
        Piece::OpenBrace => Ok(seq!['{']),
        Piece::CloseBrace => Ok(seq!['}']),
        Piece::Positional => Ok(default),
        Piece::Keyed(k) => match lookup(keys, k) {
            Some(v) => Ok(v),
            None => Err(k),
        },
    }
}

/// The rendering of the first `n` segments; the first unknown key is the error.
pub open spec fn eval_args(
    args: Seq<(Seq<char>, Piece)>,
    n: nat,
    default: Seq<char>,
    keys: Seq<(Seq<char>, Seq<char>)>,
) -> Result<Seq<char>, Seq<char>>
    decreases n,
{
    if n == 0 {
        Ok(seq![])
    } else {
        match eval_args(args, (n - 1) as nat, default, keys) {
            Err(k) => Err(k),
            Ok(s) => match piece_text(args[n - 1].1, default, keys) {
                Err(k) => Err(k),
                Ok(p) => Ok(s + args[n - 1].0 + p),
            },
        }
    }
}

/// What evaluating a template gives: its text, or the first unknown key.
pub open spec fn eval_template(
    t: TemplateView,
    default: Seq<char>,
    keys: Seq<(Seq<char>, Seq<char>)>,
) -> Result<Seq<char>, Seq<char>> {
    match eval_args(t.args, t.args.len(), default, keys) {
        Err(k) => Err(k),
        Ok(s) => Ok(s + t.rest),
    }
}

pub open spec fn is_brace(c: char) -> bool {
    c == '{' || c == '}'
}

/// The first position at or after `i` that holds a brace, or the length.
pub open spec fn next_brace(s: Seq<char>, i: int) -> int
    decreases s.len() - i,
{
    if i < 0 || i >= s.len() {
        s.len() as int
    } else if is_brace(s[i]) {
        i
    } else {
        next_brace(s, i + 1)
    }
}

/// The first position at or after `i` that holds `}`, or the length.
pub open spec fn next_close(s: Seq<char>, i: int) -> int
    decreases s.len() - i,
{
    if i < 0 || i >= s.len() {
        s.len() as int
    } else if s[i] == '}' {
        i
    } else {
        next_close(s, i + 1)
    }
}

/// One step of parsing: `None` for a malformed template, `Some(None)` when no
/// brace is left, else the next segment and the text after it.
pub open spec fn parse_step(s: Seq<char>) -> Option<Option<((Seq<char>, Piece), Seq<char>)>> {
    let i = next_brace(s, 0);
    if i >= s.len() {
        Some(None)
    } else if s[i] == '{' {
        if i + 1 < s.len() && s[i + 1] == '{' {
            Some(Some(((s.subrange(0, i), Piece::OpenBrace), s.subrange(i + 2, s.len() as int))))
        } else {
            let j = next_close(s, i + 1);
            if j >= s.len() {
                None
            } else {
                let key = s.subrange(i + 1, j);
                let p = if key.len() == 0 {
                    Piece::Positional
                } else {
                    Piece::Keyed(key)
                };
                Some(Some(((s.subrange(0, i), p), s.subrange(j + 1, s.len() as int))))
            }
        }
    } else if i + 1 < s.len() && s[i + 1] == '}' {
        Some(Some(((s.subrange(0, i), Piece::CloseBrace), s.subrange(i + 2, s.len() as int))))
    } else {
        None
    }
}

/// The template that a text parses to, or `None` when it is malformed.
pub open spec fn parse_model(s: Seq<char>) -> Option<TemplateView>
    decreases s.len(),
{
    match parse_step(s) {
        None => None,
        Some(None) => Some(TemplateView { args: seq![], rest: s }),
        Some(Some((a, r))) => if r.len() < s.len() {
            match parse_model(r) {
                None => None,
                Some(t) => Some(TemplateView { args: seq![a] + t.args, rest: t.rest }),
            }
        } else {
            None
        },
    }
}

proof fn lemma_eval_args_err_stays(
    args: Seq<(Seq<char>, Piece)>,
    m: nat,
    n: nat,
    default: Seq<char>,
    keys: Seq<(Seq<char>, Seq<char>)>,
)
    requires
        m <= n,
        eval_args(args, m, default, keys) is Err,
    ensures
        eval_args(args, n, default, keys) == eval_args(args, m, default, keys),
    decreases n - m,
{
    if m < n {
        lemma_eval_args_err_stays(args, m, (n - 1) as nat, default, keys);
    }
}

proof fn lemma_next_brace_bounds(s: Seq<char>, i: int)
    requires
        0 <= i <= s.len(),
    ensures
        i <= next_brace(s, i) <= s.len(),
    decreases s.len() - i,
{
    if i < s.len() && !is_brace(s[i]) {
        lemma_next_brace_bounds(s, i + 1);
    }
}

proof fn lemma_next_close_bounds(s: Seq<char>, i: int)
    requires
        0 <= i <= s.len(),
    ensures
        i <= next_close(s, i) <= s.len(),
    decreases s.len() - i,
{
    if i < s.len() && s[i] != '}' {
        lemma_next_close_bounds(s, i + 1);
    }
}

proof fn lemma_parse_step_shrinks(s: Seq<char>)
    ensures
        match parse_step(s) {
            Some(Some((a, r))) => r.len() < s.len(),
            _ => true,
        },
{
    lemma_next_brace_bounds(s, 0);
    let i = next_brace(s, 0);
    if i + 1 <= s.len() {
        lemma_next_close_bounds(s, i + 1);
    }
}

/// Finds the value of `key`: the first pair whose key matches.
fn lookup_key<'a>(keys: &'a Vec<(String, String)>, key: &String) -> (r: Option<&'a String>)
    ensures
        match lookup(keys_view(keys@), key@) {
            Some(v) => r is Some && r->Some_0@ == v,
            None => r is None,
        },
{
    let ghost kv = keys_view(keys@);
    let mut i: usize = 0;
    assert(kv.subrange(0, kv.len() as int) =~= kv);
    while i < keys.len()
        invariant
            i <= keys@.len(),
            kv == keys_view(keys@),
            lookup(kv, key@) == lookup(kv.subrange(i as int, kv.len() as int), key@),
        decreases keys@.len() - i,
    {
        assert(kv.subrange(i as int, kv.len() as int).drop_first() =~= kv.subrange(
            i + 1,
            kv.len() as int,
        ));
        assert(kv[i as int] == (keys@[i as int].0@, keys@[i as int].1@));
        if keys[i].0 == *key {
            return Some(&keys[i].1);
        }
        i = i + 1;
    }
    None
}

impl FormatString {
    /// Renders the template into `output`: literals as they are, `{{` and `}}` as
    /// single braces, `{}` as `default`, `{key}` as the value of `key`.
    pub fn eval(&self, default: &str, keys: &Vec<(String, String)>, output: &mut String) -> (r:
        Result<(), FormatError>)
        ensures
            match eval_template(self@, default@, keys_view(keys@)) {
                Ok(s) => r is Ok && final(output)@ == old(output)@ + s,
                Err(k) => match r {
                    Err(FormatError::UnknownKey(e)) => e@ == k,
                    _ => false,
                },
            },
    {
        let ghost t = self@;
        let ghost kv = keys_view(keys@);
        let ghost start = output@;
        let mut i: usize = 0;
        while i < self.args.len()
            invariant
                i <= self.args@.len(),
                t == self@,
                kv == keys_view(keys@),
                eval_args(t.args, i as nat, default@, kv) is Ok,
                output@ == start + eval_args(t.args, i as nat, default@, kv)->Ok_0,
            decreases self.args@.len() - i,
        {
            let arg = &self.args[i];
            assert(t.args[i as int] == arg@);
            let ghost before = output@;
            output.append(arg.leading_text.as_str());
            match &arg.fmt {
                FormatSpec::EscapeLeftBrace => {
                    proof {
                        reveal_strlit("{");
                    }
                    output.append("{");
                },
                FormatSpec::EscapeRightBrace => {
                    proof {
                        reveal_strlit("}");
                    }
                    output.append("}");
                },
                FormatSpec::Default => {
                    output.append(default);
                },
                FormatSpec::Keyed(key) => {
                    match lookup_key(keys, key) {
                        Some(v) => {
                            output.append(v.as_str());
                        },
                        None => {
                            proof {
                                lemma_eval_args_err_stays(
                                    t.args,
                                    (i + 1) as nat,
                                    t.args.len(),
                                    default@,
                                    kv,
                                );
                            }
                            return Err(FormatError::UnknownKey(key.clone()));
                        },
                    }
                },
            }
            assert(output@ =~= start + eval_args(t.args, (i + 1) as nat, default@, kv)->Ok_0);
            i = i + 1;
        }
        output.append(self.rest.as_str());
        assert(output@ =~= start + eval_template(t, default@, kv)->Ok_0);
        Ok(())
    }
}

/// Where the first brace at or after `from` stands, or the length of `x`.
fn scan_brace(x: &str, from: usize) -> (r: usize)
    requires
        from <= x@.len(),
    ensures
        r == next_brace(x@, from as int),
{
    let n = x.unicode_len();
    let mut i = from;
    while i < n && !(x.get_char(i) == '{' || x.get_char(i) == '}')
        invariant
            from <= i <= n,
            n == x@.len(),
            next_brace(x@, i as int) == next_brace(x@, from as int),
        decreases n - i,
    {
        i = i + 1;
    }
    i
}

/// Where the first `}` at or after `from` stands, or the length of `x`.
fn scan_close(x: &str, from: usize) -> (r: usize)
    requires
        from <= x@.len(),
    ensures
        r == next_close(x@, from as int),
{
    let n = x.unicode_len();
    let mut i = from;
    while i < n && x.get_char(i) != '}'
        invariant
            from <= i <= n,
            n == x@.len(),
            next_close(x@, i as int) == next_close(x@, from as int),
        decreases n - i,
    {
        i = i + 1;
    }
    i
}

/// Splits off the next segment of a template: the text before the first brace
/// and the placeholder that the brace opens, with the text after it.
pub fn parse_fmt_str<'a>(x: &'a str) -> (r: Result<(Option<FormatArg>, &'a str), FormatError>)
    ensures
        match parse_step(x@) {
            None => match r {
                Err(FormatError::MalformedTemplate(t)) => t@ == x@,
                _ => false,
            },
            Some(None) => r is Ok && r->Ok_0.0 is None && r->Ok_0.1@ == x@,
            Some(Some((a, rest))) => r is Ok && r->Ok_0.0 is Some && r->Ok_0.0->Some_0@ == a
                && r->Ok_0.1@ == rest,
        },
{
    let n = x.unicode_len();
    let i = scan_brace(x, 0);
    proof {
        lemma_next_brace_bounds(x@, 0);
    }
    if i >= n {
        return Ok((None, x));
    }
    let leading_text = String::from_str(x.substring_char(0, i));
    if x.get_char(i) == '{' {
        if i + 1 < n && x.get_char(i + 1) == '{' {
            let arg = FormatArg { leading_text, fmt: FormatSpec::EscapeLeftBrace };
            Ok((Some(arg), x.substring_char(i + 2, n)))
        } else {
            let j = scan_close(x, i + 1);
            proof {
                lemma_next_close_bounds(x@, i + 1);
            }
            if j >= n {
                Err(FormatError::MalformedTemplate(String::from_str(x)))
            } else {
                let fmt = if j == i + 1 {
                    FormatSpec::Default
                } else {
                    FormatSpec::Keyed(String::from_str(x.substring_char(i + 1, j)))
                };
                let arg = FormatArg { leading_text, fmt };
                Ok((Some(arg), x.substring_char(j + 1, n)))
            }
        }
    } else if i + 1 < n && x.get_char(i + 1) == '}' {
        let arg = FormatArg { leading_text, fmt: FormatSpec::EscapeRightBrace };
        Ok((Some(arg), x.substring_char(i + 2, n)))
    } else {
        Err(FormatError::MalformedTemplate(String::from_str(x)))
    }
}

/// `parse_model` of a text, once the segments in `front` are already parsed off.
pub open spec fn parsed_after(front: Seq<(Seq<char>, Piece)>, t: Option<TemplateView>) -> Option<
    TemplateView,
> {
    match t {
        None => None,
        Some(t) => Some(TemplateView { args: front + t.args, rest: t.rest }),
    }
}

impl FormatString {
    /// Parses a template; fails with `MalformedTemplate` on an unescaped or
    /// unterminated brace.
    pub fn parse(s: &str) -> (r: Result<FormatString, FormatError>)
        ensures
            match parse_model(s@) {
                None => match r {
                    Err(FormatError::MalformedTemplate(t)) => t@ == s@,
                    _ => false,
                },
                Some(t) => r is Ok && r->Ok_0@ == t,
            },
    {
        let mut args: Vec<FormatArg> = Vec::new();
        let mut v: &str = s;
        proof {
            if let Some(t) = parse_model(s@) {
                assert(args@.map_values(|a: FormatArg| a@) + t.args =~= t.args);
            }
        }
        loop
            invariant
                parse_model(s@) == parsed_after(args@.map_values(|a: FormatArg| a@), parse_model(v@)),
            decreases v@.len(),
        {
            proof {
                lemma_parse_step_shrinks(v@);
            }
            match parse_fmt_str(v) {
                Err(_) => {
                    return Err(FormatError::MalformedTemplate(String::from_str(s)));
                },
                Ok((Some(arg), rest)) => {
                    let ghost front = args@.map_values(|a: FormatArg| a@);
                    let ghost a = arg@;
                    args.push(arg);
                    assert(args@.map_values(|a: FormatArg| a@) =~= front.push(a));
                    proof {
                        match parse_model(rest@) {
                            None => {},
                            Some(t) => {
                                assert(front + (seq![a] + t.args) =~= front.push(a) + t.args);
                            },
                        }
                    }
                    v = rest;
                },
                Ok((None, rest)) => {
                    let out = FormatString { args, rest: String::from_str(rest) };
                    assert(out@.args =~= out@.args + seq![]);
                    return Ok(out);
                },
            }
        }
    }
}

/// Which labels a group or label applies to, and its description and colour;
/// `None` means unset (for `repos`: every scope).
pub struct LabelSpec {
    pub repos: Option<Vec<String>>,
    pub description: Option<FormatString>,
    pub colour: Option<String>,
}

/// A group of labels: its own settings, its naming pattern, plain label stems,
/// elaborated labels with settings of their own, and named subgroups.
pub struct LabelGroupSpec {
    pub label_spec: LabelSpec,
    pub repeatable: bool,
    pub pattern: FormatString,
    pub labels: Vec<String>,
    pub elaborated_labels: Vec<(String, LabelSpec)>,
    pub subgroups: Vec<(String, LabelGroupSpec)>,
}

/// The whole label tree: top-level groups by name.
pub struct LabelsFile {
    pub groups: Vec<(String, LabelGroupSpec)>,
}

/// The repositories to sync, by scope key, and the labels each may keep.
pub struct ReposFile {
    pub repos: Vec<(String, String)>,
    pub allowed_labels: AllowedLabels,
}

/// Labels that are never deleted: in every repository, or in one by its key.
pub struct AllowedLabels {
    pub all: Vec<String>,
    pub by_repo: Vec<(String, Vec<String>)>,
}

/// The canonical text of a placeholder.
pub open spec fn piece_code(p: Piece) -> Seq<char> {
    match p {
        Piece::OpenBrace => seq!['{', '{'],
        Piece::CloseBrace => seq!['}', '}'],
        Piece::Positional => seq!['{', '}'],
        Piece::Keyed(k) => seq!['{'] + k + seq!['}'],
    }
}

/// The canonical text of a template: each literal, then its placeholder's code.
pub open spec fn serialize(args: Seq<(Seq<char>, Piece)>, rest: Seq<char>) -> Seq<char>
    decreases args.len(),
{
    if args.len() == 0 {
        rest
    } else {
        args[0].0 + piece_code(args[0].1) + serialize(args.drop_first(), rest)
    }
}

pub open spec fn brace_free(s: Seq<char>) -> bool {
    forall|i: int| 0 <= i < s.len() ==> !is_brace(#[trigger] s[i])
}

/// A key that the canonical text writes back unchanged: not empty, without
/// `}`, and not starting with `{` (which would read as an escape).
pub open spec fn writable_key(k: Seq<char>) -> bool {
    k.len() > 0 && k[0] != '{' && forall|i: int| 0 <= i < k.len() ==> #[trigger] k[i] != '}'
}

/// A template whose canonical text parses back: literals hold no braces, keys
/// are writable.
pub open spec fn canonical(t: TemplateView) -> bool {
    &&& brace_free(t.rest)
    &&& forall|i: int| 0 <= i < t.args.len() ==> brace_free(#[trigger] t.args[i].0)
    &&& forall|i: int|
        0 <= i < t.args.len() ==> match #[trigger] t.args[i].1 {
            Piece::Keyed(k) => writable_key(k),
            _ => true,
        }
}

/// Whether a template has no keyed placeholder.
pub open spec fn keyless(t: TemplateView) -> bool {
    forall|i: int| 0 <= i < t.args.len() ==> !(#[trigger] t.args[i].1 is Keyed)
}

/// The text of the first `n` segments of a keyless template: escapes become
/// single braces and `{}` becomes `default`.
pub open spec fn render_args(args: Seq<(Seq<char>, Piece)>, n: nat, default: Seq<char>) -> Seq<char>
    decreases n,
{
    if n == 0 {
        seq![]
    } else {
        render_args(args, (n - 1) as nat, default) + args[n - 1].0 + match args[n - 1].1 {
            Piece::OpenBrace => seq!['{'],
            Piece::CloseBrace => seq!['}'],
            _ => default,
        }
    }
}

proof fn lemma_next_brace_at(s: Seq<char>, k: int, i: int)
    requires
        0 <= k <= i <= s.len(),
        forall|m: int| k <= m < i ==> !is_brace(#[trigger] s[m]),
        i == s.len() || is_brace(s[i]),
    ensures
        next_brace(s, k) == i,
    decreases i - k,
{
    if k < i {
        lemma_next_brace_at(s, k + 1, i);
    }
}

proof fn lemma_next_close_at(s: Seq<char>, k: int, i: int)
    requires
        0 <= k <= i < s.len(),
        forall|m: int| k <= m < i ==> #[trigger] s[m] != '}',
        s[i] == '}',
    ensures
        next_close(s, k) == i,
    decreases i - k,
{
    if k < i {
        lemma_next_close_at(s, k + 1, i);
    }
}

proof fn lemma_render_keyless(
    args: Seq<(Seq<char>, Piece)>,
    n: nat,
    default: Seq<char>,
    keys: Seq<(Seq<char>, Seq<char>)>,
)
    requires
        n <= args.len(),
        forall|i: int| 0 <= i < args.len() ==> !(#[trigger] args[i].1 is Keyed),
    ensures
        eval_args(args, n, default, keys) == Ok::<Seq<char>, Seq<char>>(
            render_args(args, n, default),
        ),
    decreases n,
{
    if n > 0 {
        lemma_render_keyless(args, (n - 1) as nat, default, keys);
        assert(!(args[n - 1].1 is Keyed));
    }
}

proof fn lemma_parse_serialize(args: Seq<(Seq<char>, Piece)>, rest: Seq<char>)
    requires
        canonical(TemplateView { args, rest }),
    ensures
        parse_model(serialize(args, rest)) == Some(TemplateView { args, rest }),
    decreases args.len(),
{
    let s = serialize(args, rest);
    if args.len() == 0 {
        assert forall|m: int| 0 <= m < s.len() implies !is_brace(#[trigger] s[m]) by {
            assert(brace_free(rest));
        }
        lemma_next_brace_at(s, 0, s.len() as int);
        assert(args =~= seq![]);
    } else {
        let lit = args[0].0;
        let p = args[0].1;
        let tail_args = args.drop_first();
        let tail = serialize(tail_args, rest);
        let code = piece_code(p);
        assert(brace_free(args[0].0));
        assert forall|i: int| 0 <= i < tail_args.len() implies brace_free(
            #[trigger] tail_args[i].0,
        ) by {
            assert(tail_args[i] == args[i + 1]);
            assert(brace_free(args[i + 1].0));
        }
        assert forall|i: int| 0 <= i < tail_args.len() implies match #[trigger] tail_args[i].1 {
            Piece::Keyed(k) => writable_key(k),
            _ => true,
        } by {
            assert(tail_args[i] == args[i + 1]);
            let q = args[i + 1].1;
            assert(match q {
                Piece::Keyed(k) => writable_key(k),
                _ => true,
            });
        }
        lemma_parse_serialize(tail_args, rest);
        assert(s =~= lit + code + tail);
        let i = lit.len() as int;
        assert(s[i] == code[0]);
        assert forall|m: int| 0 <= m < i implies !is_brace(#[trigger] s[m]) by {
            assert(s[m] == lit[m]);
        }
        lemma_next_brace_at(s, 0, i);
        assert(s.subrange(0, i) =~= lit);
        match p {
            Piece::OpenBrace => {
                assert(s.subrange(i + 2, s.len() as int) =~= tail);
            },
            Piece::CloseBrace => {
                assert(s.subrange(i + 2, s.len() as int) =~= tail);
            },
            Piece::Positional => {
                assert(s[i + 1] == '}');
                lemma_next_close_at(s, i + 1, i + 1);
                assert(s.subrange(i + 1, i + 1) =~= Seq::<char>::empty());
                assert(s.subrange(i + 2, s.len() as int) =~= tail);
            },
            Piece::Keyed(k) => {
                assert(writable_key(k));
                let j = i + 1 + k.len();
                assert(s[i + 1] == k[0]);
                assert forall|m: int| i + 1 <= m < j implies #[trigger] s[m] != '}' by {
                    assert(s[m] == k[m - i - 1]);
                }
                assert(s[j] == '}');
                lemma_next_close_at(s, i + 1, j);
                assert(s.subrange(i + 1, j) =~= k);
                assert(s.subrange(j + 1, s.len() as int) =~= tail);
            },
        }
        assert(parse_step(s) == Some(Some(((lit, p), tail))));
        assert(seq![args[0]] + tail_args =~= args);
    }
}

/// The canonical text of a template whose literals hold no braces and whose keys
/// can be written back parses to that same template; and where it has no keyed
/// placeholder, evaluating it under any keys gives its literals with `{{` and
/// `}}` as single braces and `{}` as the default text.
pub proof fn lemma_parse_left_inverse(t: TemplateView, default: Seq<char>, keys: Seq<(Seq<char>, Seq<char>)>)
    requires
        canonical(t),
    ensures
        parse_model(serialize(t.args, t.rest)) == Some(t),
        keyless(t) ==> eval_template(t, default, keys) == Ok::<Seq<char>, Seq<char>>(
            render_args(t.args, t.args.len(), default) + t.rest,
        ),
{
    lemma_parse_serialize(t.args, t.rest);
    if keyless(t) {
        lemma_render_keyless(t.args, t.args.len(), default, keys);
    }
}

} // verus!
