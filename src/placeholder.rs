//! Placeholders: a parameter name and a chain of transforms, parsed from the
//! text between two delimiters in one of three grammars.
use vstd::prelude::*;

use crate::format::{apply, formatter_named, is_random_suffix, random_suffix, transformed, Formatter};
use crate::template::Params;
use crate::text::{push_all, string_of, views};

verus! {

/// The placeholder grammar that a text body uses.
#[derive(Copy, Clone, Debug, PartialEq, Eq, Structural)]
pub enum Style {
    /// `key;t1,t2`
    Content,
    /// `key;format="t1,t2"`
    Legacy,
    /// `key__t1_t2`, for file and directory names
    PathSegment,
}

/// Why an expression is not a placeholder.
#[derive(Copy, Clone, Debug, PartialEq, Eq, Structural)]
pub enum ParseError {
    /// Nothing stands between the delimiters.
    EmptyPlaceholder,
    /// More than one `;` separator.
    TooManySeparators,
}

/// `s` cut at each `c`; the pieces keep their order, and `k` separators make
/// `k + 1` pieces.
pub open spec fn split_on(s: Seq<char>, c: char) -> Seq<Seq<char>>
    decreases s.len(),
{
    if s.len() == 0 {
        seq![seq![]]
    } else if s[0] == c {
        seq![seq![]] + split_on(s.drop_first(), c)
    } else {
        let r = split_on(s.drop_first(), c);
        r.update(0, seq![s[0]] + r[0])
    }
}

/// `s` cut at each `__`, matched from the left without overlap.
pub open spec fn split_on_pair(s: Seq<char>) -> Seq<Seq<char>>
    decreases s.len(),
{
    if s.len() == 0 {
        seq![seq![]]
    } else if s.len() >= 2 && s[0] == '_' && s[1] == '_' {
        seq![seq![]] + split_on_pair(s.subrange(2, s.len() as int))
    } else {
        let r = split_on_pair(s.drop_first());
        r.update(0, seq![s[0]] + r[0])
    }
}

pub proof fn lemma_split_on_nonempty(s: Seq<char>, c: char)
    ensures
        split_on(s, c).len() >= 1,
    decreases s.len(),
{
    if s.len() > 0 {
        lemma_split_on_nonempty(s.drop_first(), c);
    }
}

proof fn lemma_split_on_pair_nonempty(s: Seq<char>)
    ensures
        split_on_pair(s).len() >= 1,
    decreases s.len(),
{
    if s.len() >= 2 && s[0] == '_' && s[1] == '_' {
        lemma_split_on_pair_nonempty(s.subrange(2, s.len() as int));
    } else if s.len() > 0 {
        lemma_split_on_pair_nonempty(s.drop_first());
    }
}

/// `r` with `cur` put in front of its first piece.
pub open spec fn glue(cur: Seq<char>, r: Seq<Seq<char>>) -> Seq<Seq<char>> {
    r.update(0, cur + r[0])
}

/// Cuts `s` at each `c`.
pub fn split_char(s: &[char], c: char) -> (r: Vec<Vec<char>>)
    ensures
        views(r@) == split_on(s@, c),
{
    let mut parts: Vec<Vec<char>> = Vec::new();
    let mut cur: Vec<char> = Vec::new();
    let mut i: usize = 0;
    proof {
        lemma_split_on_nonempty(s@, c);
        assert(s@.subrange(0, s@.len() as int) =~= s@);
        assert(glue(cur@, split_on(s@, c)) =~= split_on(s@, c));
        assert(views(parts@) + split_on(s@, c) =~= split_on(s@, c));
    }
    while i < s.len()
        invariant
            i <= s@.len(),
            views(parts@) + glue(cur@, split_on(s@.subrange(i as int, s@.len() as int), c))
                == split_on(s@, c),
        decreases s@.len() - i,
    {
        let ghost rest = s@.subrange(i as int, s@.len() as int);
        let ghost next = s@.subrange(i + 1 as int, s@.len() as int);
        assert(rest.drop_first() =~= next);
        proof {
            lemma_split_on_nonempty(next, c);
        }
        if s[i] == c {
            let ghost before = parts@;
            let ghost old_cur = cur@;
            parts.push(cur);
            cur = Vec::new();
            assert(views(parts@) =~= views(before).push(old_cur));
            assert(glue(old_cur, split_on(rest, c)) =~= seq![old_cur] + split_on(next, c));
            assert(glue(cur@, split_on(next, c)) =~= split_on(next, c));
            assert(views(parts@) + glue(cur@, split_on(next, c)) =~= views(before) + glue(
                old_cur,
                split_on(rest, c),
            ));
        } else {
            let ghost old_cur = cur@;
            cur.push(s[i]);
            let ghost r = split_on(next, c);
            assert(split_on(rest, c) == r.update(0, seq![rest[0]] + r[0]));
            assert(old_cur + (seq![rest[0]] + r[0]) =~= cur@ + r[0]);
            assert(glue(old_cur, split_on(rest, c)) =~= glue(cur@, split_on(next, c)));
        }
        i = i + 1;
    }
    let ghost before = parts@;
    assert(s@.subrange(i as int, s@.len() as int) =~= seq![]);
    parts.push(cur);
    assert(views(parts@) =~= views(before) + glue(cur@, seq![seq![]]));
    parts
}

/// Cuts `s` at each `__`, matched from the left without overlap.
pub fn split_pair(s: &[char]) -> (r: Vec<Vec<char>>)
    ensures
        views(r@) == split_on_pair(s@),
{
    let mut parts: Vec<Vec<char>> = Vec::new();
    let mut cur: Vec<char> = Vec::new();
    let mut i: usize = 0;
    proof {
        lemma_split_on_pair_nonempty(s@);
        assert(s@.subrange(0, s@.len() as int) =~= s@);
        assert(glue(cur@, split_on_pair(s@)) =~= split_on_pair(s@));
        assert(views(parts@) + split_on_pair(s@) =~= split_on_pair(s@));
    }
    while i < s.len()
        invariant
            i <= s@.len(),
            views(parts@) + glue(cur@, split_on_pair(s@.subrange(i as int, s@.len() as int)))
                == split_on_pair(s@),
        decreases s@.len() - i,
    {
        let ghost rest = s@.subrange(i as int, s@.len() as int);
        if i + 1 < s.len() && s[i] == '_' && s[i + 1] == '_' {
            let ghost next = s@.subrange(i + 2 as int, s@.len() as int);
            assert(rest.subrange(2, rest.len() as int) =~= next);
            proof {
                lemma_split_on_pair_nonempty(next);
            }
            let ghost before = parts@;
            let ghost old_cur = cur@;
            parts.push(cur);
            cur = Vec::new();
            assert(views(parts@) =~= views(before).push(old_cur));
            assert(glue(old_cur, split_on_pair(rest)) =~= seq![old_cur] + split_on_pair(next));
            assert(glue(cur@, split_on_pair(next)) =~= split_on_pair(next));
            assert(views(parts@) + glue(cur@, split_on_pair(next)) =~= views(before) + glue(
                old_cur,
                split_on_pair(rest),
            ));
            i = i + 2;
        } else {
            let ghost next = s@.subrange(i + 1 as int, s@.len() as int);
            assert(rest.drop_first() =~= next);
            proof {
                lemma_split_on_pair_nonempty(next);
            }
            let ghost old_cur = cur@;
            cur.push(s[i]);
            let ghost r = split_on_pair(next);
            assert(split_on_pair(rest) == r.update(0, seq![rest[0]] + r[0]));
            assert(old_cur + (seq![rest[0]] + r[0]) =~= cur@ + r[0]);
            assert(glue(old_cur, split_on_pair(rest)) =~= glue(cur@, split_on_pair(next)));
            i = i + 1;
        }
    }
    let ghost before = parts@;
    assert(s@.subrange(i as int, s@.len() as int) =~= seq![]);
    parts.push(cur);
    assert(views(parts@) =~= views(before) + glue(cur@, seq![seq![]]));
    parts
}

/// The transforms that a list of names stands for, in order, leaving out the
/// names that stand for none.
pub open spec fn chain_of(names: Seq<Seq<char>>) -> Seq<Formatter>
    decreases names.len(),
{
    if names.len() == 0 {
        seq![]
    } else {
        let r = chain_of(names.drop_last());
        let f = formatter_named(names.last());
        if f == Formatter::Ident {
            r
        } else {
            r.push(f)
        }
    }
}

/// `s` without any `c`.
pub open spec fn without_char(s: Seq<char>, c: char) -> Seq<char>
    decreases s.len(),
{
    if s.len() == 0 {
        s
    } else if s.last() == c {
        without_char(s.drop_last(), c)
    } else {
        without_char(s.drop_last(), c).push(s.last())
    }
}

/// `s` with each occurrence of `pat` taken out, matched from the left.
pub open spec fn without_text(s: Seq<char>, pat: Seq<char>) -> Seq<char>
    decreases s.len(),
{
    if s.len() == 0 {
        s
    } else if 0 < pat.len() <= s.len() && s.subrange(0, pat.len() as int) == pat {
        without_text(s.subrange(pat.len() as int, s.len() as int), pat)
    } else {
        seq![s[0]] + without_text(s.drop_first(), pat)
    }
}

/// The transform list of a placeholder in the given style, before it is cut
/// at commas.
pub open spec fn transform_text(style: Style, a: Seq<char>) -> Seq<char> {
    if style == Style::Legacy {
        without_text(without_char(a, '"'), "format="@)
    } else {
        a
    }
}

/// The key and transforms that expression `e` holds in grammar `style`.
pub open spec fn parsed(style: Style, e: Seq<char>) -> Result<(Seq<char>, Seq<Formatter>), ParseError> {
    if style == Style::PathSegment {
        let parts = split_on_pair(e);
        if parts.len() == 2 {
            Ok((parts[0], chain_of(split_on(parts[1], '_'))))
        } else {
            Ok((e, seq![]))
        }
    } else if e.len() == 0 {
        Err(ParseError::EmptyPlaceholder)
    } else {
        let parts = split_on(e, ';');
        if parts.len() == 1 {
            Ok((e, seq![]))
        } else if parts.len() == 2 {
            Ok((parts[0], chain_of(split_on(transform_text(style, parts[1]), ','))))
        } else {
            Err(ParseError::TooManySeparators)
        }
    }
}

/// `v` run through the transforms of `ts` from first to last; `sfx` is the
/// suffix that `AddRandom` appends.
pub open spec fn fold_chain(v: Seq<char>, ts: Seq<Formatter>, sfx: Seq<char>) -> Seq<char>
    decreases ts.len(),
{
    if ts.len() == 0 {
        v
    } else {
        transformed(fold_chain(v, ts.drop_last(), sfx), ts.last(), sfx)
    }
}

/// What placeholder `p` renders to: its key's value run through its
/// transforms, or the key itself where the table has no such parameter.
pub open spec fn resolve(
    p: (Seq<char>, Seq<Formatter>),
    params: Map<Seq<char>, Seq<char>>,
    sfx: Seq<char>,
) -> Seq<char> {
    if params.contains_key(p.0) {
        fold_chain(params[p.0], p.1, sfx)
    } else {
        p.0
    }
}

/// A parameter name and the transforms to apply to its value.
pub struct Placeholder {
    pub key: String,
    pub transforms: Vec<Formatter>,
}

impl View for Placeholder {
    type V = (Seq<char>, Seq<Formatter>);

    open spec fn view(&self) -> (Seq<char>, Seq<Formatter>) {
        (self.key@, self.transforms@)
    }
}

impl Placeholder {
    /// The transforms never include `Ident`.
    pub open spec fn wf(&self) -> bool {
        !self.transforms@.contains(Formatter::Ident)
    }
}

/// A chain built from names holds no `Ident`.
pub proof fn lemma_chain_of_no_ident(names: Seq<Seq<char>>)
    ensures
        !chain_of(names).contains(Formatter::Ident),
    decreases names.len(),
{
    if names.len() > 0 {
        lemma_chain_of_no_ident(names.drop_last());
        let r = chain_of(names.drop_last());
        let f = formatter_named(names.last());
        if f != Formatter::Ident {
            assert forall|j: int| 0 <= j < r.push(f).len() implies r.push(f)[j] != Formatter::Ident by {
                if j < r.len() {
                    assert(r.push(f)[j] == r[j]);
                }
            }
        }
    }
}

/// The parse of `e` in grammar `style`, as a placeholder or an error.
pub open spec fn parse_matches(
    r: Result<Placeholder, ParseError>,
    style: Style,
    e: Seq<char>,
) -> bool {
    match parsed(style, e) {
        Ok(v) => r is Ok && r->Ok_0@ == v && r->Ok_0.wf(),
        Err(x) => r == Err::<Placeholder, ParseError>(x),
    }
}

/// A chain without `AddRandom` does not depend on the random suffix.
pub proof fn lemma_fold_without_random(v: Seq<char>, ts: Seq<Formatter>, s1: Seq<char>, s2: Seq<char>)
    requires
        !ts.contains(Formatter::AddRandom),
    ensures
        fold_chain(v, ts, s1) == fold_chain(v, ts, s2),
    decreases ts.len(),
{
    if ts.len() > 0 {
        assert(ts.last() == ts[ts.len() - 1]);
        assert forall|f: Formatter| ts.drop_last().contains(f) implies ts.contains(f) by {
            let j = choose|j: int| 0 <= j < ts.drop_last().len() && ts.drop_last()[j] == f;
            assert(ts[j] == f);
        }
        lemma_fold_without_random(v, ts.drop_last(), s1, s2);
    }
}

/// A placeholder without `AddRandom` renders the same whatever the suffix.
pub proof fn lemma_resolve_without_random(
    p: (Seq<char>, Seq<Formatter>),
    params: Map<Seq<char>, Seq<char>>,
    s1: Seq<char>,
    s2: Seq<char>,
)
    requires
        !p.1.contains(Formatter::AddRandom),
    ensures
        resolve(p, params, s1) == resolve(p, params, s2),
{
    if params.contains_key(p.0) {
        lemma_fold_without_random(params[p.0], p.1, s1, s2);
    }
}

/// With no transforms, a placeholder renders to its key's value unchanged.
pub proof fn lemma_empty_chain_is_lookup(
    key: Seq<char>,
    params: Map<Seq<char>, Seq<char>>,
    sfx: Seq<char>,
)
    requires
        params.contains_key(key),
    ensures
        resolve((key, seq![]), params, sfx) == params[key],
{
}

/// A placeholder whose key has no value renders to the key itself, whatever
/// its transforms.
pub proof fn lemma_missing_key_renders_key(
    p: (Seq<char>, Seq<Formatter>),
    params: Map<Seq<char>, Seq<char>>,
    sfx: Seq<char>,
)
    requires
        !params.contains_key(p.0),
    ensures
        resolve(p, params, sfx) == p.0,
{
}

proof fn lemma_split_on_plain(a: Seq<char>, c: char)
    requires
        !a.contains(c),
    ensures
        split_on(a, c) == seq![a],
    decreases a.len(),
{
    if a.len() > 0 {
        assert(a[0] != c);
        assert(!a.drop_first().contains(c)) by {
            if a.drop_first().contains(c) {
                let j = choose|j: int| 0 <= j < a.drop_first().len() && a.drop_first()[j] == c;
                assert(a[j + 1] == c);
            }
        }
        lemma_split_on_plain(a.drop_first(), c);
        assert(seq![a[0]] + a.drop_first() =~= a);
        assert(split_on(a, c) =~= seq![a]);
    } else {
        assert(a =~= seq![]);
    }
}

proof fn lemma_split_on_cut(a: Seq<char>, c: char, rest: Seq<char>)
    requires
        !a.contains(c),
    ensures
        split_on(a + seq![c] + rest, c) == seq![a] + split_on(rest, c),
    decreases a.len(),
{
    let s = a + seq![c] + rest;
    if a.len() == 0 {
        assert(s[0] == c);
        assert(s.drop_first() =~= rest);
        assert(a =~= seq![]);
    } else {
        assert(a[0] != c);
        assert(!a.drop_first().contains(c)) by {
            if a.drop_first().contains(c) {
                let j = choose|j: int| 0 <= j < a.drop_first().len() && a.drop_first()[j] == c;
                assert(a[j + 1] == c);
            }
        }
        lemma_split_on_cut(a.drop_first(), c, rest);
        assert(s.drop_first() =~= a.drop_first() + seq![c] + rest);
        assert(s[0] == a[0]);
        assert(seq![a[0]] + a.drop_first() =~= a);
        assert(split_on(s, c) =~= seq![a] + split_on(rest, c));
    }
}

/// A content-style placeholder `k;t1,t2` parses to key `k`, and renders with
/// `t1` and then `t2` folded over the value of `k`.
pub proof fn lemma_content_round_trip(
    k: Seq<char>,
    t1: Seq<char>,
    t2: Seq<char>,
    v: Seq<char>,
    sfx: Seq<char>,
)
    requires
        !k.contains(';'),
        !t1.contains(';'),
        !t2.contains(';'),
        !t1.contains(','),
        !t2.contains(','),
    ensures
        ({
            let e = k + seq![';'] + t1 + seq![','] + t2;
            &&& parsed(Style::Content, e) is Ok
            &&& parsed(Style::Content, e)->Ok_0.0 == k
            &&& resolve(parsed(Style::Content, e)->Ok_0, map![k => v], sfx) == transformed(
                transformed(v, formatter_named(t1), sfx),
                formatter_named(t2),
                sfx,
            )
        }),
{
    let args = t1 + seq![','] + t2;
    let e = k + seq![';'] + args;
    assert(k + seq![';'] + t1 + seq![','] + t2 =~= e);
    assert(!args.contains(';')) by {
        if args.contains(';') {
            let j = choose|j: int| 0 <= j < args.len() && args[j] == ';';
            if j < t1.len() {
                assert(t1[j] == ';');
            } else if j > t1.len() {
                assert(t2[j - t1.len() - 1] == ';');
            }
        }
    }
    lemma_split_on_cut(k, ';', args);
    lemma_split_on_plain(args, ';');
    lemma_split_on_cut(t1, ',', t2);
    lemma_split_on_plain(t2, ',');
    let parts = split_on(e, ';');
    assert(parts =~= seq![k, args]);
    assert(split_on(args, ',') =~= seq![t1, t2]);
    let names = seq![t1, t2];
    assert(names.drop_last() =~= seq![t1]);
    assert(seq![t1].drop_last() =~= Seq::<Seq<char>>::empty());
    let f1 = formatter_named(t1);
    let f2 = formatter_named(t2);
    let ts = chain_of(names);
    let m = map![k => v];
    assert(m.contains_key(k));
    assert(m[k] == v);
    assert(names.last() == t2);
    assert(seq![t1].last() == t1);
    assert(chain_of(Seq::<Seq<char>>::empty()) =~= Seq::<Formatter>::empty());
    assert(chain_of(seq![t1]) =~= if f1 == Formatter::Ident { seq![] } else { seq![f1] });
    assert(e.len() > 0);
    assert(parsed(Style::Content, e) == Ok::<(Seq<char>, Seq<Formatter>), ParseError>((k, ts)));
    assert(transformed(v, Formatter::Ident, sfx) == v);
    assert(fold_chain(v, seq![], sfx) == v);
    if f1 == Formatter::Ident {
        if f2 == Formatter::Ident {
            assert(ts =~= seq![]);
        } else {
            assert(ts =~= seq![f2]);
            assert(ts.drop_last() =~= seq![]);
            assert(fold_chain(v, ts, sfx) == transformed(v, f2, sfx));
        }
    } else {
        if f2 == Formatter::Ident {
            assert(ts =~= seq![f1]);
            assert(ts.drop_last() =~= seq![]);
            assert(fold_chain(v, ts, sfx) == transformed(v, f1, sfx));
            assert(transformed(transformed(v, f1, sfx), f2, sfx) == transformed(v, f1, sfx));
        } else {
            assert(ts =~= seq![f1, f2]);
            assert(ts.drop_last() =~= seq![f1]);
            assert(ts.drop_last().drop_last() =~= seq![]);
            assert(fold_chain(v, seq![f1], sfx) == transformed(v, f1, sfx));
            assert(fold_chain(v, ts, sfx) == transformed(fold_chain(v, seq![f1], sfx), f2, sfx));
        }
    }
}

fn chain_from(names: &Vec<Vec<char>>) -> (r: Vec<Formatter>)
    ensures
        r@ == chain_of(views(names@)),
{
    let mut out: Vec<Formatter> = Vec::new();
    let mut i: usize = 0;
    while i < names.len()
        invariant
            i <= names@.len(),
            out@ == chain_of(views(names@).take(i as int)),
        decreases names@.len() - i,
    {
        assert(views(names@).take(i + 1 as int).drop_last() =~= views(names@).take(i as int));
        let f = Formatter::named(names[i].as_slice());
        if f != Formatter::Ident {
            out.push(f);
        }
        i = i + 1;
    }
    assert(views(names@).take(names@.len() as int) =~= views(names@));
    out
}

fn drop_char(s: &[char], c: char) -> (r: Vec<char>)
    ensures
        r@ == without_char(s@, c),
{
    let mut out: Vec<char> = Vec::new();
    let mut i: usize = 0;
    while i < s.len()
        invariant
            i <= s@.len(),
            out@ == without_char(s@.subrange(0, i as int), c),
        decreases s@.len() - i,
    {
        assert(s@.subrange(0, i + 1 as int).drop_last() =~= s@.subrange(0, i as int));
        if s[i] != c {
            out.push(s[i]);
        }
        i = i + 1;
    }
    assert(s@.subrange(0, s@.len() as int) =~= s@);
    out
}

fn starts_at(s: &[char], i: usize, pat: &[char]) -> (r: bool)
    requires
        i <= s@.len(),
    ensures
        r == (pat@.len() <= s@.len() - i && s@.subrange(i as int, i + pat@.len()) == pat@),
{
    if pat.len() > s.len() - i {
        return false;
    }
    let mut j: usize = 0;
    let n = s.len();
    while j < pat.len()
        invariant
            n == s@.len(),
            i <= s@.len(),
            j <= pat@.len(),
            pat@.len() <= s@.len() - i,
            s@.subrange(i as int, i + j) == pat@.subrange(0, j as int),
        decreases pat@.len() - j,
    {
        if s[i + j] != pat[j] {
            assert(s@.subrange(i as int, i + pat@.len())[j as int] != pat@[j as int]);
            return false;
        }
        j = j + 1;
        assert(s@.subrange(i as int, i + j) =~= pat@.subrange(0, j as int));
    }
    assert(pat@.subrange(0, j as int) =~= pat@);
    true
}

fn drop_text(s: &[char], pat: &[char]) -> (r: Vec<char>)
    ensures
        r@ == without_text(s@, pat@),
{
    let mut out: Vec<char> = Vec::new();
    let mut i: usize = 0;
    assert(s@.subrange(0, s@.len() as int) =~= s@);
    assert(out@ + without_text(s@, pat@) =~= without_text(s@, pat@));
    while i < s.len()
        invariant
            i <= s@.len(),
            out@ + without_text(s@.subrange(i as int, s@.len() as int), pat@) == without_text(s@, pat@),
        decreases s@.len() - i,
    {
        let ghost rest = s@.subrange(i as int, s@.len() as int);
        if pat.len() > 0 && starts_at(s, i, pat) {
            assert(rest.subrange(0, pat@.len() as int) =~= s@.subrange(i as int, i + pat@.len()));
            assert(rest.subrange(pat@.len() as int, rest.len() as int) =~= s@.subrange(
                i + pat@.len(),
                s@.len() as int,
            ));
            i = i + pat.len();
        } else {
            assert(rest.drop_first() =~= s@.subrange(i + 1 as int, s@.len() as int));
            proof {
                if 0 < pat@.len() <= rest.len() {
                    assert(rest.subrange(0, pat@.len() as int) =~= s@.subrange(i as int, i + pat@.len()));
                }
            }
            let ghost o = out@;
            out.push(s[i]);
            assert(o + (seq![rest[0]] + without_text(rest.drop_first(), pat@)) =~= out@ + without_text(rest.drop_first(), pat@));
            i = i + 1;
        }
    }
    assert(out@ + seq![] =~= out@);
    out
}

fn to_vec(s: &str) -> (r: Vec<char>)
    ensures
        r@ == s@,
{
    crate::text::chars_of(s)
}

impl Placeholder {
    /// A placeholder for `key` with the transforms that `names` stand for;
    /// names that stand for no transform are left out.
    pub fn new(key: &str, names: &Vec<String>) -> (r: Placeholder)
        ensures
            r@.0 == key@,
            r@.1 == chain_of(names@.map_values(|n: String| n@)),
            r.wf(),
    {
        let mut parts: Vec<Vec<char>> = Vec::new();
        let mut i: usize = 0;
        while i < names.len()
            invariant
                i <= names@.len(),
                parts@.len() == i,
                forall|j: int| 0 <= j < i ==> #[trigger] parts@[j]@ == names@[j]@,
            decreases names@.len() - i,
        {
            parts.push(to_vec(names[i].as_str()));
            i = i + 1;
        }
        assert(views(parts@) =~= names@.map_values(|n: String| n@));
        let transforms = chain_from(&parts);
        proof {
            lemma_chain_of_no_ident(views(parts@));
        }
        let k = to_vec(key);
        Placeholder { key: string_of(k.as_slice()), transforms }
    }

    /// Parses expression `e` in grammar `style`.
    pub fn parse_chars(style: Style, e: &[char]) -> (r: Result<Placeholder, ParseError>)
        ensures
            parse_matches(r, style, e@),
    {
        if style == Style::PathSegment {
            let parts = split_pair(e);
            if parts.len() == 2 {
                let names = split_char(parts[1].as_slice(), '_');
                let transforms = chain_from(&names);
                proof {
                    lemma_chain_of_no_ident(views(names@));
                }
                assert(views(parts@)[0] == parts@[0]@);
                assert(views(parts@)[1] == parts@[1]@);
                Ok(Placeholder { key: string_of(parts[0].as_slice()), transforms })
            } else {
                Ok(Placeholder { key: string_of(e), transforms: Vec::new() })
            }
        } else if e.len() == 0 {
            Err(ParseError::EmptyPlaceholder)
        } else {
            let parts = split_char(e, ';');
            if parts.len() == 1 {
                Ok(Placeholder { key: string_of(e), transforms: Vec::new() })
            } else if parts.len() == 2 {
                assert(views(parts@)[0] == parts@[0]@);
                assert(views(parts@)[1] == parts@[1]@);
                let text = if style == Style::Legacy {
                    let unquoted = drop_char(parts[1].as_slice(), '"');
                    let marker = to_vec("format=");
                    drop_text(unquoted.as_slice(), marker.as_slice())
                } else {
                    let mut t: Vec<char> = Vec::new();
                    push_all(&mut t, parts[1].as_slice());
                    t
                };
                let names = split_char(text.as_slice(), ',');
                let transforms = chain_from(&names);
                proof {
                    lemma_chain_of_no_ident(views(names@));
                }
                Ok(Placeholder { key: string_of(parts[0].as_slice()), transforms })
            } else {
                Err(ParseError::TooManySeparators)
            }
        }
    }

    /// Renders this placeholder against `params`, with `sfx` as the suffix
    /// that `AddRandom` appends.
    pub fn resolve_with(&self, params: &Params, sfx: &[char]) -> (r: Vec<char>)
        ensures
            r@ == resolve(self@, params@, sfx@),
    {
        match params.get(self.key.as_str()) {
            None => to_vec(self.key.as_str()),
            Some(v) => {
                let mut cur = to_vec(v.as_str());
                let mut i: usize = 0;
                while i < self.transforms.len()
                    invariant
                        i <= self.transforms@.len(),
                        params@.contains_key(self.key@),
                        cur@ == fold_chain(params@[self.key@], self.transforms@.take(i as int), sfx@),
                    decreases self.transforms@.len() - i,
                {
                    assert(self.transforms@.take(i + 1 as int).drop_last() =~= self.transforms@.take(i as int));
                    cur = apply(cur.as_slice(), self.transforms[i], sfx);
                    i = i + 1;
                }
                assert(self.transforms@.take(i as int) =~= self.transforms@);
                cur
            },
        }
    }

    /// Whether the transforms include `AddRandom`.
    pub fn draws_random(&self) -> (r: bool)
        ensures
            r == self@.1.contains(Formatter::AddRandom),
    {
        let mut i: usize = 0;
        while i < self.transforms.len()
            invariant
                i <= self.transforms@.len(),
                forall|j: int| 0 <= j < i ==> self.transforms@[j] != Formatter::AddRandom,
            decreases self.transforms@.len() - i,
        {
            if self.transforms[i] == Formatter::AddRandom {
                assert(self.transforms@[i as int] == Formatter::AddRandom);
                return true;
            }
            i = i + 1;
        }
        false
    }

    /// Renders this placeholder against `params`: the value of its key run
    /// through its transforms in order, or the key itself where `params` has
    /// no such parameter. `AddRandom` draws one random suffix for the whole
    /// chain.
    pub fn format_with(&self, params: &Params) -> (r: String)
        ensures
            !self@.1.contains(Formatter::AddRandom) ==> r@ == resolve(self@, params@, seq![]),
            exists|sfx: Seq<char>| is_random_suffix(sfx) && r@ == #[trigger] resolve(self@, params@, sfx),
    {
        if self.draws_random() {
            let sfx = random_suffix();
            let r = self.resolve_with(params, sfx.as_slice());
            string_of(r.as_slice())
        } else {
            let none: Vec<char> = Vec::new();
            let r = self.resolve_with(params, none.as_slice());
            proof {
                assert(none@ =~= seq![]);
                let w = Seq::new(32, |_i: int| 'a');
                assert(is_random_suffix(w));
                lemma_resolve_without_random(self@, params@, seq![], w);
            }
            string_of(r.as_slice())
        }
    }

    /// Parses a content-style expression, `key;t1,t2`.
    pub fn parse_content(expr: &str) -> (r: Result<Placeholder, ParseError>)
        ensures
            parse_matches(r, Style::Content, expr@),
    {
        let e = to_vec(expr);
        Placeholder::parse_chars(Style::Content, e.as_slice())
    }

    /// Parses a legacy-style expression, `key;format="t1,t2"`.
    pub fn parse_legacy(expr: &str) -> (r: Result<Placeholder, ParseError>)
        ensures
            parse_matches(r, Style::Legacy, expr@),
    {
        let e = to_vec(expr);
        Placeholder::parse_chars(Style::Legacy, e.as_slice())
    }

    /// Parses a path-style expression, `key__t1_t2`; any other shape is a
    /// key without transforms.
    pub fn parse_path_segment(expr: &str) -> (r: Result<Placeholder, ParseError>)
        ensures
            parse_matches(r, Style::PathSegment, expr@),
            r is Ok,
    {
        let e = to_vec(expr);
        Placeholder::parse_chars(Style::PathSegment, e.as_slice())
    }
}

} // verus!
