//! Templates: text bodies whose `$`-delimited placeholders are replaced by
//! resolved parameter values.
use vstd::hash_map::StringHashMap;
use vstd::prelude::*;

use crate::format::{is_random_suffix, Formatter};
use crate::placeholder::{
    lemma_resolve_without_random, parse_matches, parsed, resolve, Placeholder, Style,
};
use crate::text::{chars_of, push_all, string_of};

verus! {

/// The resolved parameters of a generation run: parameter names mapped to
/// their values.
pub struct Params {
    map: StringHashMap<String>,
    names: Vec<String>,
}

impl Params {
    /// Each name is listed once, and exactly the names with a value are.
    pub closed spec fn wf(&self) -> bool {
        &&& name_views(self.names@).no_duplicates()
        &&& forall|k: Seq<char>| #[trigger] self.map@.contains_key(k) <==> name_views(self.names@).contains(k)
    }
}

/// The views of a list of names.
pub open spec fn name_views(v: Seq<String>) -> Seq<Seq<char>> {
    v.map_values(|s: String| s@)
}

impl View for Params {
    type V = Map<Seq<char>, Seq<char>>;

    closed spec fn view(&self) -> Map<Seq<char>, Seq<char>> {
        self.map@.map_values(|v: String| v@)
    }
}

/// The table that a list of entries gives when each is inserted in turn, so
/// that a later entry for a name replaces an earlier one.
pub open spec fn table_of(entries: Seq<(Seq<char>, Seq<char>)>) -> Map<Seq<char>, Seq<char>>
    decreases entries.len(),
{
    if entries.len() == 0 {
        Map::empty()
    } else {
        table_of(entries.drop_last()).insert(entries.last().0, entries.last().1)
    }
}

/// The views of a list of name and value pairs.
pub open spec fn pair_views(v: Seq<(String, String)>) -> Seq<(Seq<char>, Seq<char>)> {
    v.map_values(|p: (String, String)| (p.0@, p.1@))
}

impl Params {
    /// An empty table.
    pub fn new() -> (r: Params)
        ensures
            r@ == Map::<Seq<char>, Seq<char>>::empty(),
            r.wf(),
    {
        let names: Vec<String> = Vec::new();
        let map: StringHashMap<String> = StringHashMap::new();
        assert(name_views(names@) =~= seq![]);
        let r = Params { map, names };
        assert(r@ =~= Map::<Seq<char>, Seq<char>>::empty());
        r
    }

    /// Sets parameter `key` to `value`, replacing any earlier value.
    pub fn insert(&mut self, key: String, value: String)
        requires
            old(self).wf(),
        ensures
            final(self)@ == old(self)@.insert(key@, value@),
            final(self).wf(),
    {
        let ghost k = key@;
        let ghost v = value@;
        if !self.map.contains_key(key.as_str()) {
            let ghost before = self.names@;
            self.names.push(key.clone());
            assert(name_views(self.names@) =~= name_views(before).push(k));
            assert forall|x: Seq<char>| name_views(self.names@).contains(x) <==> name_views(before).contains(x) || x == k by {
                if name_views(self.names@).contains(x) {
                    let j = choose|j: int| 0 <= j < name_views(self.names@).len() && name_views(self.names@)[j] == x;
                    if j < before.len() {
                        assert(name_views(before)[j] == x);
                    }
                }
                if name_views(before).contains(x) {
                    let j = choose|j: int| 0 <= j < name_views(before).len() && name_views(before)[j] == x;
                    assert(name_views(self.names@)[j] == x);
                }
                if x == k {
                    assert(name_views(self.names@)[before.len() as int] == x);
                }
            }
        }
        self.map.insert(key, value);
        assert(self@ =~= old(self)@.insert(k, v));
        assert forall|x: Seq<char>| #[trigger] self.map@.contains_key(x) <==> name_views(self.names@).contains(x) by {
            if x != k && name_views(self.names@).contains(x) && !name_views(old(self).names@).contains(x) {
                assert(name_views(self.names@) =~= name_views(old(self).names@).push(k));
            }
        }
    }

    /// Builds a table from name and value pairs; a later pair for a name
    /// replaces an earlier one.
    pub fn from_map(entries: Vec<(String, String)>) -> (r: Params)
        ensures
            r@ == table_of(pair_views(entries@)),
            r.wf(),
    {
        let mut r = Params::new();
        let mut i: usize = 0;
        let ghost all = pair_views(entries@);
        let n = entries.len();
        let mut rest = entries;
        while rest.len() > 0
            invariant
                i + rest@.len() == all.len(),
                all == pair_views(entries@),
                all.len() == entries@.len(),
                all.len() == n,
                pair_views(rest@) == all.subrange(i as int, all.len() as int),
                r@ == table_of(all.take(i as int)),
                r.wf(),
            decreases rest@.len(),
        {
            let ghost before = rest@;
            let (k, v) = rest.remove(0);
            proof {
                assert(pair_views(before)[0] == (k@, v@));
                assert(all.take(i + 1 as int).drop_last() =~= all.take(i as int));
                assert(rest@ =~= before.subrange(1, before.len() as int));
                assert forall|j: int| 0 <= j < rest@.len() implies #[trigger] pair_views(rest@)[j]
                    == all[i + 1 + j] by {
                    assert(pair_views(rest@)[j] == pair_views(before)[j + 1]);
                }
                assert(pair_views(rest@) =~= all.subrange(i + 1 as int, all.len() as int));
            }
            r.insert(k, v);
            i = i + 1;
        }
        assert(all.take(i as int) =~= all);
        r
    }

    /// The names that have a value, each once.
    pub fn names(&self) -> (r: Vec<String>)
        requires
            self.wf(),
        ensures
            name_views(r@).no_duplicates(),
            forall|k: Seq<char>| #[trigger] self@.contains_key(k) <==> name_views(r@).contains(k),
    {
        let mut r: Vec<String> = Vec::new();
        let mut i: usize = 0;
        while i < self.names.len()
            invariant
                i <= self.names@.len(),
                r@.len() == i,
                forall|j: int| 0 <= j < i ==> #[trigger] r@[j]@ == self.names@[j]@,
            decreases self.names@.len() - i,
        {
            r.push(self.names[i].clone());
            i = i + 1;
        }
        assert(name_views(r@) =~= name_views(self.names@));
        r
    }

    /// The value of parameter `key`, if it has one.
    pub fn get(&self, key: &str) -> (r: Option<&String>)
        ensures
            match r {
                Some(v) => self@.contains_key(key@) && v@ == self@[key@],
                None => !self@.contains_key(key@),
            },
    {
        self.map.get(key)
    }
}

/// Index of the first `$` at or after `j` that does not follow a backslash.
pub open spec fn closing(b: Seq<char>, j: int) -> Option<int>
    decreases b.len() - j,
{
    if j < 1 || j >= b.len() {
        None
    } else if b[j] == '$' && b[j - 1] != '\\' {
        Some(j)
    } else {
        closing(b, j + 1)
    }
}

proof fn lemma_closing_bounds(b: Seq<char>, j: int)
    ensures
        closing(b, j) matches Some(x) ==> j <= x < b.len() && b[x] == '$' && b[x - 1] != '\\',
    decreases b.len() - j,
{
    if 1 <= j < b.len() && !(b[j] == '$' && b[j - 1] != '\\') {
        lemma_closing_bounds(b, j + 1);
    }
}

/// Plain text: each backslash that stands right before a `$` is dropped.
pub open spec fn unescaped(t: Seq<char>) -> Seq<char>
    decreases t.len(),
{
    if t.len() == 0 {
        t
    } else if t.len() >= 2 && t[0] == '\\' && t[1] == '$' {
        seq!['$'] + unescaped(t.subrange(2, t.len() as int))
    } else {
        seq![t[0]] + unescaped(t.drop_first())
    }
}

/// The suffix that the `k`-th placeholder of a body may draw.
pub open spec fn draw_at(draws: Seq<Seq<char>>, k: int) -> Seq<char> {
    if 0 <= k < draws.len() {
        draws[k]
    } else {
        seq![]
    }
}

/// What the text `e` between two delimiters renders to: the resolved
/// placeholder, or `e` itself where it does not parse.
pub open spec fn span_value(
    style: Style,
    e: Seq<char>,
    params: Map<Seq<char>, Seq<char>>,
    sfx: Seq<char>,
) -> Seq<char> {
    match parsed(style, e) {
        Ok(p) => resolve(p, params, sfx),
        Err(_) => e,
    }
}

/// The output for body `b` from position `i` on, outside any placeholder;
/// `k` placeholders have been closed before `i`, and the `k`-th draws
/// `draws[k]`.
pub open spec fn render_from(
    b: Seq<char>,
    i: int,
    style: Style,
    params: Map<Seq<char>, Seq<char>>,
    draws: Seq<Seq<char>>,
    k: int,
) -> Seq<char>
    decreases b.len() - i,
{
    if i < 0 || i >= b.len() {
        seq![]
    } else if b[i] == '\\' && i + 1 < b.len() && b[i + 1] == '$' {
        seq!['$'] + render_from(b, i + 2, style, params, draws, k)
    } else if b[i] == '$' {
        match closing(b, i + 1) {
            Some(j) => if i < j < b.len() {
                span_value(style, b.subrange(i + 1, j), params, draw_at(draws, k)) + render_from(
                    b,
                    j + 1,
                    style,
                    params,
                    draws,
                    k + 1,
                )
            } else {
                seq![]
            },
            None => unescaped(b.subrange(i, b.len() as int)),
        }
    } else {
        seq![b[i]] + render_from(b, i + 1, style, params, draws, k)
    }
}

/// The output for body `b`; the `k`-th placeholder draws `draws[k]`.
pub open spec fn rendered(
    style: Style,
    b: Seq<char>,
    params: Map<Seq<char>, Seq<char>>,
    draws: Seq<Seq<char>>,
) -> Seq<char> {
    render_from(b, 0, style, params, draws, 0)
}

/// Suffixes that a random source may hand out.
pub open spec fn all_random_suffixes(draws: Seq<Seq<char>>) -> bool {
    forall|k: int| 0 <= k < draws.len() ==> is_random_suffix(#[trigger] draws[k])
}

fn find_closing(b: &[char], j: usize) -> (r: Option<usize>)
    requires
        1 <= j,
    ensures
        match r {
            Some(x) => closing(b@, j as int) == Some(x as int),
            None => closing(b@, j as int) is None,
        },
{
    let mut x: usize = j;
    while x < b.len()
        invariant
            1 <= j <= x,
            closing(b@, j as int) == closing(b@, x as int),
        decreases b@.len() - x,
    {
        if b[x] == '$' && b[x - 1] != '\\' {
            return Some(x);
        }
        x = x + 1;
    }
    None
}

fn unescape_tail(b: &[char], from: usize, out: &mut Vec<char>)
    requires
        from <= b@.len(),
    ensures
        final(out)@ == old(out)@ + unescaped(b@.subrange(from as int, b@.len() as int)),
{
    let mut i: usize = from;
    let ghost whole = unescaped(b@.subrange(from as int, b@.len() as int));
    assert(old(out)@ + whole == out@ + unescaped(b@.subrange(i as int, b@.len() as int)));
    while i < b.len()
        invariant
            from <= i <= b@.len(),
            old(out)@ + whole == out@ + unescaped(b@.subrange(i as int, b@.len() as int)),
        decreases b@.len() - i,
    {
        let ghost rest = b@.subrange(i as int, b@.len() as int);
        let ghost o = out@;
        if b[i] == '\\' && i + 1 < b.len() && b[i + 1] == '$' {
            out.push('$');
            assert(rest.subrange(2, rest.len() as int) =~= b@.subrange(i + 2 as int, b@.len() as int));
            assert(o + (seq!['$'] + unescaped(rest.subrange(2, rest.len() as int))) =~= out@ + unescaped(b@.subrange(i + 2 as int, b@.len() as int)));
            i = i + 2;
        } else {
            out.push(b[i]);
            assert(rest.drop_first() =~= b@.subrange(i + 1 as int, b@.len() as int));
            assert(o + (seq![b@[i as int]] + unescaped(rest.drop_first())) =~= out@ + unescaped(b@.subrange(i + 1 as int, b@.len() as int)));
            i = i + 1;
        }
    }
    assert(unescaped(b@.subrange(i as int, b@.len() as int)) =~= seq![]);
    assert(out@ + seq![] =~= out@);
}

/// Renders the text `e` found between two delimiters: the resolved
/// placeholder, or `e` itself where it does not parse. Returns the suffix it
/// stands for among the draws.
fn render_span(style: Style, e: &[char], params: &Params, out: &mut Vec<char>) -> (sfx: Ghost<
    Seq<char>,
>)
    ensures
        is_random_suffix(sfx@),
        forall|s: Seq<char>|
            (s == sfx@ || match parsed(style, e@) {
                Ok(p) => !p.1.contains(Formatter::AddRandom),
                Err(_) => true,
            }) ==> final(out)@ == old(out)@ + #[trigger] span_value(style, e@, params@, s),
{
    let w = Ghost(Seq::new(32, |_i: int| 'a'));
    assert(is_random_suffix(w@));
    match Placeholder::parse_chars(style, e) {
        Ok(p) => {
            assert(parse_matches(Ok(p), style, e@));
            if p.draws_random() {
                let sfx = crate::format::random_suffix();
                let v = p.resolve_with(params, sfx.as_slice());
                push_all(out, v.as_slice());
                Ghost(sfx@)
            } else {
                let none: Vec<char> = Vec::new();
                let v = p.resolve_with(params, none.as_slice());
                push_all(out, v.as_slice());
                proof {
                    assert forall|s: Seq<char>| true implies resolve(p@, params@, s) == v@ by {
                        lemma_resolve_without_random(p@, params@, s, none@);
                    }
                }
                w
            }
        },
        Err(_) => {
            push_all(out, e);
            w
        },
    }
}

/// Renders body `b` onto `out`, one pass from left to right; returns the
/// suffixes that its placeholders drew, in order.
pub(crate) fn render_body(style: Style, b: &[char], params: &Params, out: &mut Vec<char>) -> (draws: Ghost<
    Seq<Seq<char>>,
>)
    ensures
        all_random_suffixes(draws@),
        final(out)@ == old(out)@ + rendered(style, b@, params@, draws@),
{
    let mut i: usize = 0;
    let ghost mut k: int = 0;
    let ghost mut ds: Seq<Seq<char>> = seq![];
    while i < b.len()
        invariant
            i <= b@.len(),
            ds.len() == k,
            all_random_suffixes(ds),
            forall|d: Seq<Seq<char>>|
                d.len() >= k && d.subrange(0, k) == ds ==> old(out)@ + #[trigger] render_from(
                    b@,
                    0,
                    style,
                    params@,
                    d,
                    0,
                ) == out@ + render_from(b@, i as int, style, params@, d, k),
        decreases b@.len() - i,
    {
        let ghost o = out@;
        if b[i] == '\\' && i + 1 < b.len() && b[i + 1] == '$' {
            out.push('$');
            proof {
                assert forall|d: Seq<Seq<char>>|
                    d.len() >= k && d.subrange(0, k) == ds implies old(out)@ + #[trigger] render_from(
                    b@,
                    0,
                    style,
                    params@,
                    d,
                    0,
                ) == out@ + render_from(b@, i + 2, style, params@, d, k) by {
                    assert(render_from(b@, i as int, style, params@, d, k) == seq!['$'] + render_from(b@, i + 2, style, params@, d, k));
                    assert(o + (seq!['$'] + render_from(b@, i + 2, style, params@, d, k)) =~= out@ + render_from(b@, i + 2, style, params@, d, k));
                }
            }
            i = i + 2;
        } else if b[i] == '$' {
            match find_closing(b, i + 1) {
                Some(j) => {
                    proof {
                        lemma_closing_bounds(b@, i + 1);
                    }
                    let e = &b[i + 1..j];
                    assert(e@ == b@.subrange(i + 1, j as int));
                    let sfx = render_span(style, e, params, out);
                    let ghost ds2 = ds.push(sfx@);
                    proof {
                        assert forall|d: Seq<Seq<char>>|
                            d.len() >= k + 1 && d.subrange(0, k + 1) == ds2 implies old(out)@
                            + #[trigger] render_from(b@, 0, style, params@, d, 0) == out@ + render_from(
                            b@,
                            j + 1,
                            style,
                            params@,
                            d,
                            k + 1,
                        ) by {
                            assert(d.subrange(0, k) =~= ds2.subrange(0, k));
                            assert(ds2.subrange(0, k) =~= ds);
                            assert(d[k] == d.subrange(0, k + 1)[k]);
                            assert(draw_at(d, k) == sfx@);
                            let v = span_value(style, e@, params@, sfx@);
                            assert(out@ == o + v);
                            assert(render_from(b@, i as int, style, params@, d, k) == v + render_from(b@, j + 1, style, params@, d, k + 1));
                            assert(o + (v + render_from(b@, j + 1, style, params@, d, k + 1)) =~= out@ + render_from(b@, j + 1, style, params@, d, k + 1));
                        }
                        assert forall|x: int| 0 <= x < ds2.len() implies is_random_suffix(#[trigger] ds2[x]) by {
                            if x < k {
                                assert(ds2[x] == ds[x]);
                            }
                        }
                        k = k + 1;
                        ds = ds2;
                    }
                    i = j + 1;
                },
                None => {
                    unescape_tail(b, i, out);
                    proof {
                        assert forall|d: Seq<Seq<char>>|
                            d.len() >= k && d.subrange(0, k) == ds implies old(out)@ + #[trigger] render_from(
                            b@,
                            0,
                            style,
                            params@,
                            d,
                            0,
                        ) == out@ + render_from(b@, b@.len() as int, style, params@, d, k) by {
                            assert(render_from(b@, i as int, style, params@, d, k) == unescaped(b@.subrange(i as int, b@.len() as int)));
                            assert(out@ + render_from(b@, b@.len() as int, style, params@, d, k) =~= out@);
                        }
                    }
                    i = b.len();
                },
            }
        } else {
            out.push(b[i]);
            proof {
                assert forall|d: Seq<Seq<char>>|
                    d.len() >= k && d.subrange(0, k) == ds implies old(out)@ + #[trigger] render_from(
                    b@,
                    0,
                    style,
                    params@,
                    d,
                    0,
                ) == out@ + render_from(b@, i + 1, style, params@, d, k) by {
                    assert(render_from(b@, i as int, style, params@, d, k) == seq![b@[i as int]] + render_from(b@, i + 1, style, params@, d, k));
                    assert(o + (seq![b@[i as int]] + render_from(b@, i + 1, style, params@, d, k)) =~= out@ + render_from(b@, i + 1, style, params@, d, k));
                }
            }
            i = i + 1;
        }
    }
    proof {
        assert(ds.subrange(0, k) =~= ds);
        assert(old(out)@ + render_from(b@, 0, style, params@, ds, 0) == out@ + render_from(b@, i as int, style, params@, ds, k));
        assert(out@ + render_from(b@, i as int, style, params@, ds, k) =~= out@);
    }
    Ghost(ds)
}

/// Whether the text `e` between two delimiters draws nothing random.
pub open spec fn span_draw_free(style: Style, e: Seq<char>) -> bool {
    match parsed(style, e) {
        Ok(p) => !p.1.contains(Formatter::AddRandom),
        Err(_) => true,
    }
}

/// Whether no placeholder of body `b`, from position `i` on, uses `AddRandom`.
pub open spec fn draw_free_from(style: Style, b: Seq<char>, i: int) -> bool
    decreases b.len() - i,
{
    if i < 0 || i >= b.len() {
        true
    } else if b[i] == '\\' && i + 1 < b.len() && b[i + 1] == '$' {
        draw_free_from(style, b, i + 2)
    } else if b[i] == '$' {
        match closing(b, i + 1) {
            Some(j) => if i < j < b.len() {
                span_draw_free(style, b.subrange(i + 1, j)) && draw_free_from(style, b, j + 1)
            } else {
                true
            },
            None => true,
        }
    } else {
        draw_free_from(style, b, i + 1)
    }
}

/// Whether no placeholder of body `b` uses `AddRandom`.
pub open spec fn draw_free(style: Style, b: Seq<char>) -> bool {
    draw_free_from(style, b, 0)
}

proof fn lemma_render_from_draw_free(
    style: Style,
    b: Seq<char>,
    i: int,
    params: Map<Seq<char>, Seq<char>>,
    d1: Seq<Seq<char>>,
    k1: int,
    d2: Seq<Seq<char>>,
    k2: int,
)
    requires
        draw_free_from(style, b, i),
    ensures
        render_from(b, i, style, params, d1, k1) == render_from(b, i, style, params, d2, k2),
    decreases b.len() - i,
{
    if i < 0 || i >= b.len() {
    } else if b[i] == '\\' && i + 1 < b.len() && b[i + 1] == '$' {
        lemma_render_from_draw_free(style, b, i + 2, params, d1, k1, d2, k2);
    } else if b[i] == '$' {
        match closing(b, i + 1) {
            Some(j) => if i < j < b.len() {
                let e = b.subrange(i + 1, j);
                match parsed(style, e) {
                    Ok(p) => lemma_resolve_without_random(p, params, draw_at(d1, k1), draw_at(d2, k2)),
                    Err(_) => {},
                }
                lemma_render_from_draw_free(style, b, j + 1, params, d1, k1 + 1, d2, k2 + 1);
            },
            None => {},
        }
    } else {
        lemma_render_from_draw_free(style, b, i + 1, params, d1, k1, d2, k2);
    }
}

/// Rendering is a function of the body and the parameters alone when no
/// placeholder draws a random suffix: two writes of such a template give the
/// same text.
pub proof fn lemma_write_deterministic(
    style: Style,
    b: Seq<char>,
    params: Map<Seq<char>, Seq<char>>,
    d1: Seq<Seq<char>>,
    d2: Seq<Seq<char>>,
)
    requires
        draw_free(style, b),
    ensures
        rendered(style, b, params, d1) == rendered(style, b, params, d2),
{
    lemma_render_from_draw_free(style, b, 0, params, d1, 0, d2, 0);
}

/// Whether every `$` of `b` follows a backslash.
pub open spec fn all_escaped(b: Seq<char>) -> bool {
    forall|x: int| 0 <= x < b.len() && #[trigger] b[x] == '$' ==> x > 0 && b[x - 1] == '\\'
}

proof fn lemma_render_escaped_from(
    style: Style,
    b: Seq<char>,
    i: int,
    params: Map<Seq<char>, Seq<char>>,
    d: Seq<Seq<char>>,
    k: int,
)
    requires
        all_escaped(b),
        0 <= i <= b.len(),
        i < b.len() ==> b[i] != '$',
    ensures
        render_from(b, i, style, params, d, k) == unescaped(b.subrange(i, b.len() as int)),
    decreases b.len() - i,
{
    let t = b.subrange(i, b.len() as int);
    if i == b.len() {
        assert(t =~= seq![]);
    } else if b[i] == '\\' && i + 1 < b.len() && b[i + 1] == '$' {
        if i + 2 < b.len() && b[i + 2] == '$' {
            assert(b[i + 1] == '\\');
        }
        lemma_render_escaped_from(style, b, i + 2, params, d, k);
        assert(t.subrange(2, t.len() as int) =~= b.subrange(i + 2, b.len() as int));
    } else {
        if i + 1 < b.len() && b[i + 1] == '$' {
            assert(b[i] == '\\');
        }
        lemma_render_escaped_from(style, b, i + 1, params, d, k);
        assert(t.drop_first() =~= b.subrange(i + 1, b.len() as int));
    }
}

/// A body whose every `$` is escaped opens no placeholder: it renders to
/// itself with the escaping backslashes dropped, whatever the parameters.
pub proof fn lemma_escaped_body_is_plain(
    style: Style,
    b: Seq<char>,
    params: Map<Seq<char>, Seq<char>>,
    d: Seq<Seq<char>>,
)
    requires
        all_escaped(b),
    ensures
        rendered(style, b, params, d) == unescaped(b),
{
    if b.len() > 0 && b[0] == '$' {
        assert(0 > 0);
    }
    lemma_render_escaped_from(style, b, 0, params, d, 0);
    assert(b.subrange(0, b.len() as int) =~= b);
}

proof fn lemma_plain_run(
    style: Style,
    b: Seq<char>,
    i: int,
    j: int,
    params: Map<Seq<char>, Seq<char>>,
    d: Seq<Seq<char>>,
    k: int,
)
    requires
        0 <= i <= j <= b.len(),
        forall|x: int| i <= x < j ==> #[trigger] b[x] != '$' && b[x] != '\\',
    ensures
        render_from(b, i, style, params, d, k) == b.subrange(i, j) + render_from(b, j, style, params, d, k),
    decreases j - i,
{
    if i < j {
        lemma_plain_run(style, b, i + 1, j, params, d, k);
        assert(b.subrange(i, j) =~= seq![b[i]] + b.subrange(i + 1, j));
    } else {
        assert(b.subrange(i, j) =~= Seq::<char>::empty());
    }
}

/// A placeholder that does not parse renders to the text between its
/// delimiters, unchanged, and the plain text around it is copied: the write
/// goes on past it.
pub proof fn lemma_malformed_placeholder_verbatim(
    style: Style,
    a: Seq<char>,
    e: Seq<char>,
    z: Seq<char>,
    params: Map<Seq<char>, Seq<char>>,
    d: Seq<Seq<char>>,
)
    requires
        parsed(style, e) is Err,
        !e.contains('$'),
        e.len() > 0 ==> e.last() != '\\',
        !a.contains('$'),
        !a.contains('\\'),
        !z.contains('$'),
        !z.contains('\\'),
    ensures
        rendered(style, a + seq!['$'] + e + seq!['$'] + z, params, d) == a + e + z,
{
    let b = a + seq!['$'] + e + seq!['$'] + z;
    let o = a.len() as int;
    let n = o + e.len() + 1;
    assert forall|x: int| 0 <= x < o implies #[trigger] b[x] != '$' && b[x] != '\\' by {
        assert(b[x] == a[x]);
        assert(a.contains(a[x]));
    }
    lemma_plain_run(style, b, 0, o, params, d, 0);
    assert(b[o] == '$');
    assert forall|y: int| o + 1 <= y < n implies #[trigger] b[y] != '$' by {
        assert(b[y] == e[y - o - 1]);
        assert(e.contains(e[y - o - 1]));
    }
    assert(b[n] == '$');
    if e.len() > 0 {
        assert(b[n - 1] == e.last());
    }
    lemma_closing_chain(b, o + 1, n);
    assert(!(b[o] == '\\'));
    assert(b.subrange(o + 1, n) =~= e);
    assert forall|x: int| n + 1 <= x < b.len() implies #[trigger] b[x] != '$' && b[x] != '\\' by {
        assert(b[x] == z[x - n - 1]);
        assert(z.contains(z[x - n - 1]));
    }
    lemma_plain_run(style, b, n + 1, b.len() as int, params, d, 1);
    assert(b.subrange(0, o) =~= a);
    assert(b.subrange(n + 1, b.len() as int) =~= z);
    assert(render_from(b, b.len() as int, style, params, d, 1) == Seq::<char>::empty());
    assert(render_from(b, o, style, params, d, 0) == e + render_from(b, n + 1, style, params, d, 1));
    assert(a + (e + (z + Seq::<char>::empty())) =~= a + e + z);
}

proof fn lemma_closing_chain(b: Seq<char>, x: int, n: int)
    requires
        1 <= x <= n < b.len(),
        b[n] == '$',
        b[n - 1] != '\\',
        forall|y: int| x <= y < n ==> #[trigger] b[y] != '$',
    ensures
        closing(b, x) == Some(n),
    decreases n - x,
{
    if x < n {
        lemma_closing_chain(b, x + 1, n);
    }
}

/// A text body together with the placeholder grammar it is written in.
pub struct Template {
    pub style: Style,
    pub body: String,
}

impl Template {
    /// A template of the given style over `template`.
    pub fn read_str(style: Style, template: &str) -> (r: Template)
        ensures
            r.style == style,
            r.body@ == template@,
    {
        let cs = chars_of(template);
        Template { style, body: string_of(cs.as_slice()) }
    }

    /// A template over the contents that reading a file gave, or the reading
    /// error unchanged.
    pub fn read_file<E>(style: Style, contents: Result<String, E>) -> (r: Result<Template, E>)
        ensures
            match contents {
                Ok(s) => r is Ok && r->Ok_0.style == style && r->Ok_0.body@ == s@,
                Err(e) => r == Err::<Template, E>(e),
            },
    {
        match contents {
            Ok(s) => Ok(Template::read_str(style, s.as_str())),
            Err(e) => Err(e),
        }
    }

    /// A legacy-style template over `template`.
    pub fn new_g8(template: &str) -> (r: Template)
        ensures
            r.style == Style::Legacy,
            r.body@ == template@,
    {
        Template::read_str(Style::Legacy, template)
    }

    /// Renders the body against `params` and appends the result to `out`.
    /// Each placeholder renders to its resolved value, or to the text between
    /// its delimiters where it does not parse; a backslash before a `$` makes
    /// that `$` plain text. Each placeholder that uses `AddRandom` draws its
    /// own random suffix.
    pub fn write(&self, out: &mut String, params: &Params)
        ensures
            draw_free(self.style, self.body@) ==> final(out)@ == old(out)@ + rendered(
                self.style,
                self.body@,
                params@,
                seq![],
            ),
            exists|d: Seq<Seq<char>>|
                all_random_suffixes(d) && final(out)@ == old(out)@ + #[trigger] rendered(
                    self.style,
                    self.body@,
                    params@,
                    d,
                ),
    {
        let b = chars_of(self.body.as_str());
        let mut acc: Vec<char> = Vec::new();
        let d = render_body(self.style, b.as_slice(), params, &mut acc);
        let text = string_of(acc.as_slice());
        out.append(text.as_str());
        assert(acc@ =~= seq![] + rendered(self.style, self.body@, params@, d@));
        proof {
            if draw_free(self.style, self.body@) {
                lemma_write_deterministic(self.style, self.body@, params@, d@, seq![]);
            }
        }
    }

    /// Renders `template`, read in grammar `style`, against `params` and
    /// appends the result to `out`.
    pub fn compile_inline(out: &mut String, style: Style, template: &str, params: &Params)
        ensures
            draw_free(style, template@) ==> final(out)@ == old(out)@ + rendered(
                style,
                template@,
                params@,
                seq![],
            ),
            exists|d: Seq<Seq<char>>|
                all_random_suffixes(d) && final(out)@ == old(out)@ + #[trigger] rendered(
                    style,
                    template@,
                    params@,
                    d,
                ),
    {
        let t = Template::read_str(style, template);
        t.write(out, params);
    }
}

} // verus!
