//! The transform library: named string-to-string functions applied to
//! substituted values.
use rand::Rng;
use vstd::prelude::*;

use crate::text::{
    chars_of, join, join_words, word_chars_only, push_all, replace_char, same_text, split_words,
    squeeze, squeeze_runs, string_of, swap_char, views, word_chars, words,
};

verus! {

/// A named text transform.
#[derive(Copy, Clone, Debug, PartialEq, Eq, Structural)]
pub enum Formatter {
    Ident,
    UpperCase,
    LowerCase,
    Capitalize,
    Decapitalize,
    StartCase,
    Hyphenate,
    WordChar,
    UpperCamel,
    LowerCamel,
    Normalize,
    SnakeCase,
    DirectoryPath,
    AddRandom,
}

/// The transform that a name stands for; an unknown name stands for `Ident`.
pub open spec fn formatter_named(n: Seq<char>) -> Formatter {
    if n == "lower"@ || n == "lowercase"@ {
        Formatter::LowerCase
    } else if n == "upper"@ || n == "uppercase"@ {
        Formatter::UpperCase
    } else if n == "cap"@ || n == "capitalize"@ {
        Formatter::Capitalize
    } else if n == "decap"@ || n == "decapitalize"@ {
        Formatter::Decapitalize
    } else if n == "word"@ || n == "word-only"@ {
        Formatter::WordChar
    } else if n == "hyphen"@ || n == "hyphnate"@ {
        Formatter::Hyphenate
    } else if n == "start"@ || n == "start-case"@ {
        Formatter::StartCase
    } else if n == "Camel"@ || n == "upper-camel"@ {
        Formatter::UpperCamel
    } else if n == "camel"@ || n == "lower-camel"@ {
        Formatter::LowerCamel
    } else if n == "norm"@ || n == "normalize"@ {
        Formatter::Normalize
    } else if n == "snake"@ || n == "snake-case"@ {
        Formatter::SnakeCase
    } else if n == "packaged"@ || n == "package-dir"@ {
        Formatter::DirectoryPath
    } else if n == "random"@ || n == "generate-random"@ {
        Formatter::AddRandom
    } else {
        Formatter::Ident
    }
}

impl Formatter {
    /// Looks a transform up by one of its names.
    pub fn named(n: &[char]) -> (r: Formatter)
        ensures
            r == formatter_named(n@),
    {
        if same_text(n, "lower") || same_text(n, "lowercase") {
            Formatter::LowerCase
        } else if same_text(n, "upper") || same_text(n, "uppercase") {
            Formatter::UpperCase
        } else if same_text(n, "cap") || same_text(n, "capitalize") {
            Formatter::Capitalize
        } else if same_text(n, "decap") || same_text(n, "decapitalize") {
            Formatter::Decapitalize
        } else if same_text(n, "word") || same_text(n, "word-only") {
            Formatter::WordChar
        } else if same_text(n, "hyphen") || same_text(n, "hyphnate") {
            Formatter::Hyphenate
        } else if same_text(n, "start") || same_text(n, "start-case") {
            Formatter::StartCase
        } else if same_text(n, "Camel") || same_text(n, "upper-camel") {
            Formatter::UpperCamel
        } else if same_text(n, "camel") || same_text(n, "lower-camel") {
            Formatter::LowerCamel
        } else if same_text(n, "norm") || same_text(n, "normalize") {
            Formatter::Normalize
        } else if same_text(n, "snake") || same_text(n, "snake-case") {
            Formatter::SnakeCase
        } else if same_text(n, "packaged") || same_text(n, "package-dir") {
            Formatter::DirectoryPath
        } else if same_text(n, "random") || same_text(n, "generate-random") {
            Formatter::AddRandom
        } else {
            Formatter::Ident
        }
    }
}

impl<'a> From<&'a str> for Formatter {
    fn from(s: &'a str) -> Formatter {
        let n = chars_of(s);
        Formatter::named(n.as_slice())
    }
}

impl<'a> vstd::std_specs::convert::FromSpecImpl<&'a str> for Formatter {
    open spec fn obeys_from_spec() -> bool {
        true
    }

    open spec fn from_spec(v: &'a str) -> Formatter {
        formatter_named(v@)
    }
}

/// What `str::to_lowercase` makes of a string.
pub uninterp spec fn lower_of(s: Seq<char>) -> Seq<char>;

/// What `str::to_uppercase` makes of a string.
pub uninterp spec fn upper_of(s: Seq<char>) -> Seq<char>;

/// Relies on `str::to_lowercase`: Unicode lowercase mapping of the whole
/// string, a function of its characters alone.
#[verifier::external_body]
fn lowercase(s: &[char]) -> (r: Vec<char>)
    ensures
        r@ == lower_of(s@),
{
    s.iter().collect::<String>().to_lowercase().chars().collect()
}

/// Relies on `str::to_uppercase`: Unicode uppercase mapping of the whole
/// string, a function of its characters alone.
#[verifier::external_body]
fn uppercase(s: &[char]) -> (r: Vec<char>)
    ensures
        r@ == upper_of(s@),
{
    s.iter().collect::<String>().to_uppercase().chars().collect()
}

/// ASCII letters and digits.
pub open spec fn is_alnum(c: char) -> bool {
    ('a' <= c && c <= 'z') || ('A' <= c && c <= 'Z') || ('0' <= c && c <= '9')
}

/// What a random suffix may be: 32 ASCII letters and digits.
pub open spec fn is_random_suffix(r: Seq<char>) -> bool {
    r.len() == 32 && forall|i: int| 0 <= i < r.len() ==> is_alnum(#[trigger] r[i])
}

/// Relies on rand's thread-local generator sampled through `Alphanumeric`,
/// which yields ASCII letters and digits only; 32 of them are taken.
#[verifier::external_body]
pub(crate) fn random_suffix() -> (r: Vec<char>)
    ensures
        is_random_suffix(r@),
{
    rand::thread_rng().sample_iter(&rand::distributions::Alphanumeric).take(32).map(char::from).collect()
}

/// Upper case first character, lower case remainder.
pub open spec fn capitalized(s: Seq<char>) -> Seq<char> {
    if s.len() == 0 {
        seq![]
    } else {
        upper_of(seq![s[0]]) + lower_of(s.drop_first())
    }
}

/// Lower case first character, remainder unchanged.
pub open spec fn decapitalized(s: Seq<char>) -> Seq<char> {
    if s.len() == 0 {
        seq![]
    } else {
        lower_of(seq![s[0]]) + s.drop_first()
    }
}

/// Each word capitalized.
pub open spec fn capitalized_all(ws: Seq<Seq<char>>) -> Seq<Seq<char>> {
    ws.map_values(|w| capitalized(w))
}

/// Camel case: words glued together, each after the first capitalized; the
/// first capitalized (`upper`) or lower cased; then only word characters kept.
/// Text without a space is only stripped to its word characters.
pub open spec fn camel(s: Seq<char>, upper: bool) -> Seq<char> {
    if s.contains(' ') {
        let ws = words(s);
        if ws.len() == 0 {
            seq![]
        } else {
            let head = if upper {
                capitalized(ws[0])
            } else {
                lower_of(ws[0])
            };
            word_chars(head + join(capitalized_all(ws.drop_first()), seq![]))
        }
    } else {
        word_chars(s)
    }
}

/// What transform `f` makes of `s`; `sfx` is the random suffix that
/// `AddRandom` appends.
pub open spec fn transformed(s: Seq<char>, f: Formatter, sfx: Seq<char>) -> Seq<char> {
    match f {
        Formatter::LowerCase => lower_of(s),
        Formatter::UpperCase => upper_of(s),
        Formatter::Capitalize => capitalized(s),
        Formatter::Decapitalize => decapitalized(s),
        Formatter::StartCase => join(capitalized_all(words(s)), seq![' ']),
        Formatter::WordChar => word_chars(s),
        Formatter::Hyphenate => join(words(s), seq!['-']),
        Formatter::UpperCamel => camel(s, true),
        Formatter::LowerCamel => camel(s, false),
        Formatter::Normalize => join(words(lower_of(s)), seq!['-']),
        Formatter::SnakeCase => join(words(swap_char(swap_char(s, '.', ' '), '-', ' ')), seq!['_']),
        Formatter::DirectoryPath => swap_char(squeeze(s, '.'), '.', '/'),
        Formatter::AddRandom => s + seq!['-'] + sfx,
        Formatter::Ident => s,
    }
}

fn capitalize(s: &[char]) -> (r: Vec<char>)
    ensures
        r@ == capitalized(s@),
{
    if s.len() == 0 {
        return Vec::new();
    }
    let mut r = uppercase(&s[0..1]);
    let rest = lowercase(&s[1..s.len()]);
    push_all(&mut r, rest.as_slice());
    assert(s@.subrange(0, 1) =~= seq![s@[0]]);
    assert(s@.subrange(1, s@.len() as int) =~= s@.drop_first());
    r
}

fn decapitalize(s: &[char]) -> (r: Vec<char>)
    ensures
        r@ == decapitalized(s@),
{
    if s.len() == 0 {
        return Vec::new();
    }
    let mut r = lowercase(&s[0..1]);
    push_all(&mut r, &s[1..s.len()]);
    assert(s@.subrange(0, 1) =~= seq![s@[0]]);
    assert(s@.subrange(1, s@.len() as int) =~= s@.drop_first());
    r
}

fn capitalize_from(ws: &Vec<Vec<char>>, start: usize) -> (r: Vec<Vec<char>>)
    requires
        start <= ws@.len(),
    ensures
        views(r@) == capitalized_all(views(ws@).subrange(start as int, ws@.len() as int)),
{
    let mut out: Vec<Vec<char>> = Vec::new();
    let mut i: usize = start;
    while i < ws.len()
        invariant
            start <= i <= ws@.len(),
            out@.len() == i - start,
            forall|j: int| 0 <= j < out@.len() ==> #[trigger] out@[j]@ == capitalized(ws@[start + j]@),
        decreases ws@.len() - i,
    {
        out.push(capitalize(ws[i].as_slice()));
        i = i + 1;
    }
    assert(views(out@) =~= capitalized_all(views(ws@).subrange(start as int, ws@.len() as int)));
    out
}

fn has_space_char(s: &[char]) -> (r: bool)
    ensures
        r == s@.contains(' '),
{
    let mut i: usize = 0;
    while i < s.len()
        invariant
            i <= s@.len(),
            forall|j: int| 0 <= j < i ==> s@[j] != ' ',
        decreases s@.len() - i,
    {
        if s[i] == ' ' {
            assert(s@[i as int] == ' ');
            return true;
        }
        i = i + 1;
    }
    false
}

fn join_camel_case(s: &[char], upper: bool) -> (r: Vec<char>)
    ensures
        r@ == camel(s@, upper),
{
    if has_space_char(s) {
        let ws = split_words(s);
        if ws.len() == 0 {
            return Vec::new();
        }
        let mut head = if upper {
            capitalize(ws[0].as_slice())
        } else {
            lowercase(ws[0].as_slice())
        };
        let tail_words = capitalize_from(&ws, 1);
        assert(views(ws@).subrange(1, ws@.len() as int) =~= views(ws@).drop_first());
        let none: Vec<char> = Vec::new();
        let tail = join_words(&tail_words, none.as_slice());
        assert(none@ =~= seq![]);
        assert(views(ws@)[0] == ws@[0]@);
        push_all(&mut head, tail.as_slice());
        word_chars_only(head.as_slice())
    } else {
        word_chars_only(s)
    }
}

fn single(c: char) -> (r: Vec<char>)
    ensures
        r@ == seq![c],
{
    let mut r: Vec<char> = Vec::new();
    r.push(c);
    assert(r@ =~= seq![c]);
    r
}

fn normalize(s: &[char]) -> (r: Vec<char>)
    ensures
        r@ == join(words(lower_of(s@)), seq!['-']),
{
    let low = lowercase(s);
    let ws = split_words(low.as_slice());
    join_words(&ws, single('-').as_slice())
}

fn snake_case(s: &[char]) -> (r: Vec<char>)
    ensures
        r@ == join(words(swap_char(swap_char(s@, '.', ' '), '-', ' ')), seq!['_']),
{
    let a = replace_char(s, '.', ' ');
    let b = replace_char(a.as_slice(), '-', ' ');
    let ws = split_words(b.as_slice());
    join_words(&ws, single('_').as_slice())
}

fn directory_path(s: &[char]) -> (r: Vec<char>)
    ensures
        r@ == swap_char(squeeze(s@, '.'), '.', '/'),
{
    let a = squeeze_runs(s, '.');
    replace_char(a.as_slice(), '.', '/')
}

/// Applies transform `f` to `s`, with `sfx` as the suffix that `AddRandom`
/// appends.
pub fn apply(s: &[char], f: Formatter, sfx: &[char]) -> (r: Vec<char>)
    ensures
        r@ == transformed(s@, f, sfx@),
{
    match f {
        Formatter::LowerCase => lowercase(s),
        Formatter::UpperCase => uppercase(s),
        Formatter::Capitalize => capitalize(s),
        Formatter::Decapitalize => decapitalize(s),
        Formatter::StartCase => {
            let ws = split_words(s);
            let caps = capitalize_from(&ws, 0);
            assert(views(ws@).subrange(0, ws@.len() as int) =~= views(ws@));
            join_words(&caps, single(' ').as_slice())
        },
        Formatter::WordChar => word_chars_only(s),
        Formatter::Hyphenate => {
            let ws = split_words(s);
            join_words(&ws, single('-').as_slice())
        },
        Formatter::UpperCamel => join_camel_case(s, true),
        Formatter::LowerCamel => join_camel_case(s, false),
        Formatter::Normalize => normalize(s),
        Formatter::SnakeCase => snake_case(s),
        Formatter::DirectoryPath => directory_path(s),
        Formatter::AddRandom => {
            let mut r: Vec<char> = Vec::new();
            push_all(&mut r, s);
            r.push('-');
            push_all(&mut r, sfx);
            r
        },
        Formatter::Ident => {
            let mut r: Vec<char> = Vec::new();
            push_all(&mut r, s);
            r
        },
    }
}

/// Formats the sentence `s` with transform `f`. `AddRandom` draws a fresh
/// random suffix; every other transform is a function of `s` alone.
pub fn format(s: &str, f: Formatter) -> (r: String)
    ensures
        f != Formatter::AddRandom ==> r@ == transformed(s@, f, seq![]),
        exists|sfx: Seq<char>| is_random_suffix(sfx) && r@ == #[trigger] transformed(s@, f, sfx),
{
    let cs = chars_of(s);
    if f == Formatter::AddRandom {
        let sfx = random_suffix();
        let r = apply(cs.as_slice(), f, sfx.as_slice());
        string_of(r.as_slice())
    } else {
        let none: Vec<char> = Vec::new();
        let r = apply(cs.as_slice(), f, none.as_slice());
        assert(none@ =~= seq![]);
        proof {
            let w = Seq::new(32, |_i: int| 'a');
            assert(is_random_suffix(w));
            assert(transformed(s@, f, w) == transformed(s@, f, seq![]));
        }
        string_of(r.as_slice())
    }
}

} // verus!
