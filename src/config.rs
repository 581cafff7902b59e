//! Default parameters: decoding a template's properties or TOML file into a
//! parameter table.
use toml::Value;
use vstd::prelude::*;

use crate::project::Configuration;
use crate::template::{pair_views, table_of, Params};
use crate::text::string_of;

verus! {

#[verifier::external_type_specification]
#[verifier::external_body]
pub struct ExTomlValue(toml::Value);

#[verifier::external_type_specification]
#[verifier::external_body]
pub struct ExTomlError(toml::de::Error);

#[verifier::external_type_specification]
#[verifier::external_body]
pub struct ExPropertiesError(java_properties::PropertiesError);

/// Why default parameters could not be had.
#[derive(Copy, Clone, Debug, PartialEq, Eq, Structural)]
pub enum ConfigError {
    /// The file could not be read.
    IoFailure,
    /// The file is not in the configured format.
    ConfigDecodeFailure,
}

/// A value of a structured configuration file, as far as parameters care.
pub enum ConfigValue {
    Text(String),
    Integer(i64),
    /// A float, as the text of its decimal form.
    Float(String),
    Boolean(bool),
    /// A date or time, as its text.
    Datetime(String),
    /// An array or a table.
    Nested,
}

/// What a configuration value holds, as plain values.
pub enum ConfigValueView {
    Text(Seq<char>),
    Integer(i64),
    Float(Seq<char>),
    Boolean(bool),
    Datetime(Seq<char>),
    Nested,
}

impl View for ConfigValue {
    type V = ConfigValueView;

    open spec fn view(&self) -> ConfigValueView {
        match self {
            ConfigValue::Text(s) => ConfigValueView::Text(s@),
            ConfigValue::Integer(i) => ConfigValueView::Integer(*i),
            ConfigValue::Float(s) => ConfigValueView::Float(s@),
            ConfigValue::Boolean(b) => ConfigValueView::Boolean(*b),
            ConfigValue::Datetime(s) => ConfigValueView::Datetime(s@),
            ConfigValue::Nested => ConfigValueView::Nested,
        }
    }
}

/// The views of configuration entries.
pub open spec fn config_views(v: Seq<(String, ConfigValue)>) -> Seq<(Seq<char>, ConfigValueView)> {
    v.map_values(|e: (String, ConfigValue)| (e.0@, e.1@))
}

/// The decimal digits of `n`.
pub open spec fn digits(n: nat) -> Seq<char>
    decreases n,
{
    if n < 10 {
        seq![digit(n)]
    } else {
        digits(n / 10).push(digit(n % 10))
    }
}

pub open spec fn digit(n: nat) -> char {
    if n == 0 { '0' } else if n == 1 { '1' } else if n == 2 { '2' } else if n == 3 { '3' }
    else if n == 4 { '4' } else if n == 5 { '5' } else if n == 6 { '6' } else if n == 7 { '7' }
    else if n == 8 { '8' } else { '9' }
}

/// The decimal form of `i`, with a leading `-` when negative.
pub open spec fn decimal(i: int) -> Seq<char> {
    if i < 0 {
        seq!['-'] + digits((-i) as nat)
    } else {
        digits(i as nat)
    }
}

fn digit_char(n: u64) -> (r: char)
    requires
        n < 10,
    ensures
        r == digit(n as nat),
{
    if n == 0 { '0' } else if n == 1 { '1' } else if n == 2 { '2' } else if n == 3 { '3' }
    else if n == 4 { '4' } else if n == 5 { '5' } else if n == 6 { '6' } else if n == 7 { '7' }
    else if n == 8 { '8' } else { '9' }
}

/// Writes `i` in decimal.
pub fn decimal_text(i: i64) -> (r: String)
    ensures
        r@ == decimal(i as int),
{
    let neg = i < 0;
    let mag: u64 = if neg {
        (-(i as i128)) as u64
    } else {
        i as u64
    };
    let mut q: u64 = mag;
    let mut tail: Vec<char> = Vec::new();
    while q >= 10
        invariant
            digits(mag as nat) == digits(q as nat) + tail@,
        decreases q,
    {
        let ghost t = tail@;
        tail.insert(0, digit_char(q % 10));
        assert(digits(q as nat) == digits((q / 10) as nat).push(digit((q % 10) as nat)));
        assert(digits((q / 10) as nat) + tail@ =~= digits(q as nat) + t);
        q = q / 10;
    }
    let mut out: Vec<char> = Vec::new();
    if neg {
        out.push('-');
    }
    out.push(digit_char(q));
    let ghost o = out@;
    let mut j: usize = 0;
    while j < tail.len()
        invariant
            j <= tail@.len(),
            out@ == o + tail@.subrange(0, j as int),
        decreases tail@.len() - j,
    {
        out.push(tail[j]);
        j = j + 1;
        assert(out@ =~= o + tail@.subrange(0, j as int));
    }
    assert(tail@.subrange(0, j as int) =~= tail@);
    assert(digits(q as nat) == seq![digit(q as nat)]);
    if neg {
        assert(out@ =~= seq!['-'] + (seq![digit(q as nat)] + tail@));
    } else {
        assert(out@ =~= seq![digit(q as nat)] + tail@);
    }
    string_of(out.as_slice())
}

/// What `toml::from_str` reads from the text as a table: its entries in the
/// order the table hands them out, or `None` where the text is not TOML.
pub uninterp spec fn toml_entries_of(text: Seq<char>) -> Option<Seq<(Seq<char>, ConfigValueView)>>;

/// The key/value pairs that `java_properties::read` finds in the bytes, or
/// `None` where it fails.
pub uninterp spec fn properties_of(bytes: Seq<u8>) -> Option<Map<Seq<char>, Seq<char>>>;

/// The text that `std::str::from_utf8` reads from the bytes, or `None` where
/// they are not UTF-8.
pub uninterp spec fn utf8_text(bytes: Seq<u8>) -> Option<Seq<char>>;

/// Relies on `toml::from_str` into a `toml::Table`: whether the text parses,
/// and the entries of the table, depend on the text alone. Each value is
/// handed out by its variant; a float and a datetime as the text their
/// `Display` gives.
#[verifier::external_body]
fn parse_toml(text: &str) -> (r: Result<Vec<(String, ConfigValue)>, toml::de::Error>)
    ensures
        match r {
            Ok(v) => toml_entries_of(text@) == Some(config_views(v@)),
            Err(_) => toml_entries_of(text@) is None,
        },
{
    let t: toml::Table = toml::from_str(text)?;
    Ok(t.into_iter().map(|(k, v)| (k, match v {
        Value::String(s) => ConfigValue::Text(s),
        Value::Integer(i) => ConfigValue::Integer(i),
        Value::Float(f) => ConfigValue::Float(f.to_string()),
        Value::Boolean(b) => ConfigValue::Boolean(b),
        Value::Datetime(d) => ConfigValue::Datetime(d.to_string()),
        Value::Array(_) => ConfigValue::Nested,
        Value::Table(_) => ConfigValue::Nested,
    })).collect())
}

/// Relies on `java_properties::read` over the bytes: the pairs it reads, or
/// its failure, depend on the bytes alone, and the map it returns holds each
/// key once.
#[verifier::external_body]
fn read_properties(bytes: &[u8]) -> (r: Result<Vec<(String, String)>, java_properties::PropertiesError>)
    ensures
        match r {
            Ok(v) => properties_of(bytes@) == Some(table_of(pair_views(v@))),
            Err(_) => properties_of(bytes@) is None,
        },
{
    java_properties::read(bytes).map(|m| m.into_iter().collect())
}

/// Relies on `std::str::from_utf8`: the text of UTF-8 bytes, or `None`.
#[verifier::external_body]
fn utf8(bytes: &[u8]) -> (r: Option<String>)
    ensures
        match r {
            Some(s) => utf8_text(bytes@) == Some(s@),
            None => utf8_text(bytes@) is None,
        },
{
    std::str::from_utf8(bytes).ok().map(|s| s.to_owned())
}

/// The parameter text of a configuration value; arrays and tables have none.
pub open spec fn scalar_text(v: ConfigValueView) -> Option<Seq<char>> {
    match v {
        ConfigValueView::Text(s) => Some(s),
        ConfigValueView::Integer(i) => Some(decimal(i as int)),
        ConfigValueView::Float(s) => Some(s),
        ConfigValueView::Boolean(b) => Some(if b { "true"@ } else { "false"@ }),
        ConfigValueView::Datetime(s) => Some(s),
        ConfigValueView::Nested => None,
    }
}

/// The pairs of `entries` whose values have parameter text, with that text.
pub open spec fn scalar_pairs(entries: Seq<(Seq<char>, ConfigValueView)>) -> Seq<(Seq<char>, Seq<char>)>
    decreases entries.len(),
{
    if entries.len() == 0 {
        seq![]
    } else {
        let r = scalar_pairs(entries.drop_last());
        match scalar_text(entries.last().1) {
            Some(t) => r.push((entries.last().0, t)),
            None => r,
        }
    }
}

/// The parameters that a TOML text gives, or `None` where it is not TOML.
pub open spec fn toml_params(text: Seq<char>) -> Option<Map<Seq<char>, Seq<char>>> {
    match toml_entries_of(text) {
        Some(es) => Some(table_of(scalar_pairs(es))),
        None => None,
    }
}

/// The parameters that the bytes of a defaults file give in format `c`, or
/// `None` where they do not decode.
pub open spec fn decoded_defaults(c: Configuration, bytes: Seq<u8>) -> Option<Map<Seq<char>, Seq<char>>> {
    match c {
        Configuration::JavaProps => properties_of(bytes),
        Configuration::Toml => match utf8_text(bytes) {
            Some(t) => toml_params(t),
            None => None,
        },
    }
}

fn scalar(v: &ConfigValue) -> (r: Option<String>)
    ensures
        match r {
            Some(s) => scalar_text(v@) == Some(s@),
            None => scalar_text(v@) is None,
        },
{
    match v {
        ConfigValue::Text(s) => Some(s.clone()),
        ConfigValue::Integer(i) => Some(decimal_text(*i)),
        ConfigValue::Float(s) => Some(s.clone()),
        ConfigValue::Boolean(b) => Some(if *b { "true".to_owned() } else { "false".to_owned() }),
        ConfigValue::Datetime(s) => Some(s.clone()),
        ConfigValue::Nested => None,
    }
}

impl Params {
    /// The parameters that a structured configuration gives: each scalar value
    /// as text, arrays and tables left out; a later pair for a key wins.
    pub fn convert_toml(entries: &Vec<(String, ConfigValue)>) -> (r: Params)
        ensures
            r@ == table_of(scalar_pairs(config_views(entries@))),
            r.wf(),
    {
        let mut r = Params::new();
        let mut i: usize = 0;
        while i < entries.len()
            invariant
                i <= entries@.len(),
                r@ == table_of(scalar_pairs(config_views(entries@).take(i as int))),
                r.wf(),
            decreases entries@.len() - i,
        {
            let ghost cv = config_views(entries@);
            assert(cv.take(i + 1 as int).drop_last() =~= cv.take(i as int));
            let (k, v) = &entries[i];
            assert(cv.take(i + 1 as int).last() == cv[i as int]);
            assert(entries@[i as int].0 == *k && entries@[i as int].1 == *v);
            assert(cv[i as int] == (k@, v@));
            match scalar(v) {
                Some(t) => {
                    let ghost sp = scalar_pairs(cv.take(i as int));
                    assert(scalar_pairs(cv.take(i + 1 as int)) == sp.push((k@, t@)));
                    assert(sp.push((k@, t@)).drop_last() =~= sp);
                    r.insert(k.clone(), t);
                },
                None => {},
            }
            i = i + 1;
        }
        assert(config_views(entries@).take(i as int) =~= config_views(entries@));
        r
    }
}

/// Decodes the bytes of a Java properties file into parameters.
pub fn decode_flat(bytes: &[u8]) -> (r: Result<Params, ConfigError>)
    ensures
        match properties_of(bytes@) {
            Some(m) => r is Ok && r->Ok_0@ == m && r->Ok_0.wf(),
            None => r == Err::<Params, ConfigError>(ConfigError::ConfigDecodeFailure),
        },
{
    match read_properties(bytes) {
        Ok(pairs) => Ok(Params::from_map(pairs)),
        Err(_) => Err(ConfigError::ConfigDecodeFailure),
    }
}

/// Decodes a TOML text into parameters: scalar values as text, arrays and
/// tables left out.
pub fn decode_structured(text: &str) -> (r: Result<Params, ConfigError>)
    ensures
        match toml_params(text@) {
            Some(m) => r is Ok && r->Ok_0@ == m && r->Ok_0.wf(),
            None => r == Err::<Params, ConfigError>(ConfigError::ConfigDecodeFailure),
        },
{
    match parse_toml(text) {
        Ok(entries) => Ok(Params::convert_toml(&entries)),
        Err(_) => Err(ConfigError::ConfigDecodeFailure),
    }
}

/// Decodes the bytes of a defaults file in format `c` into parameters; a
/// TOML file must be UTF-8.
pub fn decode_defaults(c: Configuration, bytes: &[u8]) -> (r: Result<Params, ConfigError>)
    ensures
        match decoded_defaults(c, bytes@) {
            Some(m) => r is Ok && r->Ok_0@ == m && r->Ok_0.wf(),
            None => r == Err::<Params, ConfigError>(ConfigError::ConfigDecodeFailure),
        },
{
    match c {
        Configuration::JavaProps => decode_flat(bytes),
        Configuration::Toml => match utf8(bytes) {
            Some(text) => decode_structured(text.as_str()),
            None => Err(ConfigError::ConfigDecodeFailure),
        },
    }
}

} // verus!
