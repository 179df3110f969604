//! Settings that a process takes from its environment.
use crate::layout;
use crate::text;
use crate::values;
use vstd::prelude::*;
use vstd::string::*;

verus! {

/// Why the settings could not be taken.
#[derive(Clone, Debug, PartialEq, Eq)]
pub enum ConfigError {
    MissingEnv(&'static str),
    InvalidEnv(&'static str, String),
}

pub enum ConfigErrorView {
    MissingEnv(Seq<char>),
    InvalidEnv(Seq<char>, Seq<char>),
}

impl View for ConfigError {
    type V = ConfigErrorView;

    open spec fn view(&self) -> ConfigErrorView {
        match self {
            ConfigError::MissingEnv(name) => ConfigErrorView::MissingEnv(name@),
            ConfigError::InvalidEnv(name, value) => ConfigErrorView::InvalidEnv(name@, value@),
        }
    }
}

impl ConfigErrorView {
    /// What the error says.
    pub open spec fn text(self) -> Seq<char> {
        match self {
            ConfigErrorView::MissingEnv(name) => "missing required environment variable "@ + name,
            ConfigErrorView::InvalidEnv(name, value) => "invalid value for "@ + name + ": "@
                + value,
        }
    }
}

impl ConfigError {
    pub fn message(&self) -> (r: String)
        ensures
            r@ == self@.text(),
    {
        match self {
            ConfigError::MissingEnv(name) => {
                let mut text: String = "missing required environment variable ".to_owned();
                text.append(name);
                text
            },
            ConfigError::InvalidEnv(name, value) => {
                let mut text: String = "invalid value for ".to_owned();
                text.append(name);
                text.append(": ");
                text.append(value.as_str());
                text
            },
        }
    }
}

/// A setting, or what it is where it is not set.
pub open spec fn setting(value: Option<Seq<char>>, default: Seq<char>) -> Seq<char> {
    match value {
        Some(v) => v,
        None => default,
    }
}

pub fn setting_or(value: &Option<String>, default: &str) -> (r: String)
    ensures
        r@ == setting(text::option_view(*value), default@),
{
    match value {
        Some(v) => v.clone(),
        None => default.to_owned(),
    }
}

/// A setting that is a number of at most `max`.
pub open spec fn number_setting(
    name: Seq<char>,
    value: Option<Seq<char>>,
    default: int,
    max: int,
) -> Result<int, ConfigErrorView> {
    match value {
        Some(v) => match values::unsigned_of(v, max) {
            Some(n) => Ok(n),
            None => Err(ConfigErrorView::InvalidEnv(name, v)),
        },
        None => Ok(default),
    }
}

/// What a result stands for.
pub open spec fn number_view(r: Result<u64, ConfigError>) -> Result<int, ConfigErrorView> {
    match r {
        Ok(n) => Ok(n as int),
        Err(e) => Err(e@),
    }
}

pub fn parse_env(name: &'static str, value: &Option<String>, default: u64, max: u64) -> (r: Result<
    u64,
    ConfigError,
>)
    requires
        default <= max,
    ensures
        number_view(r) == number_setting(
            name@,
            text::option_view(*value),
            default as int,
            max as int,
        ),
        r is Ok ==> r->Ok_0 <= max,
{
    match value {
        Some(v) => match values::parse_unsigned(v.as_str(), max) {
            Some(n) => Ok(n),
            None => Err(ConfigError::InvalidEnv(name, v.clone())),
        },
        None => Ok(default),
    }
}

/// A setting that is a socket address, where `valid` says whether its text is
/// one.
pub open spec fn address_setting(name: Seq<char>, address: Seq<char>, valid: bool) -> Result<
    Seq<char>,
    ConfigErrorView,
> {
    if valid {
        Ok(address)
    } else {
        Err(ConfigErrorView::InvalidEnv(name, "not a valid socket address"@))
    }
}

/// What a result stands for.
pub open spec fn address_view(r: Result<String, ConfigError>) -> Result<
    Seq<char>,
    ConfigErrorView,
> {
    match r {
        Ok(a) => Ok(a@),
        Err(e) => Err(e@),
    }
}

pub fn checked_address(name: &'static str, address: String, valid: bool) -> (r: Result<
    String,
    ConfigError,
>)
    ensures
        address_view(r) == address_setting(name@, address@, valid),
{
    if valid {
        Ok(address)
    } else {
        Err(ConfigError::InvalidEnv(name, "not a valid socket address".to_owned()))
    }
}

/// That a setting is a number: what its digits write, or the default where it
/// is not set.
pub open spec fn is_number(value: Option<Seq<char>>, default: int, max: int, n: int) -> bool {
    match value {
        Some(s) => n <= max && (layout::writes(s, n) || (s.len() > 0 && s[0] == '+'
            && layout::writes(s.drop_first(), n))),
        None => n == default,
    }
}

/// A setting is taken as the number that it writes, or as its default where it
/// is not set; one that writes none is refused with its name and its text.
pub proof fn law_a_number_is_taken_as_written(
    name: Seq<char>,
    value: Option<Seq<char>>,
    default: int,
    max: int,
    n: int,
)
    ensures
        number_setting(name, value, default, max) == Ok::<int, ConfigErrorView>(n) <==> is_number(
            value,
            default,
            max,
            n,
        ),
        number_setting(name, value, default, max) matches Err(e) ==> value is Some && e
            == ConfigErrorView::InvalidEnv(name, value->Some_0),
{
    if let Some(s) = value {
        values::law_a_number_is_what_its_digits_write(s, max, n);
    }
}

} // verus!
