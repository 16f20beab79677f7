//! `get_constant(name)`: the mathematical constants the calculator knows.
//!
//! A name is looked up after trimming surrounding whitespace and lowering
//! its case: `pi` (or `π`) and `e`. The values themselves are floating
//! point and are supplied where the constant is evaluated.

use vstd::prelude::*;
use vstd::string::*;
use crate::bytes::same_text;
use crate::primitives::{ErrorCode, Failure};

verus! {

/// Input of the `get_constant` tool.
pub struct ConstantInput {
    /// Name of the mathematical constant to look up. Currently supports
    /// `"pi"` and `"e"` (case-insensitive).
    pub name: String,
}

#[derive(Debug, Clone, Copy, PartialEq, Eq, Structural)]
pub enum Constant {
    Pi,
    E,
}

pub open spec fn constant_name(c: Constant) -> Seq<char> {
    match c {
        Constant::Pi => "pi"@,
        Constant::E => "e"@,
    }
}

impl Constant {
    /// The canonical name.
    pub fn name(self) -> (r: &'static str)
        ensures
            r@ == constant_name(self),
    {
        match self {
            Constant::Pi => "pi",
            Constant::E => "e",
        }
    }

    /// The `op` of a lookup's result: `get_constant(pi)` or `get_constant(e)`.
    pub fn op(self) -> (r: String)
        ensures
            r@ == "get_constant("@ + constant_name(self) + ")"@,
    {
        let mut r = String::from_str("get_constant(");
        r.append(self.name());
        r.append(")");
        r
    }
}

/// Unicode `White_Space`, the whitespace that `str::trim` removes.
pub open spec fn is_unicode_space(c: char) -> bool {
    let n = c as u32;
    (0x09 <= n && n <= 0x0D) || n == 0x20 || n == 0x85 || n == 0xA0 || n == 0x1680 || (0x2000 <= n
        && n <= 0x200A) || n == 0x2028 || n == 0x2029 || n == 0x202F || n == 0x205F || n == 0x3000
}

/// The text without its leading whitespace.
pub open spec fn trim_start_chars(s: Seq<char>) -> Seq<char>
    decreases s.len(),
{
    if s.len() > 0 && is_unicode_space(s[0]) {
        trim_start_chars(s.drop_first())
    } else {
        s
    }
}

/// The text without its trailing whitespace.
pub open spec fn trim_end_chars(s: Seq<char>) -> Seq<char>
    decreases s.len(),
{
    if s.len() > 0 && is_unicode_space(s.last()) {
        trim_end_chars(s.drop_last())
    } else {
        s
    }
}

/// The text without leading and trailing whitespace.
pub open spec fn trim_chars(s: Seq<char>) -> Seq<char> {
    trim_end_chars(trim_start_chars(s))
}

/// Every character is ASCII.
pub open spec fn is_ascii_chars(s: Seq<char>) -> bool {
    forall|i: int| 0 <= i < s.len() ==> (#[trigger] s[i] as u32) < 0x80
}

/// The lowercase of an ASCII character: `A`..`Z` become `a`..`z`, and the
/// others stay as they are.
pub open spec fn ascii_lower(c: char) -> char {
    let n = c as u32;
    if 0x41 <= n && n <= 0x5A {
        (n + 0x20) as char
    } else {
        c
    }
}

pub open spec fn ascii_lowercase(s: Seq<char>) -> Seq<char> {
    s.map_values(|c: char| ascii_lower(c))
}

proof fn lemma_trim_start_keeps_ascii(s: Seq<char>)
    requires
        is_ascii_chars(s),
    ensures
        is_ascii_chars(trim_start_chars(s)),
    decreases s.len(),
{
    if s.len() > 0 {
        assert(is_ascii_chars(s.drop_first())) by {
            assert forall|i: int| 0 <= i < s.drop_first().len() implies (#[trigger] s.drop_first()[i]
                as u32) < 0x80 by {
                assert(s.drop_first()[i] == s[i + 1]);
            }
        }
        lemma_trim_start_keeps_ascii(s.drop_first());
    }
}

proof fn lemma_trim_end_keeps_ascii(s: Seq<char>)
    requires
        is_ascii_chars(s),
    ensures
        is_ascii_chars(trim_end_chars(s)),
    decreases s.len(),
{
    if s.len() > 0 {
        assert(is_ascii_chars(s.drop_last())) by {
            assert forall|i: int| 0 <= i < s.drop_last().len() implies (#[trigger] s.drop_last()[i]
                as u32) < 0x80 by {
                assert(s.drop_last()[i] == s[i]);
            }
        }
        lemma_trim_end_keeps_ascii(s.drop_last());
    }
}

/// Name for what `str::to_lowercase` gives: the Unicode lowercase of the text.
pub uninterp spec fn lowercased(s: Seq<char>) -> Seq<char>;

/// `str::trim`: the text with leading and trailing whitespace removed,
/// whitespace being the Unicode `White_Space` property.
#[verifier::external_body]
fn trim(s: &str) -> (r: &str)
    ensures
        r@ == trim_chars(s@),
{
    s.trim()
}

/// `str::to_lowercase`. Its result is named by `lowercased`; of the Unicode
/// case mapping, only what it does to ASCII text is stated: `A`..`Z` become
/// `a`..`z` and every other ASCII character stays.
#[verifier::external_body]
fn to_lowercase(s: &str) -> (r: String)
    ensures
        r@ == lowercased(s@),
        is_ascii_chars(s@) ==> r@ == ascii_lowercase(s@),
{
    s.to_lowercase()
}

/// The constant a lookup key (trimmed, lowercased) stands for.
pub open spec fn constant_for_key(key: Seq<char>) -> Option<Constant> {
    if key == "pi"@ || key == "π"@ {
        Some(Constant::Pi)
    } else if key == "e"@ {
        Some(Constant::E)
    } else {
        None
    }
}

/// The constant that `name` asks for.
pub open spec fn constant_named(name: Seq<char>) -> Option<Constant> {
    constant_for_key(lowercased(trim_chars(name)))
}

pub open spec fn unknown_constant_text(name: Seq<char>) -> Seq<char> {
    "Unknown constant '"@ + name + "'. Supported: pi, e."@
}

/// The constant a lookup key stands for; the key is the trimmed, lowercased name.
pub fn constant_for(key: &str) -> (r: Option<Constant>)
    ensures
        r == constant_for_key(key@),
{
    if same_text(key, "pi") || same_text(key, "π") {
        Some(Constant::Pi)
    } else if same_text(key, "e") {
        Some(Constant::E)
    } else {
        None
    }
}

/// Looks up a constant by name, ignoring surrounding whitespace and case.
/// An unknown name gives an `unknown_constant` error that quotes the name
/// as it was given.
pub fn resolve_constant(name: &str) -> (r: Result<Constant, Failure>)
    ensures
        r is Ok <==> constant_named(name@) is Some,
        r matches Ok(c) ==> constant_named(name@) == Some(c),
        r matches Err(f) ==> f.code == ErrorCode::UnknownConstant && f.message@
            == unknown_constant_text(name@),
        is_ascii_chars(name@) ==> constant_named(name@) == constant_for_key(
            ascii_lowercase(trim_chars(name@)),
        ),
{
    let trimmed = trim(name);
    proof {
        if is_ascii_chars(name@) {
            lemma_trim_start_keeps_ascii(name@);
            lemma_trim_end_keeps_ascii(trim_start_chars(name@));
        }
    }
    let key = to_lowercase(trimmed);
    match constant_for(key.as_str()) {
        Some(c) => Ok(c),
        None => {
            let mut message = String::from_str("Unknown constant '");
            message.append(name);
            message.append("'. Supported: pi, e.");
            Err(Failure { code: ErrorCode::UnknownConstant, message })
        },
    }
}

} // verus!
