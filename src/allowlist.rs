//! Which paths a query admits: a list of patterns to allow and one to deny.
use vstd::prelude::*;

verus! {

#[verifier::external_type_specification]
#[verifier::external_body]
pub struct ExRegex(regex::Regex);

/// Whether the regular expression `pattern` matches somewhere in `text`.
pub uninterp spec fn regex_matches(pattern: Seq<char>, text: Seq<char>) -> bool;

/// Whether `pattern` is a regular expression that compiles.
pub uninterp spec fn regex_compiles(pattern: Seq<char>) -> bool;

/// A regular expression together with the text it was compiled from.
pub struct Pattern {
    source: String,
    compiled: regex::Regex,
}

impl View for Pattern {
    type V = Seq<char>;

    closed spec fn view(&self) -> Seq<char> {
        self.source@
    }
}

/// Relies on `regex::Regex::new`, which compiles `source` or reports why it
/// cannot, from the text alone; the error is kept as its message.
#[verifier::external_body]
fn compile(source: &str) -> (r: Result<Pattern, String>)
    ensures
        r matches Ok(p) ==> p@ == source@,
        r is Ok <==> regex_compiles(source@),
{
    match regex::Regex::new(source) {
        Ok(compiled) => Ok(Pattern { source: source.to_string(), compiled }),
        Err(e) => Err(e.to_string()),
    }
}

/// Relies on `regex::Regex::is_match`: whether the expression, compiled from
/// `p@`, matches somewhere in `text`.
#[verifier::external_body]
fn is_match(p: &Pattern, text: &str) -> (r: bool)
    ensures
        r == regex_matches(p@, text@),
{
    p.compiled.is_match(text)
}

impl Pattern {
    /// Compiles a regular expression; the error is a message saying why it is
    /// not one.
    pub fn new(source: &str) -> (r: Result<Pattern, String>)
        ensures
            r matches Ok(p) ==> p@ == source@,
            r is Ok <==> regex_compiles(source@),
    {
        compile(source)
    }

    pub fn matches(&self, text: &str) -> (r: bool)
        ensures
            r == regex_matches(self@, text@),
    {
        is_match(self, text)
    }
}

/// Whether some pattern of `list` matches `text`.
pub open spec fn any_matches(list: Seq<Pattern>, text: Seq<char>) -> bool {
    exists|i: int| 0 <= i < list.len() && regex_matches(#[trigger] list[i]@, text)
}

/// A path is admitted when no deny pattern matches it, and either there are no
/// allow patterns or one of them matches it.
pub open spec fn admits(allow: Seq<Pattern>, deny: Seq<Pattern>, text: Seq<char>) -> bool {
    !any_matches(deny, text) && (allow.len() == 0 || any_matches(allow, text))
}

pub struct Allowlist {
    pub allow: Vec<Pattern>,
    pub deny: Vec<Pattern>,
}

impl Allowlist {
    pub open spec fn admits(&self, text: Seq<char>) -> bool {
        admits(self.allow@, self.deny@, text)
    }

    /// An allowlist that admits every path.
    pub fn allow_all() -> (r: Allowlist)
        ensures
            forall|t: Seq<char>| r.admits(t),
    {
        Allowlist { allow: Vec::new(), deny: Vec::new() }
    }

    pub fn is_allowed(&self, value: &str) -> (r: bool)
        ensures
            r == self.admits(value@),
    {
        let mut i: usize = 0;
        while i < self.deny.len()
            invariant
                i <= self.deny@.len(),
                forall|k: int| 0 <= k < i ==> !regex_matches(#[trigger] self.deny@[k]@, value@),
            decreases self.deny@.len() - i,
        {
            if self.deny[i].matches(value) {
                return false;
            }
            i = i + 1;
        }
        if self.allow.len() == 0 {
            return true;
        }
        let mut j: usize = 0;
        while j < self.allow.len()
            invariant
                j <= self.allow@.len(),
                !any_matches(self.deny@, value@),
                forall|k: int| 0 <= k < j ==> !regex_matches(#[trigger] self.allow@[k]@, value@),
            decreases self.allow@.len() - j,
        {
            if self.allow[j].matches(value) {
                return true;
            }
            j = j + 1;
        }
        false
    }
}

} // verus!
