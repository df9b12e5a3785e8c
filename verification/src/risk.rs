use vstd::prelude::*;
use vstd::string::*;

use crate::text::{contains_str, occurs_in};

verus! {

/// The lowercase mapping of `s` that `str::to_lowercase` computes (Unicode
/// lowercase, independent of locale).
pub uninterp spec fn lowercase(s: Seq<char>) -> Seq<char>;

/// Calls `str::to_lowercase`. Trusted: the result is the lowercase mapping
/// of `s`, the same for the same `s`; what that mapping is is not stated.
#[verifier::external_body]
fn to_lowercase(s: &str) -> (r: String)
    ensures
        r@ == lowercase(s@),
{
    s.to_lowercase()
}

/// Some keyword of `keywords` occurs in `text`.
pub open spec fn mentions_keyword(keywords: Seq<Seq<char>>, text: Seq<char>) -> bool {
    exists|k: int| 0 <= k < keywords.len() && occurs_in(text, #[trigger] keywords[k])
}

/// A keyword appraiser of action risk: an action is dangerous when its
/// lowercased text mentions any of the keywords (`rm -rf`, `delete`, ...).
#[derive(Debug, Clone)]
pub struct KeywordRisk {
    dangerous: Vec<String>,
}

impl KeywordRisk {
    /// The keywords, in order.
    pub closed spec fn spec_keywords(&self) -> Seq<Seq<char>> {
        self.dangerous@.map_values(|k: String| k@)
    }

    /// An appraiser that flags the given keywords.
    pub fn new(keywords: &[&str]) -> (r: Self)
        ensures
            r.spec_keywords() == keywords@.map_values(|k: &str| k@),
    {
        let mut dangerous: Vec<String> = Vec::new();
        let mut i: usize = 0;
        while i < keywords.len()
            invariant
                i <= keywords@.len(),
                dangerous@.len() == i,
                forall|j: int| 0 <= j < i ==> (#[trigger] dangerous@[j])@ == keywords@[j]@,
            decreases keywords@.len() - i,
        {
            dangerous.push(String::from_str(keywords[i]));
            i = i + 1;
        }
        let r = KeywordRisk { dangerous };
        assert(r.spec_keywords() =~= keywords@.map_values(|k: &str| k@));
        r
    }

    /// Whether `text`, taken as it is, mentions any keyword.
    pub fn mentions_any(&self, text: &str) -> (r: bool)
        ensures
            r == mentions_keyword(self.spec_keywords(), text@),
    {
        let mut i: usize = 0;
        while i < self.dangerous.len()
            invariant
                i <= self.dangerous@.len(),
                forall|j: int| 0 <= j < i ==> !occurs_in(text@, #[trigger] self.spec_keywords()[j]),
            decreases self.dangerous@.len() - i,
        {
            if contains_str(text, self.dangerous[i].as_str()) {
                assert(occurs_in(text@, self.spec_keywords()[i as int]));
                return true;
            }
            i = i + 1;
        }
        false
    }

    /// Whether `action` is dangerous: its lowercased text mentions a keyword.
    pub fn is_dangerous(&self, action: &str) -> (r: bool)
        ensures
            r == mentions_keyword(self.spec_keywords(), lowercase(action@)),
    {
        let lowered = to_lowercase(action);
        self.mentions_any(lowered.as_str())
    }
}

impl Default for KeywordRisk {
    /// The destructive keywords of a coding agent's shell actions.
    fn default() -> (r: Self)
        ensures
            r.spec_keywords() == seq![
                "rm -rf"@,
                "rm "@,
                "delete"@,
                "drop"@,
                "--force"@,
                "force-push"@,
                "truncate"@,
                "shutdown"@,
                "mkfs"@,
                "format "@,
            ],
    {
        let keywords = [
            "rm -rf",
            "rm ",
            "delete",
            "drop",
            "--force",
            "force-push",
            "truncate",
            "shutdown",
            "mkfs",
            "format ",
        ];
        let r = KeywordRisk::new(&keywords);
        assert(r.spec_keywords() =~= seq![
            "rm -rf"@,
            "rm "@,
            "delete"@,
            "drop"@,
            "--force"@,
            "force-push"@,
            "truncate"@,
            "shutdown"@,
            "mkfs"@,
            "format "@,
        ]);
        r
    }
}

} // verus!
