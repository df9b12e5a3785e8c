use vstd::prelude::*;
use vstd::string::*;

use crate::text::joined;

verus! {

/// The characters that carry the Unicode `White_Space` property, which is
/// exactly what `char::is_whitespace` tests for.
pub open spec fn is_whitespace_spec(c: char) -> bool {
    let u = c as u32;
    ||| 0x09 <= u <= 0x0d
    ||| u == 0x20
    ||| u == 0x85
    ||| u == 0xa0
    ||| u == 0x1680
    ||| 0x2000 <= u <= 0x200a
    ||| u == 0x2028
    ||| u == 0x2029
    ||| u == 0x202f
    ||| u == 0x205f
    ||| u == 0x3000
}

/// Whether `c` is a Unicode white-space character.
pub fn is_whitespace(c: char) -> (r: bool)
    ensures
        r == is_whitespace_spec(c),
{
    let u = c as u32;
    (0x09 <= u && u <= 0x0d) || u == 0x20 || u == 0x85 || u == 0xa0 || u == 0x1680 || (0x2000
        <= u && u <= 0x200a) || u == 0x2028 || u == 0x2029 || u == 0x202f || u == 0x205f || u
        == 0x3000
}

/// An identifier is valid when it is non-empty and holds no white space.
pub open spec fn valid_id(s: Seq<char>) -> bool {
    &&& s.len() > 0
    &&& forall|i: int| 0 <= i < s.len() ==> !is_whitespace_spec(#[trigger] s[i])
}

/// Strict lexicographic order on character sequences, comparing code points
/// (the order of `str`, whose UTF-8 byte order agrees with code-point order).
pub open spec fn lex_lt(a: Seq<char>, b: Seq<char>) -> bool
    decreases a.len(),
{
    if a.len() == 0 {
        b.len() > 0
    } else if b.len() == 0 {
        false
    } else if a[0] != b[0] {
        a[0] < b[0]
    } else {
        lex_lt(a.drop_first(), b.drop_first())
    }
}

pub proof fn lemma_lex_irreflexive(a: Seq<char>)
    ensures
        !lex_lt(a, a),
    decreases a.len(),
{
    if a.len() > 0 {
        lemma_lex_irreflexive(a.drop_first());
    }
}

pub proof fn lemma_lex_total(a: Seq<char>, b: Seq<char>)
    ensures
        a =~= b || lex_lt(a, b) || lex_lt(b, a),
        !(lex_lt(a, b) && lex_lt(b, a)),
    decreases a.len(),
{
    if a.len() > 0 && b.len() > 0 {
        if a[0] == b[0] {
            lemma_lex_total(a.drop_first(), b.drop_first());
            if a.drop_first() =~= b.drop_first() {
                assert(a =~= b) by {
                    assert forall|i: int| 0 <= i < a.len() implies a[i] == b[i] by {
                        if i > 0 {
                            assert(a[i] == a.drop_first()[i - 1]);
                            assert(b[i] == b.drop_first()[i - 1]);
                        }
                    }
                }
            }
        } else {
        }
    }
}

pub proof fn lemma_lex_transitive(a: Seq<char>, b: Seq<char>, c: Seq<char>)
    requires
        lex_lt(a, b),
        lex_lt(b, c),
    ensures
        lex_lt(a, c),
    decreases a.len(),
{
    if a.len() > 0 && b.len() > 0 && c.len() > 0 {
        if a[0] == b[0] && b[0] == c[0] {
            lemma_lex_transitive(a.drop_first(), b.drop_first(), c.drop_first());
        }
    }
}

/// `lex_lt` compares from the first position at which two sequences differ.
pub proof fn lemma_lex_skip(a: Seq<char>, b: Seq<char>, i: int)
    requires
        0 <= i <= a.len(),
        i <= b.len(),
        a.subrange(0, i) =~= b.subrange(0, i),
    ensures
        lex_lt(a, b) == lex_lt(a.skip(i), b.skip(i)),
    decreases i,
{
    if i > 0 {
        assert(a[0] == a.subrange(0, i)[0]);
        assert(b[0] == b.subrange(0, i)[0]);
        assert(a.drop_first().subrange(0, i - 1) =~= b.drop_first().subrange(0, i - 1)) by {
            assert forall|k: int| 0 <= k < i - 1 implies a.drop_first()[k] == b.drop_first()[k] by {
                assert(a.subrange(0, i)[k + 1] == b.subrange(0, i)[k + 1]);
            }
        }
        lemma_lex_skip(a.drop_first(), b.drop_first(), i - 1);
        assert(a.drop_first().skip(i - 1) =~= a.skip(i));
        assert(b.drop_first().skip(i - 1) =~= b.skip(i));
    } else {
        assert(a.skip(0) =~= a);
        assert(b.skip(0) =~= b);
    }
}

/// Whether `a` orders strictly before `b` as strings.
pub fn str_less(a: &str, b: &str) -> (r: bool)
    ensures
        r == lex_lt(a@, b@),
{
    let la = a.unicode_len();
    let lb = b.unicode_len();
    let mut i: usize = 0;
    while i < la && i < lb
        invariant
            la == a@.len(),
            lb == b@.len(),
            i <= la,
            i <= lb,
            a@.subrange(0, i as int) =~= b@.subrange(0, i as int),
        decreases la - i,
    {
        let x = a.get_char(i);
        let y = b.get_char(i);
        if x != y {
            proof {
                lemma_lex_skip(a@, b@, i as int);
                assert(a@.skip(i as int)[0] == x);
                assert(b@.skip(i as int)[0] == y);
            }
            return x < y;
        }
        i = i + 1;
        assert(a@.subrange(0, i as int) =~= b@.subrange(0, i as int)) by {
            assert forall|k: int| 0 <= k < i implies a@.subrange(0, i as int)[k] == b@.subrange(
                0,
                i as int,
            )[k] by {
                if k < i - 1 {
                    assert(a@.subrange(0, i - 1)[k] == b@.subrange(0, i - 1)[k]);
                }
            }
        }
    }
    proof {
        lemma_lex_skip(a@, b@, i as int);
    }
    i == la && i < lb
}

/// Whether `a` and `b` are the same string.
pub fn str_eq(a: &str, b: &str) -> (r: bool)
    ensures
        r == (a@ == b@),
{
    let r = !str_less(a, b) && !str_less(b, a);
    proof {
        lemma_lex_total(a@, b@);
        lemma_lex_irreflexive(a@);
    }
    r
}

/// Checks that `value` is a usable identifier: non-empty and free of white space.
fn validate(kind: &'static str, value: &str) -> (r: Result<String, IdError>)
    ensures
        match r {
            Ok(s) => valid_id(value@) && s@ == value@,
            Err(IdError::Empty { kind: k }) => value@.len() == 0 && k == kind,
            Err(IdError::ContainsWhitespace { kind: k, value: v }) => {
                &&& value@.len() > 0
                &&& !valid_id(value@)
                &&& k == kind
                &&& v@ == value@
            },
        },
{
    let n = value.unicode_len();
    if n == 0 {
        return Err(IdError::Empty { kind });
    }
    let mut i: usize = 0;
    while i < n
        invariant
            n == value@.len(),
            i <= n,
            forall|j: int| 0 <= j < i ==> !is_whitespace_spec(#[trigger] value@[j]),
        decreases n - i,
    {
        if is_whitespace(value.get_char(i)) {
            return Err(IdError::ContainsWhitespace { kind, value: String::from_str(value) });
        }
        i = i + 1;
    }
    Ok(String::from_str(value))
}

/// The identity of a module registered with a runtime.
#[derive(Debug, Hash)]
pub struct ModuleId(String);

impl View for ModuleId {
    type V = Seq<char>;

    closed spec fn view(&self) -> Seq<char> {
        self.0@
    }
}

impl ModuleId {
    /// A module id; refused when `value` is empty or contains white space.
    pub fn new(value: &str) -> (r: Result<Self, IdError>)
        ensures
            match r {
                Ok(id) => valid_id(value@) && id@ == value@,
                Err(IdError::Empty { kind }) => value@.len() == 0 && kind == "module",
                Err(IdError::ContainsWhitespace { kind, value: v }) => {
                    &&& value@.len() > 0
                    &&& !valid_id(value@)
                    &&& kind == "module"
                    &&& v@ == value@
                },
            },
    {
        match validate("module", value) {
            Ok(s) => Ok(ModuleId(s)),
            Err(e) => Err(e),
        }
    }

    pub fn as_str(&self) -> (r: &str)
        ensures
            r@ == self@,
    {
        self.0.as_str()
    }

    /// The id as text.
    pub fn to_string(&self) -> (r: String)
        ensures
            r@ == self@,
    {
        self.0.clone()
    }

    /// Whether two ids name the same module.
    pub fn same(&self, other: &ModuleId) -> (r: bool)
        ensures
            r == (self@ == other@),
    {
        self.0 == other.0
    }

    /// Whether this id orders strictly before `other`.
    pub fn less(&self, other: &ModuleId) -> (r: bool)
        ensures
            r == lex_lt(self@, other@),
    {
        str_less(self.0.as_str(), other.0.as_str())
    }
}

impl AsRef<str> for ModuleId {
    fn as_ref(&self) -> (r: &str)
        ensures
            r@ == self@,
    {
        self.0.as_str()
    }
}

impl Clone for ModuleId {
    fn clone(&self) -> (r: Self)
        ensures
            r@ == self@,
    {
        ModuleId(self.0.clone())
    }
}

impl PartialEq for ModuleId {
    fn eq(&self, other: &Self) -> (r: bool) {
        self.0 == other.0
    }
}

impl vstd::std_specs::cmp::PartialEqSpecImpl for ModuleId {
    open spec fn obeys_eq_spec() -> bool {
        true
    }

    open spec fn eq_spec(&self, other: &Self) -> bool {
        self@ == other@
    }
}

impl Eq for ModuleId {

}

/// The identity of an input endpoint through which signals enter a runtime.
#[derive(Debug, Hash)]
pub struct InputId(String);

impl View for InputId {
    type V = Seq<char>;

    closed spec fn view(&self) -> Seq<char> {
        self.0@
    }
}

impl InputId {
    /// An input id; refused when `value` is empty or contains white space.
    pub fn new(value: &str) -> (r: Result<Self, IdError>)
        ensures
            match r {
                Ok(id) => valid_id(value@) && id@ == value@,
                Err(IdError::Empty { kind }) => value@.len() == 0 && kind == "input",
                Err(IdError::ContainsWhitespace { kind, value: v }) => {
                    &&& value@.len() > 0
                    &&& !valid_id(value@)
                    &&& kind == "input"
                    &&& v@ == value@
                },
            },
    {
        match validate("input", value) {
            Ok(s) => Ok(InputId(s)),
            Err(e) => Err(e),
        }
    }

    pub fn as_str(&self) -> (r: &str)
        ensures
            r@ == self@,
    {
        self.0.as_str()
    }

    /// The id as text.
    pub fn to_string(&self) -> (r: String)
        ensures
            r@ == self@,
    {
        self.0.clone()
    }
}

impl AsRef<str> for InputId {
    fn as_ref(&self) -> (r: &str)
        ensures
            r@ == self@,
    {
        self.0.as_str()
    }
}

impl Clone for InputId {
    fn clone(&self) -> (r: Self)
        ensures
            r@ == self@,
    {
        InputId(self.0.clone())
    }
}

impl PartialEq for InputId {
    fn eq(&self, other: &Self) -> (r: bool) {
        self.0 == other.0
    }
}

impl vstd::std_specs::cmp::PartialEqSpecImpl for InputId {
    open spec fn obeys_eq_spec() -> bool {
        true
    }

    open spec fn eq_spec(&self, other: &Self) -> bool {
        self@ == other@
    }
}

impl Eq for InputId {

}

/// The abstract value of an endpoint: which kind it is, and its name.
pub enum Endpoint {
    Input(Seq<char>),
    Module(Seq<char>),
}

/// Total order on endpoints: every input before every module, then by name.
pub open spec fn endpoint_lt(a: Endpoint, b: Endpoint) -> bool {
    match (a, b) {
        (Endpoint::Input(x), Endpoint::Input(y)) => lex_lt(x, y),
        (Endpoint::Input(_), Endpoint::Module(_)) => true,
        (Endpoint::Module(_), Endpoint::Input(_)) => false,
        (Endpoint::Module(x), Endpoint::Module(y)) => lex_lt(x, y),
    }
}

pub proof fn lemma_endpoint_total(a: Endpoint, b: Endpoint)
    ensures
        a == b || endpoint_lt(a, b) || endpoint_lt(b, a),
        !(endpoint_lt(a, b) && endpoint_lt(b, a)),
        !endpoint_lt(a, a),
{
    match (a, b) {
        (Endpoint::Input(x), Endpoint::Input(y)) => {
            lemma_lex_total(x, y);
            lemma_lex_irreflexive(x);
        },
        (Endpoint::Module(x), Endpoint::Module(y)) => {
            lemma_lex_total(x, y);
            lemma_lex_irreflexive(x);
        },
        (Endpoint::Input(x), _) => {
            lemma_lex_irreflexive(x);
        },
        (Endpoint::Module(x), _) => {
            lemma_lex_irreflexive(x);
        },
    }
}

pub proof fn lemma_endpoint_transitive(a: Endpoint, b: Endpoint, c: Endpoint)
    requires
        endpoint_lt(a, b),
        endpoint_lt(b, c),
    ensures
        endpoint_lt(a, c),
{
    match (a, b, c) {
        (Endpoint::Input(x), Endpoint::Input(y), Endpoint::Input(z)) => {
            lemma_lex_transitive(x, y, z);
        },
        (Endpoint::Module(x), Endpoint::Module(y), Endpoint::Module(z)) => {
            lemma_lex_transitive(x, y, z);
        },
        _ => {},
    }
}

/// Either end of a route: an input endpoint or a module.
#[derive(Debug, Hash)]
pub enum EndpointId {
    Input(InputId),
    Module(ModuleId),
}

impl View for EndpointId {
    type V = Endpoint;

    open spec fn view(&self) -> Endpoint {
        match self {
            EndpointId::Input(id) => Endpoint::Input(id@),
            EndpointId::Module(id) => Endpoint::Module(id@),
        }
    }
}

impl EndpointId {
    /// Whether two endpoints are the same.
    pub fn same(&self, other: &EndpointId) -> (r: bool)
        ensures
            r == (self@ == other@),
    {
        match (self, other) {
            (EndpointId::Input(a), EndpointId::Input(b)) => a.0 == b.0,
            (EndpointId::Module(a), EndpointId::Module(b)) => a.0 == b.0,
            _ => false,
        }
    }

    /// Whether this endpoint orders strictly before `other`.
    pub fn less(&self, other: &EndpointId) -> (r: bool)
        ensures
            r == endpoint_lt(self@, other@),
    {
        match (self, other) {
            (EndpointId::Input(a), EndpointId::Input(b)) => str_less(a.0.as_str(), b.0.as_str()),
            (EndpointId::Input(_), EndpointId::Module(_)) => true,
            (EndpointId::Module(_), EndpointId::Input(_)) => false,
            (EndpointId::Module(a), EndpointId::Module(b)) => a.less(b),
        }
    }

    /// The module this endpoint names, if it is one.
    pub fn module(&self) -> (r: Option<&ModuleId>)
        ensures
            match self@ {
                Endpoint::Module(m) => r is Some && r->0@ == m,
                Endpoint::Input(_) => r is None,
            },
    {
        match self {
            EndpointId::Module(id) => Some(id),
            EndpointId::Input(_) => None,
        }
    }

    /// The endpoint as text: `input:` or `module:` and the id.
    pub fn to_string(&self) -> (r: String)
        ensures
            r@ == endpoint_text(self@),
    {
        match self {
            EndpointId::Input(id) => joined("input:", id.as_str()),
            EndpointId::Module(id) => joined("module:", id.as_str()),
        }
    }
}

impl Clone for EndpointId {
    fn clone(&self) -> (r: Self)
        ensures
            r@ == self@,
    {
        match self {
            EndpointId::Input(id) => EndpointId::Input(id.clone()),
            EndpointId::Module(id) => EndpointId::Module(id.clone()),
        }
    }
}

impl PartialEq for EndpointId {
    fn eq(&self, other: &Self) -> (r: bool) {
        self.same(other)
    }
}

impl vstd::std_specs::cmp::PartialEqSpecImpl for EndpointId {
    open spec fn obeys_eq_spec() -> bool {
        true
    }

    open spec fn eq_spec(&self, other: &Self) -> bool {
        self@ == other@
    }
}

impl Eq for EndpointId {

}

impl From<InputId> for EndpointId {
    fn from(value: InputId) -> (r: Self) {
        EndpointId::Input(value)
    }
}

impl vstd::std_specs::convert::FromSpecImpl<InputId> for EndpointId {
    open spec fn obeys_from_spec() -> bool {
        true
    }

    open spec fn from_spec(v: InputId) -> Self {
        EndpointId::Input(v)
    }
}

impl From<ModuleId> for EndpointId {
    fn from(value: ModuleId) -> (r: Self) {
        EndpointId::Module(value)
    }
}

impl vstd::std_specs::convert::FromSpecImpl<ModuleId> for EndpointId {
    open spec fn obeys_from_spec() -> bool {
        true
    }

    open spec fn from_spec(v: ModuleId) -> Self {
        EndpointId::Module(v)
    }
}

/// An endpoint as text: `input:` or `module:` and the id.
pub open spec fn endpoint_text(e: Endpoint) -> Seq<char> {
    match e {
        Endpoint::Input(id) => "input:"@ + id,
        Endpoint::Module(id) => "module:"@ + id,
    }
}

/// How `{:?}` renders a string: quoted, with its special characters escaped.
pub uninterp spec fn debug_quoted(s: Seq<char>) -> Seq<char>;

/// Renders `s` with `<str as Debug>::fmt` (through `format!("{:?}")`).
/// Trusted: the result is the quoted, escaped rendering of `s`, the same for
/// the same `s`; what that rendering is character by character is not stated.
#[verifier::external_body]
fn debug_text(s: &str) -> (r: String)
    ensures
        r@ == debug_quoted(s@),
{
    format!("{s:?}")
}

/// Why an identifier was refused.
#[derive(Debug, Clone, PartialEq, Eq)]
pub enum IdError {
    Empty { kind: &'static str },
    ContainsWhitespace { kind: &'static str, value: String },
}

/// A short human-readable account of an id error.
impl IdError {
    pub fn to_string(&self) -> (r: String)
        ensures
            match self {
                IdError::Empty { kind } => r@ == kind@ + " id cannot be empty"@,
                IdError::ContainsWhitespace { kind, value } => r@ == kind@
                    + " id cannot contain whitespace: "@ + debug_quoted(value@),
            },
    {
        match self {
            IdError::Empty { kind } => {
                let mut s = String::from_str(kind);
                s.append(" id cannot be empty");
                s
            },
            IdError::ContainsWhitespace { kind, value } => {
                let mut s = String::from_str(kind);
                s.append(" id cannot contain whitespace: ");
                let quoted = debug_text(value.as_str());
                s.append(quoted.as_str());
                s
            },
        }
    }
}

} // verus!
