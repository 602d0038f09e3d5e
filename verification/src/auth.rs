//! Bearer-token authentication: the accepted token set, reading the token
//! from an `Authorization` header value, and the middleware's decision.
use vstd::prelude::*;
use crate::text::{chars_of, string_of, str_eq, is_prefix};
use crate::catalog::{is_white, is_whitespace, trim_spec};

verus! {

/// Pushing onto a sequence adds the element to its set.
pub proof fn lemma_push_to_set<A>(s: Seq<A>, x: A)
    ensures
        s.push(x).to_set() == s.to_set().insert(x),
{
    assert forall|y: A| s.push(x).to_set().contains(y) <==> s.to_set().insert(x).contains(y) by {
        if s.push(x).contains(y) {
            let k = choose|k: int| 0 <= k < s.push(x).len() && s.push(x)[k] == y;
            if k < s.len() {
                assert(s[k] == y);
            }
        }
        if s.contains(y) {
            let k = choose|k: int| 0 <= k < s.len() && s[k] == y;
            assert(s.push(x)[k] == y);
        }
        if y == x {
            assert(s.push(x)[s.len() as int] == y);
        }
    }
    assert(s.push(x).to_set() =~= s.to_set().insert(x));
}

/// No token occurs twice.
pub open spec fn distinct_tokens(s: Seq<String>) -> bool {
    forall|i: int, j: int| 0 <= i < j < s.len() ==> s[i]@ != s[j]@
}

/// The set of accepted bearer tokens.
#[derive(Debug)]
pub struct TokenSet {
    tokens: Vec<String>,
}

/// The views of a list of tokens.
pub open spec fn token_views(s: Seq<String>) -> Seq<Seq<char>> {
    s.map_values(|t: String| t@)
}

impl View for TokenSet {
    type V = Set<Seq<char>>;

    closed spec fn view(&self) -> Set<Seq<char>> {
        token_views(self.tokens@).to_set()
    }
}

impl TokenSet {
    /// No token is held twice.
    #[verifier::type_invariant]
    spec fn wf(self) -> bool {
        distinct_tokens(self.tokens@)
    }

    /// The number of distinct tokens.
    pub closed spec fn count(&self) -> nat {
        self.tokens@.len()
    }

    proof fn lemma_count(&self)
        requires
            distinct_tokens(self.tokens@),
        ensures
            self@.finite(),
            self@.len() == self.count(),
    {
        let v = token_views(self.tokens@);
        assert(v.no_duplicates()) by {
            assert forall|i: int, j: int| 0 <= i < v.len() && 0 <= j < v.len() && i != j implies v[i] != v[j] by {
                if i < j {
                    assert(self.tokens@[i]@ != self.tokens@[j]@);
                } else {
                    assert(self.tokens@[j]@ != self.tokens@[i]@);
                }
            }
        }
        v.unique_seq_to_set();
    }

    /// Whether `token` is among `tokens[..n]`.
    fn holds_among(tokens: &Vec<String>, token: &str, n: usize) -> (r: bool)
        requires
            n <= tokens@.len(),
        ensures
            r == token_views(tokens@).subrange(0, n as int).contains(token@),
    {
        let ghost v = token_views(tokens@).subrange(0, n as int);
        let mut i: usize = 0;
        while i < n
            invariant
                i <= n <= tokens@.len(),
                v == token_views(tokens@).subrange(0, n as int),
                forall|q: int| 0 <= q < i ==> v[q] != token@,
            decreases n - i,
        {
            if str_eq(tokens[i].as_str(), token) {
                assert(v[i as int] == token@);
                return true;
            }
            i = i + 1;
        }
        false
    }

    /// A token set holding each of the given tokens once.
    pub fn new(tokens: Vec<String>) -> (r: Self)
        ensures
            r@ == token_views(tokens@).to_set(),
    {
        let mut set: Vec<String> = Vec::new();
        let mut i: usize = 0;
        assert(token_views(set@).to_set() =~= token_views(tokens@).subrange(0, 0).to_set());
        while i < tokens.len()
            invariant
                i <= tokens@.len(),
                distinct_tokens(set@),
                token_views(set@).to_set() == token_views(tokens@).subrange(0, i as int).to_set(),
            decreases tokens@.len() - i,
        {
            let ghost before = token_views(set@);
            let n = set.len();
            let ghost tv = token_views(tokens@);
            assert(tv.subrange(0, i + 1) =~= tv.subrange(0, i as int).push(tokens@[i as int]@));
            if !Self::holds_among(&set, tokens[i].as_str(), n) {
                assert(before.subrange(0, n as int) =~= before);
                set.push(tokens[i].clone());
                assert(token_views(set@) =~= before.push(tokens@[i as int]@));
                assert forall|a: int, b: int| 0 <= a < b < set@.len() implies set@[a]@ != set@[b]@ by {
                    if b == n {
                        assert(before[a] == set@[a]@);
                    }
                }
                assert(token_views(set@).to_set() =~= tv.subrange(0, i + 1).to_set()) by {
                    lemma_push_to_set(before, tokens@[i as int]@);
                    lemma_push_to_set(tv.subrange(0, i as int), tokens@[i as int]@);
                }
            } else {
                assert(before.subrange(0, n as int) =~= before);
                assert(token_views(set@).to_set() =~= tv.subrange(0, i + 1).to_set()) by {
                    lemma_push_to_set(tv.subrange(0, i as int), tokens@[i as int]@);
                    assert(before.to_set().contains(tokens@[i as int]@));
                }
            }
            i = i + 1;
        }
        assert(token_views(tokens@).subrange(0, tokens@.len() as int) =~= token_views(tokens@));
        TokenSet { tokens: set }
    }

    /// A token set holding exactly one token.
    pub fn single(token: String) -> (r: Self)
        ensures
            r@ == set![token@],
    {
        let mut tokens: Vec<String> = Vec::new();
        tokens.push(token);
        let r = TokenSet { tokens };
        assert(token_views(r.tokens@) =~= seq![token@]);
        assert(seq![token@].to_set() =~= set![token@]) by {
            assert(seq![token@].contains(token@) ==> seq![token@][0] == token@);
            assert forall|x: Seq<char>| seq![token@].to_set().contains(x) <==> set![token@].contains(x) by {
                if x == token@ {
                    assert(seq![token@][0] == x);
                }
            }
        }
        r
    }

    /// Whether `token` is accepted.
    pub fn contains(&self, token: &str) -> (r: bool)
        ensures
            r == self@.contains(token@),
    {
        let n = self.tokens.len();
        let r = Self::holds_among(&self.tokens, token, n);
        assert(token_views(self.tokens@).subrange(0, n as int) =~= token_views(self.tokens@));
        r
    }

    /// The number of accepted tokens.
    pub fn len(&self) -> (r: usize)
        ensures
            r == self@.len(),
    {
        proof {
            use_type_invariant(self);
            self.lemma_count();
        }
        self.tokens.len()
    }

    /// Whether no token is accepted.
    pub fn is_empty(&self) -> (r: bool)
        ensures
            r == (self@.len() == 0),
    {
        proof {
            use_type_invariant(self);
            self.lemma_count();
        }
        self.tokens.len() == 0
    }
}

/// The token of an `Authorization` header value: what follows `Bearer `,
/// trimmed; `None` when the value does not start with `Bearer `.
pub open spec fn bearer_token_spec(value: Seq<char>) -> Option<Seq<char>> {
    let prefix = seq!['B', 'e', 'a', 'r', 'e', 'r', ' '];
    if is_prefix(prefix, value) {
        Some(trim_spec(value.subrange(7, value.len() as int)))
    } else {
        None
    }
}

/// The bearer token of an `Authorization` header value.
pub fn extract_bearer_token(value: &str) -> (r: Option<String>)
    ensures
        match r {
            Some(t) => bearer_token_spec(value@) == Some(t@),
            None => bearer_token_spec(value@) is None,
        },
{
    let v = chars_of(value);
    let p = chars_of("Bearer ");
    proof {
        reveal_strlit("Bearer ");
    }
    if v.len() < 7 {
        return None;
    }
    let mut i: usize = 0;
    while i < 7
        invariant
            v@ == value@,
            p@ == seq!['B', 'e', 'a', 'r', 'e', 'r', ' '],
            7 <= v@.len(),
            i <= 7,
            v@.subrange(0, i as int) == p@.subrange(0, i as int),
        decreases 7 - i,
    {
        if v[i] != p[i] {
            assert(v@.subrange(0, 7)[i as int] != p@[i as int]);
            return None;
        }
        assert(v@.subrange(0, i + 1) =~= v@.subrange(0, i as int).push(v@[i as int]));
        assert(p@.subrange(0, i + 1) =~= p@.subrange(0, i as int).push(p@[i as int]));
        i = i + 1;
    }
    assert(p@.subrange(0, 7) =~= p@);
    let mut a: usize = 7;
    let n = v.len();
    while a < n && is_whitespace(v[a])
        invariant
            7 <= a <= n,
            n == v@.len(),
            crate::catalog::trim_start_spec(v@.subrange(a as int, n as int)) == crate::catalog::trim_start_spec(
                v@.subrange(7, n as int),
            ),
        decreases n - a,
    {
        assert(v@.subrange(a as int, n as int).drop_first() =~= v@.subrange(a + 1, n as int));
        a = a + 1;
    }
    let mut b: usize = n;
    while b > a && is_whitespace(v[b - 1])
        invariant
            a <= b <= n,
            n == v@.len(),
            crate::catalog::trim_end_spec(v@.subrange(a as int, b as int)) == crate::catalog::trim_end_spec(
                v@.subrange(a as int, n as int),
            ),
        decreases b - a,
    {
        assert(v@.subrange(a as int, b as int).drop_last() =~= v@.subrange(a as int, b - 1));
        b = b - 1;
    }
    let mut out: Vec<char> = Vec::new();
    let mut k: usize = a;
    while k < b
        invariant
            a <= k <= b <= n,
            n == v@.len(),
            out@ == v@.subrange(a as int, k as int),
        decreases b - k,
    {
        out.push(v[k]);
        assert(v@.subrange(a as int, k + 1) =~= v@.subrange(a as int, k as int).push(v@[k as int]));
        k = k + 1;
    }
    Some(string_of(out.as_slice()))
}

/// What the authentication middleware does with a request.
#[derive(Clone, Copy, Debug, PartialEq, Eq)]
pub enum AuthDecision {
    /// The bearer token is accepted: pass the request on.
    Allow,
    /// A bearer token was given but is not accepted (`auth.invalid_token`).
    InvalidToken,
    /// No bearer token was given (`auth.missing_token`).
    MissingToken,
}

/// The middleware's decision for a request whose `Authorization` header has
/// the given value (if any).
pub fn authorize(tokens: &TokenSet, authorization: Option<&str>) -> (r: AuthDecision)
    ensures
        r == match authorization {
            None => AuthDecision::MissingToken,
            Some(v) => match bearer_token_spec(v@) {
                None => AuthDecision::MissingToken,
                Some(t) => if tokens@.contains(t) {
                    AuthDecision::Allow
                } else {
                    AuthDecision::InvalidToken
                },
            },
        },
{
    match authorization {
        None => AuthDecision::MissingToken,
        Some(v) => match extract_bearer_token(v) {
            None => AuthDecision::MissingToken,
            Some(t) => if tokens.contains(t.as_str()) {
                AuthDecision::Allow
            } else {
                AuthDecision::InvalidToken
            },
        },
    }
}

} // verus!
