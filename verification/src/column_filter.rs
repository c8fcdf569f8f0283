//! Free-text filtering of column names: a list of tokens drawn from a query
//! string, each matched against a name as a substring, prefix or suffix,
//! combined conjunctively or disjunctively, case-sensitively or not.
//!
//! Matching works on the UTF-8 bytes of the names. Case-insensitive mode
//! folds the ASCII letters only, by design: non-ASCII characters take part
//! in matching byte for byte, so two names differing only in the case of a
//! character outside ASCII are distinct even when case is ignored.

use vstd::prelude::*;
use vstd::string::StringSliceAdditionalSpecFns;

verus! {

/// How one token is matched against a name.
#[derive(Debug, Clone, Copy, PartialEq, Eq, Structural)]
pub enum Interpretation {
    Contains,
    Prefix,
    Postfix,
}

/// How the token matches combine.
#[derive(Debug, Clone, Copy, PartialEq, Eq, Structural)]
pub enum Operator {
    And,
    Or,
}

/// An ASCII whitespace byte.
pub open spec fn is_ws(c: u8) -> bool {
    c == 32 || c == 9 || c == 10 || c == 13
}

/// An ASCII capital letter folded to its small form; other bytes unchanged.
pub open spec fn lower_byte(c: u8) -> u8 {
    if 65 <= c <= 90 {
        (c + 32) as u8
    } else {
        c
    }
}

/// ASCII case folding of a byte string.
pub open spec fn lower_bytes(s: Seq<u8>) -> Seq<u8> {
    s.map_values(|c: u8| lower_byte(c))
}

/// `t` occurs in `c` starting at position `p`.
pub open spec fn occurs_at(c: Seq<u8>, t: Seq<u8>, p: int) -> bool {
    0 <= p && p + t.len() <= c.len() && c.subrange(p, p + t.len()) == t
}

/// `t` occurs somewhere in `c`.
pub open spec fn is_substring(c: Seq<u8>, t: Seq<u8>) -> bool {
    exists|p: int| occurs_at(c, t, p)
}

/// `t` begins `c`.
pub open spec fn is_prefix(c: Seq<u8>, t: Seq<u8>) -> bool {
    t.len() <= c.len() && c.subrange(0, t.len() as int) == t
}

/// `t` ends `c`.
pub open spec fn is_postfix(c: Seq<u8>, t: Seq<u8>) -> bool {
    t.len() <= c.len() && c.subrange(c.len() - t.len(), c.len() as int) == t
}

/// The first whitespace position at or after `i`, or the length.
pub open spec fn token_end(s: Seq<u8>, i: int) -> int
    decreases s.len() - i,
{
    if i < 0 || i >= s.len() {
        s.len() as int
    } else if is_ws(s[i]) {
        i
    } else {
        token_end(s, i + 1)
    }
}

/// The end of a token lies between its start and the length.
pub proof fn lemma_token_end(s: Seq<u8>, i: int)
    requires
        0 <= i <= s.len(),
    ensures
        i <= token_end(s, i) <= s.len(),
    decreases s.len() - i,
{
    if i < s.len() && !is_ws(s[i]) {
        lemma_token_end(s, i + 1);
    }
}

/// The whitespace-separated tokens of `s` from position `i` on.
pub open spec fn split_ws(s: Seq<u8>, i: int) -> Seq<Seq<u8>>
    decreases s.len() - i,
    via split_ws_decreases
{
    if i < 0 || i >= s.len() {
        Seq::empty()
    } else if is_ws(s[i]) {
        split_ws(s, i + 1)
    } else {
        seq![s.subrange(i, token_end(s, i))] + split_ws(s, token_end(s, i))
    }
}

#[via_fn]
proof fn split_ws_decreases(s: Seq<u8>, i: int) {
    if 0 <= i < s.len() && !is_ws(s[i]) {
        lemma_token_end(s, i);
        assert(token_end(s, i) == token_end(s, i + 1));
        lemma_token_end(s, i + 1);
    }
}

/// One token matched against a (possibly folded) name.
pub open spec fn token_matches(interp: Interpretation, name: Seq<u8>, token: Seq<u8>) -> bool {
    match interp {
        Interpretation::Contains => is_substring(name, token),
        Interpretation::Prefix => is_prefix(name, token),
        Interpretation::Postfix => is_postfix(name, token),
    }
}

/// A free-text filter over column names.
pub struct ColumnFilter {
    pub tokens: Vec<Vec<u8>>,
    pub interpretation: Interpretation,
    pub operator: Operator,
    pub case_sensitive: bool,
}

impl ColumnFilter {
    /// Whether the filter accepts a name with these UTF-8 bytes: every token
    /// matches under AND, some token matches under OR, against the name
    /// folded when the filter is case-insensitive.
    pub open spec fn accepts(self, name: Seq<u8>) -> bool {
        let folded = if self.case_sensitive {
            name
        } else {
            lower_bytes(name)
        };
        match self.operator {
            Operator::And => forall|k: int|
                0 <= k < self.tokens@.len() ==> token_matches(
                    self.interpretation,
                    folded,
                    (#[trigger] self.tokens@[k])@,
                ),
            Operator::Or => exists|k: int|
                0 <= k < self.tokens@.len() && token_matches(
                    self.interpretation,
                    folded,
                    (#[trigger] self.tokens@[k])@,
                ),
        }
    }

    /// The filter with no tokens: conjunctive, so it accepts every name.
    pub fn new() -> (r: ColumnFilter)
        ensures
            r.tokens@.len() == 0,
            r.interpretation == Interpretation::Contains,
            r.operator == Operator::And,
            r.case_sensitive,
            forall|name: Seq<u8>| r.accepts(name),
    {
        ColumnFilter {
            tokens: Vec::new(),
            interpretation: Interpretation::Contains,
            operator: Operator::And,
            case_sensitive: true,
        }
    }

    /// Build a filter from query text: the whitespace-separated tokens of the
    /// text, folded when case-insensitive.
    pub fn from_text(text: &str, interpretation: Interpretation, operator: Operator,
        case_sensitive: bool) -> (r: ColumnFilter)
        ensures
            r.interpretation == interpretation,
            r.operator == operator,
            r.case_sensitive == case_sensitive,
            r.tokens@.map_values(|t: Vec<u8>| t@) == (if case_sensitive {
                split_ws(text.spec_bytes(), 0)
            } else {
                split_ws(lower_bytes(text.spec_bytes()), 0)
            }),
    {
        let raw = text.as_bytes();
        let mut bytes: Vec<u8> = Vec::new();
        let ghost target: Seq<u8> = if case_sensitive {
            text.spec_bytes()
        } else {
            lower_bytes(text.spec_bytes())
        };
        let mut i: usize = 0;
        while i < raw.len()
            invariant
                i <= raw@.len(),
                raw@ == text.spec_bytes(),
                target == (if case_sensitive {
                    text.spec_bytes()
                } else {
                    lower_bytes(text.spec_bytes())
                }),
                bytes@ =~= target.take(i as int),
            decreases raw@.len() - i,
        {
            let c = raw[i];
            let folded: u8 = if !case_sensitive && 65 <= c && c <= 90 {
                c + 32
            } else {
                c
            };
            bytes.push(folded);
            proof {
                assert(bytes@ =~= target.take(i + 1));
            }
            i = i + 1;
        }
        proof {
            assert(bytes@ =~= target);
        }
        let tokens = split_tokens(&bytes);
        ColumnFilter { tokens, interpretation, operator, case_sensitive }
    }

    /// Whether the filter accepts this column name.
    #[verifier::loop_isolation(false)]
    pub fn filter(&self, column: &str) -> (r: bool)
        ensures
            r == self.accepts(column.spec_bytes()),
    {
        let raw = column.as_bytes();
        let mut name: Vec<u8> = Vec::new();
        let ghost target: Seq<u8> = if self.case_sensitive {
            column.spec_bytes()
        } else {
            lower_bytes(column.spec_bytes())
        };
        let mut i: usize = 0;
        while i < raw.len()
            invariant
                i <= raw@.len(),
                raw@ == column.spec_bytes(),
                target == (if self.case_sensitive {
                    column.spec_bytes()
                } else {
                    lower_bytes(column.spec_bytes())
                }),
                name@ =~= target.take(i as int),
            decreases raw@.len() - i,
        {
            let c = raw[i];
            let folded: u8 = if !self.case_sensitive && 65 <= c && c <= 90 {
                c + 32
            } else {
                c
            };
            name.push(folded);
            proof {
                assert(name@ =~= target.take(i + 1));
            }
            i = i + 1;
        }
        proof {
            assert(name@ =~= target);
        }
        match self.operator {
            Operator::And => {
                let mut k: usize = 0;
                while k < self.tokens.len()
                    invariant
                        k <= self.tokens@.len(),
                        name@ == target,
                        forall|j: int|
                            0 <= j < k ==> token_matches(
                                self.interpretation,
                                target,
                                (#[trigger] self.tokens@[j])@,
                            ),
                    decreases self.tokens@.len() - k,
                {
                    if !match_token(self.interpretation, &name, &self.tokens[k]) {
                        return false;
                    }
                    k = k + 1;
                }
                true
            },
            Operator::Or => {
                let mut k: usize = 0;
                while k < self.tokens.len()
                    invariant
                        k <= self.tokens@.len(),
                        name@ == target,
                        forall|j: int|
                            0 <= j < k ==> !token_matches(
                                self.interpretation,
                                target,
                                (#[trigger] self.tokens@[j])@,
                            ),
                    decreases self.tokens@.len() - k,
                {
                    if match_token(self.interpretation, &name, &self.tokens[k]) {
                        return true;
                    }
                    k = k + 1;
                }
                false
            },
        }
    }
}

/// Whether the bytes of `c` from `p` on begin with `t`.
#[verifier::loop_isolation(false)]
fn begins_at(c: &Vec<u8>, t: &Vec<u8>, p: usize) -> (r: bool)
    requires
        p + t@.len() <= c@.len(),
    ensures
        r == occurs_at(c@, t@, p as int),
{
    let n = c.len();
    let mut k: usize = 0;
    while k < t.len()
        invariant
            k <= t@.len(),
            p + t@.len() <= c@.len(),
            forall|j: int| 0 <= j < k ==> c@[p + j] == t@[j],
        decreases t@.len() - k,
    {
        if c[p + k] != t[k] {
            proof {
                assert(c@.subrange(p as int, p + t@.len())[k as int] != t@[k as int]);
            }
            return false;
        }
        k = k + 1;
    }
    proof {
        assert(c@.subrange(p as int, p + t@.len()) =~= t@);
    }
    true
}

/// Match one token against a byte string under one interpretation.
#[verifier::loop_isolation(false)]
fn match_token(interp: Interpretation, name: &Vec<u8>, token: &Vec<u8>) -> (r: bool)
    ensures
        r == token_matches(interp, name@, token@),
{
    if token.len() > name.len() {
        proof {
            if exists|p: int| occurs_at(name@, token@, p) {
                let p = choose|p: int| occurs_at(name@, token@, p);
                assert(p + token@.len() <= name@.len());
            }
        }
        return false;
    }
    if token.len() == 0 {
        proof {
            assert(name@.subrange(0, 0) =~= token@);
            assert(occurs_at(name@, token@, 0));
            assert(name@.subrange(0, token@.len() as int) =~= token@);
            assert(name@.subrange(name@.len() - token@.len(), name@.len() as int) =~= token@);
        }
        return true;
    }
    match interp {
        Interpretation::Contains => {
            let mut p: usize = 0;
            while p <= name.len() - token.len()
                invariant
                    token@.len() <= name@.len(),
                    p <= name@.len() - token@.len() + 1,
                    forall|q: int| 0 <= q < p ==> !occurs_at(name@, token@, q),
                decreases name@.len() - token@.len() - p + 1,
            {
                if begins_at(name, token, p) {
                    proof {
                        assert(occurs_at(name@, token@, p as int));
                    }
                    return true;
                }
                p = p + 1;
            }
            proof {
                if exists|q: int| occurs_at(name@, token@, q) {
                    let q = choose|q: int| occurs_at(name@, token@, q);
                    assert(!occurs_at(name@, token@, q));
                }
            }
            false
        },
        Interpretation::Prefix => {
            let r = begins_at(name, token, 0);
            proof {
                assert(name@.subrange(0, token@.len() as int) == name@.subrange(
                    0int,
                    0 + token@.len() as int,
                ));
            }
            r
        },
        Interpretation::Postfix => {
            let p = name.len() - token.len();
            let r = begins_at(name, token, p);
            proof {
                assert(name@.subrange(name@.len() - token@.len(), name@.len() as int)
                    == name@.subrange(p as int, p + token@.len()));
            }
            r
        },
    }
}

/// Split a byte string into its whitespace-separated tokens.
#[verifier::loop_isolation(false)]
fn split_tokens(s: &Vec<u8>) -> (r: Vec<Vec<u8>>)
    ensures
        r@.map_values(|t: Vec<u8>| t@) == split_ws(s@, 0),
{
    let mut out: Vec<Vec<u8>> = Vec::new();
    let mut i: usize = 0;
    while i < s.len()
        invariant
            i <= s@.len(),
            split_ws(s@, 0) == out@.map_values(|t: Vec<u8>| t@) + split_ws(s@, i as int),
        decreases s@.len() - i,
    {
        let c = s[i];
        if c == 32 || c == 9 || c == 10 || c == 13 {
            i = i + 1;
        } else {
            let start = i;
            let mut piece: Vec<u8> = Vec::new();
            let mut j: usize = i;
            while j < s.len() && !(s[j] == 32 || s[j] == 9 || s[j] == 10 || s[j] == 13)
                invariant
                    start <= j <= s@.len(),
                    piece@ =~= s@.subrange(start as int, j as int),
                    forall|q: int| start <= q < j ==> !is_ws(s@[q]),
                decreases s@.len() - j,
            {
                piece.push(s[j]);
                proof {
                    assert(piece@ =~= s@.subrange(start as int, j + 1));
                }
                j = j + 1;
            }
            proof {
                lemma_token_end_scan(s@, start as int, j as int);
                assert(piece@ =~= s@.subrange(start as int, token_end(s@, start as int)));
                let ghost prev = out@.map_values(|t: Vec<u8>| t@);
                assert(split_ws(s@, start as int) == seq![piece@] + split_ws(s@, j as int));
                assert(out@.push(piece).map_values(|t: Vec<u8>| t@) =~= prev + seq![piece@]);
                assert((prev + seq![piece@]) + split_ws(s@, j as int) =~= prev + (seq![piece@]
                    + split_ws(s@, j as int)));
            }
            out.push(piece);
            i = j;
        }
    }
    proof {
        assert(out@.map_values(|t: Vec<u8>| t@) + split_ws(s@, i as int) =~= out@.map_values(
            |t: Vec<u8>| t@,
        ));
    }
    out
}

/// A scan that stops at the first whitespace finds the token end.
proof fn lemma_token_end_scan(s: Seq<u8>, start: int, j: int)
    requires
        0 <= start <= j <= s.len(),
        forall|q: int| start <= q < j ==> !is_ws(s[q]),
        j == s.len() || is_ws(s[j]),
    ensures
        token_end(s, start) == j,
    decreases j - start,
{
    if start < j {
        lemma_token_end_scan(s, start + 1, j);
    }
}

} // verus!
