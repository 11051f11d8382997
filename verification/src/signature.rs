//! The signature type: a fixed-length sequence of byte constraints, parsed
//! from a textual pattern such as `"68 ?? 6C 6C 6F"`.

use vstd::prelude::*;
use vstd::string::StrSliceExecFns;

verus! {

/// A byte-pattern signature: an ordered sequence of byte constraints.
/// Each position either requires an exact byte value (`Some(b)`) or is a
/// wildcard (`None`) that matches any byte.
pub struct Signature {
    constraints: Vec<Option<u8>>,
}

impl View for Signature {
    type V = Seq<Option<u8>>;

    closed spec fn view(&self) -> Seq<Option<u8>> {
        self.constraints@
    }
}

/// The characters that separate tokens in a signature pattern.
pub open spec fn is_space(c: char) -> bool {
    c == ' ' || c == '\t' || c == '\n' || c == '\r' || c == '\u{c}'
}

/// Whether `c` is a hexadecimal digit.
pub open spec fn is_hex_digit(c: char) -> bool {
    ('0' <= c && c <= '9') || ('a' <= c && c <= 'f') || ('A' <= c && c <= 'F')
}

/// The numeric value of a hexadecimal digit.
pub open spec fn hex_digit_value(c: char) -> u8
    recommends
        is_hex_digit(c),
{
    if '0' <= c && c <= '9' {
        (c as int - '0' as int) as u8
    } else if 'a' <= c && c <= 'f' {
        (c as int - 'a' as int + 10) as u8
    } else {
        (c as int - 'A' as int + 10) as u8
    }
}

/// What a single token denotes: `None` if the token is malformed,
/// `Some(None)` for the wildcard token `??`, and `Some(Some(b))` for a
/// two-hex-digit token with value `b`.
pub open spec fn parse_token(t: Seq<char>) -> Option<Option<u8>> {
    if t.len() == 2 && t[0] == '?' && t[1] == '?' {
        Some(None)
    } else if t.len() == 2 && is_hex_digit(t[0]) && is_hex_digit(t[1]) {
        Some(Some((16 * hex_digit_value(t[0]) + hex_digit_value(t[1])) as u8))
    } else {
        None
    }
}

/// The longest prefix of `s` that contains no separator.
pub open spec fn token_prefix(s: Seq<char>) -> Seq<char>
    decreases s.len(),
{
    if s.len() == 0 || is_space(s[0]) {
        Seq::empty()
    } else {
        seq![s[0]] + token_prefix(s.skip(1))
    }
}

/// The token prefix is never longer than the string it is taken from, and
/// is nonempty whenever the string starts with a non-separator character.
proof fn lemma_token_prefix_len(s: Seq<char>)
    ensures
        token_prefix(s).len() <= s.len(),
        s.len() > 0 && !is_space(s[0]) ==> token_prefix(s).len() >= 1,
    decreases s.len(),
{
    if s.len() == 0 || is_space(s[0]) {
    } else {
        lemma_token_prefix_len(s.skip(1));
    }
}

/// The whitespace-separated tokens of `s`: the maximal runs of
/// non-separator characters, in order.
pub open spec fn tokens_of(s: Seq<char>) -> Seq<Seq<char>>
    decreases s.len(),
    via tokens_of_decreases
{
    if s.len() == 0 {
        Seq::empty()
    } else if is_space(s[0]) {
        tokens_of(s.skip(1))
    } else {
        seq![token_prefix(s)] + tokens_of(s.skip(token_prefix(s).len() as int))
    }
}

#[via_fn]
proof fn tokens_of_decreases(s: Seq<char>) {
    if s.len() > 0 && !is_space(s[0]) {
        lemma_token_prefix_len(s);
    }
}

/// The token prefix is exactly the run of characters up to the first
/// separator (or up to the end, when no separator follows).
proof fn lemma_token_prefix_is(s: Seq<char>, k: int)
    requires
        0 <= k <= s.len(),
        forall|m: int| 0 <= m < k ==> !is_space(s[m]),
        k == s.len() || is_space(s[k]),
    ensures
        token_prefix(s) == s.subrange(0, k),
    decreases k,
{
    if k == 0 {
        assert(token_prefix(s) =~= s.subrange(0, 0));
    } else {
        let rest = s.skip(1);
        assert(forall|m: int| 0 <= m < k - 1 ==> rest[m] == s[m + 1] && !is_space(s[m + 1]));
        assert(k - 1 < rest.len() ==> rest[k - 1] == s[k]);
        lemma_token_prefix_is(rest, k - 1);
        assert(token_prefix(s) =~= s.subrange(0, k));
    }
}

/// Skipping one leading separator leaves the token list unchanged.
proof fn lemma_tokens_of_skip_space(s: Seq<char>, i: int)
    requires
        0 <= i < s.len(),
        is_space(s[i]),
    ensures
        tokens_of(s.skip(i)) == tokens_of(s.skip(i + 1)),
{
    let rem = s.skip(i);
    assert(rem[0] == s[i]);
    assert(rem.skip(1) =~= s.skip(i + 1));
}

/// A maximal run of non-separator characters at position `i` is the next
/// token, followed by the tokens of the rest of the string.
proof fn lemma_tokens_of_token(s: Seq<char>, i: int, j: int)
    requires
        0 <= i < j <= s.len(),
        forall|m: int| i <= m < j ==> !is_space(s[m]),
        j == s.len() || is_space(s[j]),
    ensures
        tokens_of(s.skip(i)) == seq![s.subrange(i, j)] + tokens_of(s.skip(j)),
{
    let rem = s.skip(i);
    assert(forall|m: int| 0 <= m < j - i ==> rem[m] == s[i + m] && !is_space(s[i + m]));
    assert(j < s.len() ==> rem[j - i] == s[j]);
    lemma_token_prefix_is(rem, j - i);
    assert(token_prefix(rem) =~= s.subrange(i, j));
    assert(rem.skip(j - i) =~= s.skip(j));
    assert(tokens_of(rem) == seq![token_prefix(rem)]
        + tokens_of(rem.skip(token_prefix(rem).len() as int)));
}

/// The constraint sequence denoted by a token list, or `None` if any token
/// is malformed.
pub open spec fn sig_of_tokens(toks: Seq<Seq<char>>) -> Option<Seq<Option<u8>>> {
    if forall|k: int| 0 <= k < toks.len() ==> (#[trigger] parse_token(toks[k])) is Some {
        Some(Seq::new(toks.len(), |k: int| parse_token(toks[k]).unwrap()))
    } else {
        None
    }
}

/// The constraint sequence denoted by a whole signature pattern, or `None`
/// if any of its tokens is malformed.
pub open spec fn parse_sig(s: Seq<char>) -> Option<Seq<Option<u8>>> {
    sig_of_tokens(tokens_of(s))
}

/// The signature `sig` matches the buffer `data` at offset `off`: the whole
/// window fits inside the buffer, and every exact-byte constraint agrees
/// with the byte under it; wildcard positions match any byte.
pub open spec fn matches_at(sig: Seq<Option<u8>>, data: Seq<u8>, off: int) -> bool {
    &&& 0 <= off
    &&& off + sig.len() <= data.len()
    &&& forall|k: int| 0 <= k < sig.len() ==> match #[trigger] sig[k] {
            Some(b) => data[off + k] == b,
            None => true,
        }
}

/// Reports whether `c` separates tokens.
fn char_is_space(c: char) -> (r: bool)
    ensures
        r == is_space(c),
{
    c == ' ' || c == '\t' || c == '\n' || c == '\r' || c == '\u{c}'
}

/// The value of a hexadecimal digit character, or `None` for any other
/// character.
fn hex_digit(c: char) -> (r: Option<u8>)
    ensures
        r is Some <==> is_hex_digit(c),
        r matches Some(v) ==> v == hex_digit_value(c),
{
    let u = c as u32;
    if u >= 0x30 && u <= 0x39 {
        Some((u - 0x30) as u8)
    } else if u >= 0x61 && u <= 0x66 {
        Some((u - 0x61 + 10) as u8)
    } else if u >= 0x41 && u <= 0x46 {
        Some((u - 0x41 + 10) as u8)
    } else {
        None
    }
}

impl Signature {
    /// Parse a signature pattern: whitespace-separated tokens, each either a
    /// two-hex-digit byte or the wildcard token `??`. Returns `None` exactly
    /// when some token is malformed.
    pub fn new(sig: &str) -> (r: Option<Signature>)
        ensures
            match r {
                Some(g) => parse_sig(sig@) == Some(g@),
                None => parse_sig(sig@) is None,
            },
    {
        let n = sig.unicode_len();
        let mut constraints: Vec<Option<u8>> = Vec::new();
        let ghost mut toks: Seq<Seq<char>> = Seq::empty();
        let mut i: usize = 0;
        proof {
            assert(sig@.skip(0) =~= sig@);
            assert(toks + tokens_of(sig@) =~= tokens_of(sig@));
        }
        while i < n
            invariant
                n == sig@.len(),
                i <= n,
                tokens_of(sig@) == toks + tokens_of(sig@.skip(i as int)),
                constraints@.len() == toks.len(),
                forall|k: int| 0 <= k < toks.len()
                    ==> #[trigger] parse_token(toks[k]) == Some(constraints@[k]),
            decreases n - i,
        {
            let c = sig.get_char(i);
            if char_is_space(c) {
                proof {
                    lemma_tokens_of_skip_space(sig@, i as int);
                }
                i = i + 1;
            } else {
                let start = i;
                let mut j: usize = i + 1;
                loop
                    invariant_except_break
                        n == sig@.len(),
                        start < j <= n,
                        start == i,
                        forall|m: int| start <= m < j ==> !is_space(sig@[m]),
                    ensures
                        start < j <= n,
                        forall|m: int| start <= m < j ==> !is_space(sig@[m]),
                        j == n || is_space(sig@[j as int]),
                    decreases n - j,
                {
                    if j == n {
                        break;
                    }
                    let cj = sig.get_char(j);
                    if char_is_space(cj) {
                        break;
                    }
                    j = j + 1;
                }
                proof {
                    lemma_tokens_of_token(sig@, start as int, j as int);
                }
                let ghost t = sig@.subrange(start as int, j as int);
                let ghost all = tokens_of(sig@);
                proof {
                    assert(all =~= (toks + seq![t]) + tokens_of(sig@.skip(j as int)));
                    assert(all[toks.len() as int] == t);
                }
                if j - start == 2 {
                    let c1 = sig.get_char(start + 1);
                    proof {
                        assert(t.len() == 2 && t[0] == c && t[1] == c1);
                    }
                    let parsed: Option<Option<u8>> = if c == '?' && c1 == '?' {
                        Some(None)
                    } else {
                        match (hex_digit(c), hex_digit(c1)) {
                            (Some(h), Some(l)) => Some(Some(16 * h + l)),
                            _ => None,
                        }
                    };
                    match parsed {
                        Some(cons) => {
                            proof {
                                assert(parse_token(t) == Some(cons));
                                toks = toks + seq![t];
                            }
                            constraints.push(cons);
                            i = j;
                        },
                        None => {
                            proof {
                                assert(parse_token(t) is None);
                                assert(sig_of_tokens(all) is None);
                            }
                            return None;
                        },
                    }
                } else {
                    proof {
                        assert(t.len() != 2);
                        assert(parse_token(t) is None);
                        assert(sig_of_tokens(all) is None);
                    }
                    return None;
                }
            }
        }
        proof {
            assert(sig@.skip(n as int) =~= Seq::<char>::empty());
            assert(tokens_of(sig@) =~= toks);
            assert(Seq::new(toks.len(), |k: int| parse_token(toks[k]).unwrap()) =~= constraints@);
        }
        Some(Signature { constraints })
    }

    /// The number of byte constraints (the window length).
    pub fn len(&self) -> (n: usize)
        ensures
            n == self@.len(),
    {
        self.constraints.len()
    }

    /// The constraint at position `i`: `Some(b)` for an exact byte, `None`
    /// for a wildcard.
    pub fn get(&self, i: usize) -> (c: Option<u8>)
        requires
            i < self@.len(),
        ensures
            c == self@[i as int],
    {
        self.constraints[i]
    }

    /// Whether the signature matches at the start of `data`.
    pub fn compare(&self, data: &[u8]) -> (r: bool)
        requires
            self@.len() <= data@.len(),
        ensures
            r == matches_at(self@, data@, 0),
    {
        let m = self.constraints.len();
        let mut k: usize = 0;
        while k < m
            invariant
                m == self@.len(),
                m <= data@.len(),
                k <= m,
                forall|t: int| 0 <= t < k ==> match #[trigger] self@[t] {
                    Some(b) => data@[t] == b,
                    None => true,
                },
            decreases m - k,
        {
            match self.constraints[k] {
                Some(b) => {
                    if data[k] != b {
                        return false;
                    }
                },
                None => {},
            }
            k = k + 1;
        }
        true
    }
}

} // verus!
