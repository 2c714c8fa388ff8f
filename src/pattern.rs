//! Signature tokens, their textual form, and the first-match scan.
use vstd::prelude::*;
use vstd::string::StringSliceAdditionalSpecFns;

verus! {

/// One position of a signature: an exact byte or a wildcard.
#[derive(Clone, Copy, Debug, PartialEq, Eq, Structural)]
pub enum Token {
    Byte(u8),
    Wildcard,
}

/// Why a signature's text could not be read as tokens.
#[derive(Clone, Copy, Debug, PartialEq, Eq, Structural)]
pub enum PatternError {
    /// The text holds no token.
    Empty,
    /// A token is neither `?` nor two hexadecimal digits.
    MalformedToken,
}

/// Bytes that separate tokens: ASCII space, tab, line feed, form feed and
/// carriage return.
pub open spec fn is_separator(b: u8) -> bool {
    b == 0x20 || b == 0x09 || b == 0x0A || b == 0x0C || b == 0x0D
}

/// The value of a hexadecimal digit, of either case.
pub open spec fn hex_value(b: u8) -> Option<u8> {
    if 0x30 <= b <= 0x39 {
        Some((b - 0x30) as u8)
    } else if 0x41 <= b <= 0x46 {
        Some((b - 0x41 + 10) as u8)
    } else if 0x61 <= b <= 0x66 {
        Some((b - 0x61 + 10) as u8)
    } else {
        None
    }
}

/// The token that a word stands for: `?` is a wildcard, two hexadecimal
/// digits an exact byte; any other word is malformed.
pub open spec fn token_of(word: Seq<u8>) -> Option<Token> {
    if word.len() == 1 && word[0] == 0x3F {
        Some(Token::Wildcard)
    } else if word.len() == 2 && hex_value(word[0]) is Some && hex_value(word[1]) is Some {
        Some(Token::Byte((16 * hex_value(word[0])->0 + hex_value(word[1])->0) as u8))
    } else {
        None
    }
}

/// `head` followed by the tokens of `rest`, if `rest` parsed.
pub open spec fn prepend(head: Seq<Token>, rest: Option<Seq<Token>>) -> Option<Seq<Token>> {
    match rest {
        Some(r) => Some(head + r),
        None => None,
    }
}

/// Ends the word `word` in front of the tokens `rest` that follow it.
pub open spec fn end_word(word: Seq<u8>, rest: Option<Seq<Token>>) -> Option<Seq<Token>> {
    if word.len() == 0 {
        rest
    } else {
        match token_of(word) {
            Some(t) => prepend(seq![t], rest),
            None => None,
        }
    }
}

/// The tokens of `text`, read while the unfinished word `word` stands
/// before it; `None` when a word is malformed.
pub open spec fn tokens_after(text: Seq<u8>, word: Seq<u8>) -> Option<Seq<Token>>
    decreases text.len(),
{
    if text.len() == 0 {
        end_word(word, Some(seq![]))
    } else if is_separator(text[0]) {
        end_word(word, tokens_after(text.drop_first(), seq![]))
    } else {
        tokens_after(text.drop_first(), word.push(text[0]))
    }
}

/// The tokens of a signature's text, given as its UTF-8 bytes: the words
/// between separators, in order; `None` when a word is malformed.
pub open spec fn parsed_tokens(text: Seq<u8>) -> Option<Seq<Token>> {
    tokens_after(text, seq![])
}

/// Whether a token accepts the byte `b`.
pub open spec fn token_accepts(t: Token, b: u8) -> bool {
    match t {
        Token::Byte(v) => v == b,
        Token::Wildcard => true,
    }
}

/// Every token of `pattern` accepts the byte of `region` it is aligned with
/// when the pattern is laid down at index `i`, which leaves the whole
/// pattern inside the region.
pub open spec fn matches_at(region: Seq<u8>, pattern: Seq<Token>, i: int) -> bool {
    &&& 0 <= i
    &&& i + pattern.len() <= region.len()
    &&& forall|k: int| 0 <= k < pattern.len() ==> token_accepts(#[trigger] pattern[k], region[i + k])
}

/// `i` is the lowest index at which `pattern` matches `region`.
pub open spec fn is_first_match(region: Seq<u8>, pattern: Seq<Token>, i: int) -> bool {
    &&& matches_at(region, pattern, i)
    &&& forall|j: int| 0 <= j < i ==> !#[trigger] matches_at(region, pattern, j)
}

/// `pattern` matches somewhere in `region`.
pub open spec fn has_match(region: Seq<u8>, pattern: Seq<Token>) -> bool {
    exists|i: int| #[trigger] matches_at(region, pattern, i)
}

/// What a scan of the bytes `region`, which start at address `start`, may
/// answer: the lowest address of a match, or `None` when there is none. An
/// empty pattern is taken to match nowhere.
pub open spec fn scan_outcome(start: int, region: Seq<u8>, pattern: Seq<Token>, r: Option<usize>) -> bool {
    match r {
        Some(a) => pattern.len() > 0 && is_first_match(region, pattern, a - start),
        None => pattern.len() == 0 || !has_match(region, pattern),
    }
}

/// The value of a hexadecimal digit.
fn hex_digit(b: u8) -> (r: Option<u8>)
    ensures
        r == hex_value(b),
{
    if 0x30 <= b && b <= 0x39 {
        Some(b - 0x30)
    } else if 0x41 <= b && b <= 0x46 {
        Some(b - 0x41 + 10)
    } else if 0x61 <= b && b <= 0x66 {
        Some(b - 0x61 + 10)
    } else {
        None
    }
}

/// The token that the word `text[from..to]` stands for.
fn word_token(text: &[u8], from: usize, to: usize) -> (r: Option<Token>)
    requires
        from <= to <= text@.len(),
    ensures
        r == token_of(text@.subrange(from as int, to as int)),
{
    let ghost word = text@.subrange(from as int, to as int);
    if to - from == 1 && text[from] == 0x3F {
        return Some(Token::Wildcard);
    }
    if to - from != 2 {
        return None;
    }
    match (hex_digit(text[from]), hex_digit(text[from + 1])) {
        (Some(hi), Some(lo)) => {
            assert(word[0] == text@[from as int] && word[1] == text@[from + 1]);
            Some(Token::Byte(16 * hi + lo))
        },
        _ => {
            assert(word[0] == text@[from as int] && word[1] == text@[from + 1]);
            None
        },
    }
}

proof fn lemma_prepend_push(v: Seq<Token>, t: Token, rest: Option<Seq<Token>>)
    ensures
        prepend(v, prepend(seq![t], rest)) == prepend(v.push(t), rest),
{
    match rest {
        Some(r) => {
            assert(v + (seq![t] + r) =~= v.push(t) + r);
        },
        None => {},
    }
}

/// Reads a signature's text: tokens separated by ASCII whitespace, each `?`
/// (a wildcard) or two hexadecimal digits of either case (an exact byte).
pub fn parse_pattern(text: &str) -> (r: Result<Vec<Token>, PatternError>)
    ensures
        match r {
            Ok(v) => parsed_tokens(text.spec_bytes()) == Some(v@) && v@.len() > 0,
            Err(PatternError::Empty) => parsed_tokens(text.spec_bytes()) == Some(Seq::<Token>::empty()),
            Err(PatternError::MalformedToken) => parsed_tokens(text.spec_bytes()) is None,
        },
{
    let b = text.as_bytes();
    let n = b.len();
    let mut v: Vec<Token> = Vec::new();
    let mut from: usize = 0;
    let mut i: usize = 0;
    proof {
        assert(b@.subrange(0, n as int) =~= b@);
        assert(b@.subrange(0, 0) =~= Seq::<u8>::empty());
    }
    while i < n
        invariant
            b@ == text.spec_bytes(),
            n == b@.len(),
            from <= i <= n,
            parsed_tokens(b@) == prepend(
                v@,
                tokens_after(b@.subrange(i as int, n as int), b@.subrange(from as int, i as int)),
            ),
        decreases n - i,
    {
        let ghost rest = b@.subrange(i as int, n as int);
        let ghost word = b@.subrange(from as int, i as int);
        assert(rest.drop_first() =~= b@.subrange(i + 1, n as int));
        let c = b[i];
        assert(rest[0] == c);
        if c == 0x20 || c == 0x09 || c == 0x0A || c == 0x0C || c == 0x0D {
            assert(tokens_after(rest, word) == end_word(word, tokens_after(rest.drop_first(), seq![])));
            if from < i {
                match word_token(b, from, i) {
                    Some(t) => {
                        proof {
                            lemma_prepend_push(v@, t, tokens_after(rest.drop_first(), seq![]));
                        }
                        v.push(t);
                    },
                    None => {
                        return Err(PatternError::MalformedToken);
                    },
                }
            } else {
                assert(word.len() == 0);
            }
            i = i + 1;
            from = i;
            assert(b@.subrange(from as int, i as int) =~= Seq::<u8>::empty());
        } else {
            assert(tokens_after(rest, word) == tokens_after(rest.drop_first(), word.push(c)));
            assert(word.push(c) =~= b@.subrange(from as int, i + 1));
            i = i + 1;
        }
    }
    let ghost word = b@.subrange(from as int, n as int);
    assert(b@.subrange(n as int, n as int).len() == 0);
    if from < n {
        match word_token(b, from, n) {
            Some(t) => {
                proof {
                    lemma_prepend_push(v@, t, Some(seq![]));
                    assert(v@.push(t) + seq![] =~= v@.push(t));
                }
                v.push(t);
            },
            None => {
                return Err(PatternError::MalformedToken);
            },
        }
    } else {
        assert(v@ + seq![] =~= v@);
    }
    if v.len() == 0 {
        Err(PatternError::Empty)
    } else {
        Ok(v)
    }
}

/// Whether the tokens `pattern` accept the bytes of `region` from index `i` on.
fn matches_here(region: &[u8], pattern: &[Token], i: usize) -> (r: bool)
    requires
        i + pattern@.len() <= region@.len(),
    ensures
        r == matches_at(region@, pattern@, i as int),
{
    let n = region.len();
    let mut k: usize = 0;
    while k < pattern.len()
        invariant
            n == region@.len(),
            i + pattern@.len() <= region@.len(),
            k <= pattern@.len(),
            forall|m: int| 0 <= m < k ==> token_accepts(#[trigger] pattern@[m], region@[i + m]),
        decreases pattern@.len() - k,
    {
        let accepted = match pattern[k] {
            Token::Byte(v) => v == region[i + k],
            Token::Wildcard => true,
        };
        if !accepted {
            return false;
        }
        k = k + 1;
    }
    true
}

/// Scans the bytes `region`, which lie at addresses `start .. start + region.len()`,
/// for the first position at which `pattern` matches, and returns its address.
/// No read goes past the end of the region. An empty pattern finds nothing.
pub fn scan(start: usize, region: &[u8], pattern: &[Token]) -> (r: Option<usize>)
    requires
        start + region@.len() <= usize::MAX,
    ensures
        scan_outcome(start as int, region@, pattern@, r),
{
    if pattern.len() == 0 || pattern.len() > region.len() {
        return None;
    }
    let last = region.len() - pattern.len();
    let mut i: usize = 0;
    while i <= last
        invariant
            last + pattern@.len() == region@.len(),
            start + region@.len() <= usize::MAX,
            pattern@.len() > 0,
            forall|j: int| 0 <= j < i ==> !#[trigger] matches_at(region@, pattern@, j),
        decreases last + 1 - i,
    {
        if matches_here(region, pattern, i) {
            return Some(start + i);
        }
        i = i + 1;
    }
    assert forall|j: int| !#[trigger] matches_at(region@, pattern@, j) by {
        if 0 <= j && j < i {
        }
    }
    None
}

/// A region has at most one lowest match of a pattern.
pub proof fn lemma_first_match_unique(region: Seq<u8>, pattern: Seq<Token>, i: int, j: int)
    requires
        is_first_match(region, pattern, i),
        is_first_match(region, pattern, j),
    ensures
        i == j,
{
    if i < j {
        assert(matches_at(region, pattern, i));
    } else if j < i {
        assert(matches_at(region, pattern, j));
    }
}

/// A scan's answer is determined by the region, its start and the pattern:
/// two scans of the same unmodified bytes give the same result.
pub proof fn lemma_scan_deterministic(
    start: int,
    region: Seq<u8>,
    pattern: Seq<Token>,
    r1: Option<usize>,
    r2: Option<usize>,
)
    requires
        scan_outcome(start, region, pattern, r1),
        scan_outcome(start, region, pattern, r2),
    ensures
        r1 == r2,
{
    match (r1, r2) {
        (Some(a), Some(b)) => {
            lemma_first_match_unique(region, pattern, a - start, b - start);
        },
        (Some(a), None) => {
            assert(matches_at(region, pattern, a - start));
        },
        (None, Some(b)) => {
            assert(matches_at(region, pattern, b - start));
        },
        (None, None) => {},
    }
}

/// A pattern made only of wildcards, no longer than the region, matches at
/// the region's first address.
pub proof fn lemma_all_wildcards_match_at_start(
    start: int,
    region: Seq<u8>,
    pattern: Seq<Token>,
    r: Option<usize>,
)
    requires
        pattern.len() > 0,
        pattern.len() <= region.len(),
        forall|k: int| 0 <= k < pattern.len() ==> #[trigger] pattern[k] == Token::Wildcard,
        scan_outcome(start, region, pattern, r),
    ensures
        r == Some(start as usize),
{
    assert(matches_at(region, pattern, 0));
    match r {
        Some(a) => {
            if a - start > 0 {
                assert(!matches_at(region, pattern, 0));
            }
        },
        None => {},
    }
}

/// A pattern longer than the region is never found in it.
pub proof fn lemma_longer_pattern_absent(
    start: int,
    region: Seq<u8>,
    pattern: Seq<Token>,
    r: Option<usize>,
)
    requires
        pattern.len() > region.len(),
        scan_outcome(start, region, pattern, r),
    ensures
        r is None,
{
}

} // verus!
