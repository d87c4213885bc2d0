//! The circuit description language: a string of element names and brackets.
//!
//! An element name is one of the known multi-letter names (`TLMQ`, `Zarc`,
//! `CPE`, `Wo`, `Ws`, `La`, `Gs`), tried longest first, or else any single
//! character. `(` opens a group and `)` closes it.
use vstd::prelude::*;
use vstd::string::*;

verus! {

broadcast use is_ascii_spec_bytes;

/// What a token of a circuit string is.
pub enum TokenModel {
    Open,
    Close,
    Element(Seq<char>),
}

/// A token together with the character position where it starts.
pub struct TokenAt {
    pub kind: TokenModel,
    pub start: nat,
}

/// The number of characters of the element name that starts at `i`:
/// the longest known multi-letter name found there, else one character.
pub open spec fn element_width(s: Seq<char>, i: int) -> int {
    if i + 4 <= s.len() && ((s[i] == 'T' && s[i + 1] == 'L' && s[i + 2] == 'M' && s[i + 3] == 'Q')
        || (s[i] == 'Z' && s[i + 1] == 'a' && s[i + 2] == 'r' && s[i + 3] == 'c')) {
        4
    } else if i + 3 <= s.len() && s[i] == 'C' && s[i + 1] == 'P' && s[i + 2] == 'E' {
        3
    } else if i + 2 <= s.len() && ((s[i] == 'W' && (s[i + 1] == 'o' || s[i + 1] == 's')) || (
    s[i] == 'L' && s[i + 1] == 'a') || (s[i] == 'G' && s[i + 1] == 's')) {
        2
    } else {
        1
    }
}

/// The kind of the token that starts at `i`.
pub open spec fn token_kind_at(s: Seq<char>, i: int) -> TokenModel {
    if s[i] == '(' {
        TokenModel::Open
    } else if s[i] == ')' {
        TokenModel::Close
    } else {
        TokenModel::Element(s.subrange(i, i + element_width(s, i)))
    }
}

/// The number of characters of the token that starts at `i`.
pub open spec fn token_width(s: Seq<char>, i: int) -> int {
    if s[i] == '(' || s[i] == ')' {
        1
    } else {
        element_width(s, i)
    }
}

/// The tokens of `s` from position `i` on.
pub open spec fn tokens_from(s: Seq<char>, i: int) -> Seq<TokenAt>
    decreases s.len() - i,
{
    if i < 0 || i >= s.len() {
        Seq::empty()
    } else {
        seq![TokenAt { kind: token_kind_at(s, i), start: i as nat }] + tokens_from(
            s,
            i + token_width(s, i),
        )
    }
}

/// The tokens of a circuit string, left to right.
pub open spec fn tokens(s: Seq<char>) -> Seq<TokenAt> {
    tokens_from(s, 0)
}

/// The characters a token stands for.
pub open spec fn token_text(k: TokenModel) -> Seq<char> {
    match k {
        TokenModel::Open => seq!['('],
        TokenModel::Close => seq![')'],
        TokenModel::Element(name) => name,
    }
}

/// The characters of a token sequence, written one after the other.
pub open spec fn tokens_text(t: Seq<TokenAt>) -> Seq<char>
    decreases t.len(),
{
    if t.len() == 0 {
        Seq::empty()
    } else {
        token_text(t[0].kind) + tokens_text(t.drop_first())
    }
}

/// Writing the tokens from position `i` on one after the other gives back
/// the rest of the string from `i` on.
pub proof fn lemma_tokens_from_text(s: Seq<char>, i: int)
    requires
        0 <= i <= s.len(),
    ensures
        tokens_text(tokens_from(s, i)) == s.subrange(i, s.len() as int),
    decreases s.len() - i,
{
    if i < s.len() {
        let w = token_width(s, i);
        let t = tokens_from(s, i);
        lemma_tokens_from_text(s, i + w);
        assert(t.drop_first() =~= tokens_from(s, i + w));
        assert(token_text(t[0].kind) =~= s.subrange(i, i + w));
        assert(s.subrange(i, s.len() as int) =~= s.subrange(i, i + w) + s.subrange(
            i + w,
            s.len() as int,
        ));
    } else {
        assert(s.subrange(i, s.len() as int) =~= Seq::<char>::empty());
    }
}

/// Tokenizing loses nothing: the tokens of a circuit string, written one
/// after the other, give back the string.
pub proof fn lemma_tokens_text(s: Seq<char>)
    ensures
        tokens_text(tokens(s)) == s,
{
    lemma_tokens_from_text(s, 0);
    assert(s.subrange(0, s.len() as int) =~= s);
}

/// The characters of `s` from `i` on begin with `name`.
pub open spec fn name_at(s: Seq<char>, i: int, name: Seq<char>) -> bool {
    0 <= i && i + name.len() <= s.len() && s.subrange(i, i + name.len()) == name
}

/// The longest known element name at a position is read whole, whatever
/// follows it: `TLMQ` and `Zarc` take four characters, `CPE` three, `Wo`,
/// `Ws`, `La` and `Gs` two, and where none of them starts, one character is
/// the name.
pub proof fn lemma_known_names(s: Seq<char>, i: int)
    requires
        0 <= i < s.len(),
    ensures
        name_at(s, i, seq!['T', 'L', 'M', 'Q']) ==> element_width(s, i) == 4,
        name_at(s, i, seq!['Z', 'a', 'r', 'c']) ==> element_width(s, i) == 4,
        name_at(s, i, seq!['C', 'P', 'E']) ==> element_width(s, i) == 3,
        name_at(s, i, seq!['W', 'o']) ==> element_width(s, i) == 2,
        name_at(s, i, seq!['W', 's']) ==> element_width(s, i) == 2,
        name_at(s, i, seq!['L', 'a']) ==> element_width(s, i) == 2,
        name_at(s, i, seq!['G', 's']) ==> element_width(s, i) == 2,
        !name_at(s, i, seq!['T', 'L', 'M', 'Q']) && !name_at(s, i, seq!['Z', 'a', 'r', 'c'])
            && !name_at(s, i, seq!['C', 'P', 'E']) && !name_at(s, i, seq!['W', 'o']) && !name_at(
            s,
            i,
            seq!['W', 's'],
        ) && !name_at(s, i, seq!['L', 'a']) && !name_at(s, i, seq!['G', 's']) ==> element_width(s, i)
            == 1,
{
    let n = s.len();
    if i + 4 <= n {
        let w = s.subrange(i, i + 4);
        assert(w[0] == s[i] && w[1] == s[i + 1] && w[2] == s[i + 2] && w[3] == s[i + 3]);
        if s[i] == 'T' && s[i + 1] == 'L' && s[i + 2] == 'M' && s[i + 3] == 'Q' {
            assert(w =~= seq!['T', 'L', 'M', 'Q']);
        }
        if s[i] == 'Z' && s[i + 1] == 'a' && s[i + 2] == 'r' && s[i + 3] == 'c' {
            assert(w =~= seq!['Z', 'a', 'r', 'c']);
        }
    }
    if i + 3 <= n {
        let w = s.subrange(i, i + 3);
        assert(w[0] == s[i] && w[1] == s[i + 1] && w[2] == s[i + 2]);
        if s[i] == 'C' && s[i + 1] == 'P' && s[i + 2] == 'E' {
            assert(w =~= seq!['C', 'P', 'E']);
        }
    }
    if i + 2 <= n {
        let w = s.subrange(i, i + 2);
        assert(w[0] == s[i] && w[1] == s[i + 1]);
        if s[i] == 'W' && s[i + 1] == 'o' {
            assert(w =~= seq!['W', 'o']);
        }
        if s[i] == 'W' && s[i + 1] == 's' {
            assert(w =~= seq!['W', 's']);
        }
        if s[i] == 'L' && s[i + 1] == 'a' {
            assert(w =~= seq!['L', 'a']);
        }
        if s[i] == 'G' && s[i + 1] == 's' {
            assert(w =~= seq!['G', 's']);
        }
    }
}

/// Writing out tokens one after the other starts with the first token.
proof fn lemma_tokens_text_cons(x: TokenAt, r: Seq<TokenAt>)
    ensures
        tokens_text(seq![x] + r) == token_text(x.kind) + tokens_text(r),
{
    assert((seq![x] + r).drop_first() =~= r);
}

/// What each token from position `i` on is, in terms of the string.
proof fn lemma_tokens_from_agree(s: Seq<char>, i: int)
    requires
        0 <= i <= s.len(),
    ensures
        forall|j: int|
            0 <= j < tokens_from(s, i).len() ==> {
                let tk = #[trigger] tokens_from(s, i)[j];
                let st = tk.start as int;
                &&& i <= st < s.len()
                &&& st == i + tokens_text(tokens_from(s, i).take(j)).len()
                &&& match tk.kind {
                    TokenModel::Open => s[st] == '(',
                    TokenModel::Close => s[st] == ')',
                    TokenModel::Element(name) => s[st] != '(' && s[st] != ')' && name
                        == s.subrange(st, st + element_width(s, st)),
                }
            },
    decreases s.len() - i,
{
    if i < s.len() {
        let tf = tokens_from(s, i);
        let w = token_width(s, i);
        let rest = tokens_from(s, i + w);
        lemma_tokens_from_agree(s, i + w);
        assert(tf.take(0) =~= Seq::<TokenAt>::empty());
        assert(token_text(tf[0].kind).len() == w);
        assert forall|j: int| 0 < j < tf.len() implies {
            &&& #[trigger] tf[j] == rest[j - 1]
            &&& tokens_text(tf.take(j)) == token_text(tf[0].kind) + tokens_text(rest.take(j - 1))
        } by {
            assert(tf.take(j) =~= seq![tf[0]] + rest.take(j - 1));
            lemma_tokens_text_cons(tf[0], rest.take(j - 1));
        }
    }
}

/// The tokens agree with the string: each starts where the tokens before it
/// end, a bracket token stands on that bracket, and an element token is the
/// name that `parse_element_at` reads at its start.
pub proof fn lemma_tokens_agree(s: Seq<char>)
    ensures
        forall|j: int|
            0 <= j < tokens(s).len() ==> {
                let tk = #[trigger] tokens(s)[j];
                let st = tk.start as int;
                &&& 0 <= st < s.len()
                &&& st == tokens_text(tokens(s).take(j)).len()
                &&& match tk.kind {
                    TokenModel::Open => s[st] == '(',
                    TokenModel::Close => s[st] == ')',
                    TokenModel::Element(name) => s[st] != '(' && s[st] != ')' && name
                        == s.subrange(st, st + element_width(s, st)),
                }
            },
{
    lemma_tokens_from_agree(s, 0);
}

/// The kind of a token of a circuit string.
#[derive(Debug, Clone, PartialEq, Eq)]
pub enum TokenKind {
    Open,
    Close,
    Element(String),
}

impl View for TokenKind {
    type V = TokenModel;

    open spec fn view(&self) -> TokenModel {
        match self {
            TokenKind::Open => TokenModel::Open,
            TokenKind::Close => TokenModel::Close,
            TokenKind::Element(name) => TokenModel::Element(name@),
        }
    }
}

/// A token of a circuit string and the character position where it starts.
#[derive(Debug, Clone, PartialEq, Eq)]
pub struct Token {
    pub kind: TokenKind,
    pub start: usize,
}

impl View for Token {
    type V = TokenAt;

    open spec fn view(&self) -> TokenAt {
        TokenAt { kind: self.kind@, start: self.start as nat }
    }
}

/// The models of a sequence of tokens.
pub open spec fn token_models(v: Seq<Token>) -> Seq<TokenAt> {
    v.map_values(|t: Token| t@)
}

/// Parses the element identifier at position `idx` of `circuit`: the
/// longest known multi-letter element name found there, or else the single
/// character at `idx`. Returns the name and its length.
pub fn parse_element_at(circuit: &str, idx: usize) -> (res: (&str, usize))
    requires
        circuit.is_ascii(),
        idx < circuit@.len(),
    ensures
        res.1 == element_width(circuit@, idx as int),
        res.0@ == circuit@.subrange(idx as int, idx + res.1),
{
    let b = circuit.as_bytes();
    let n = b.len();
    let rest = n - idx;
    // 'T' 'L' 'M' 'Q' / 'Z' 'a' 'r' 'c'
    let width: usize = if rest >= 4 && ((b[idx] == 84u8 && b[idx + 1] == 76u8 && b[idx + 2] == 77u8
        && b[idx + 3] == 81u8) || (b[idx] == 90u8 && b[idx + 1] == 97u8 && b[idx + 2] == 114u8
        && b[idx + 3] == 99u8)) {
        4
    // 'C' 'P' 'E'
    } else if rest >= 3 && b[idx] == 67u8 && b[idx + 1] == 80u8 && b[idx + 2] == 69u8 {
        3
    // 'W' 'o' / 'W' 's' / 'L' 'a' / 'G' 's'
    } else if rest >= 2 && ((b[idx] == 87u8 && (b[idx + 1] == 111u8 || b[idx + 1] == 115u8)) || (
    b[idx] == 76u8 && b[idx + 1] == 97u8) || (b[idx] == 71u8 && b[idx + 1] == 115u8)) {
        2
    } else {
        1
    };
    (circuit.substring_ascii(idx, idx + width), width)
}

/// Splits a circuit string into its tokens, left to right.
pub fn tokenize(circuit: &str) -> (toks: Vec<Token>)
    requires
        circuit.is_ascii(),
    ensures
        token_models(toks@) == tokens(circuit@),
{
    let b = circuit.as_bytes();
    let n = b.len();
    let mut toks: Vec<Token> = Vec::new();
    let mut idx: usize = 0;
    while idx < n
        invariant
            circuit.is_ascii(),
            b@ == circuit.spec_bytes(),
            n == circuit@.len(),
            0 <= idx <= n,
            tokens(circuit@) == token_models(toks@) + tokens_from(circuit@, idx as int),
        decreases n - idx,
    {
        let ghost s = circuit@;
        let ghost before = toks@;
        let tok: Token;
        let width: usize;
        if b[idx] == 40u8 {
            tok = Token { kind: TokenKind::Open, start: idx };
            width = 1;
        } else if b[idx] == 41u8 {
            tok = Token { kind: TokenKind::Close, start: idx };
            width = 1;
        } else {
            let (name, w) = parse_element_at(circuit, idx);
            tok = Token { kind: TokenKind::Element(name.to_owned()), start: idx };
            width = w;
        }
        assert(tok@.kind == token_kind_at(s, idx as int));
        assert(width == token_width(s, idx as int));
        toks.push(tok);
        assert(token_models(toks@) =~= token_models(before) + seq![tok@]);
        assert(tokens_from(s, idx as int) == seq![tok@] + tokens_from(s, idx + width));
        idx = idx + width;
    }
    assert(tokens_from(circuit@, idx as int) =~= Seq::<TokenAt>::empty());
    toks
}

} // verus!
