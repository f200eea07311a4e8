//! The tokens of the formula language, and the lexer.
//!
//! A word is a run of letters, digits and underscores that starts with a
//! letter. A word that is a keyword is that keyword; another word is a point
//! variable where it starts in lower case, and an open variable where it
//! starts in upper case.

use vstd::prelude::*;

verus! {

/// A token of the formula language.
#[derive(Debug, Clone, PartialEq)]
pub enum Token {
    And,
    Or,
    Implies,
    Not,
    NotEqual,
    Equal,
    Iff,
    AP,
    EP,
    AO,
    EO,
    In,
    Inter,
    Nonempty,
    K,
    IC,
    Transitive,
    Topen,
    Regular,
    Irregular,
    WeaklyRegular,
    Quasiregular,
    IndirectlyRegular,
    Hypertransitive,
    Unconflicted,
    Conflicted,
    ConflictedSpace,
    UnconflictedSpace,
    RegularSpace,
    IrregularSpace,
    WeaklyRegularSpace,
    QuasiregularSpace,
    IndirectlyRegularSpace,
    HypertransitiveSpace,
    PointVar(String),
    OpenVar(String),
    Dot,
    LeftParen,
    RightParen,
    /// What is no token; the lexer never gives it.
    Error,
}

/// A token with its name as a sequence of characters.
pub enum TokenTerm {
    And,
    Or,
    Implies,
    Not,
    NotEqual,
    Equal,
    Iff,
    AP,
    EP,
    AO,
    EO,
    In,
    Inter,
    Nonempty,
    K,
    IC,
    Transitive,
    Topen,
    Regular,
    Irregular,
    WeaklyRegular,
    Quasiregular,
    IndirectlyRegular,
    Hypertransitive,
    Unconflicted,
    Conflicted,
    ConflictedSpace,
    UnconflictedSpace,
    RegularSpace,
    IrregularSpace,
    WeaklyRegularSpace,
    QuasiregularSpace,
    IndirectlyRegularSpace,
    HypertransitiveSpace,
    PointVar(Seq<char>),
    OpenVar(Seq<char>),
    Dot,
    LeftParen,
    RightParen,
    Error,
}

impl View for Token {
    type V = TokenTerm;

    open spec fn view(&self) -> TokenTerm {
        match self {
            Token::And => TokenTerm::And,
            Token::Or => TokenTerm::Or,
            Token::Implies => TokenTerm::Implies,
            Token::Not => TokenTerm::Not,
            Token::NotEqual => TokenTerm::NotEqual,
            Token::Equal => TokenTerm::Equal,
            Token::Iff => TokenTerm::Iff,
            Token::AP => TokenTerm::AP,
            Token::EP => TokenTerm::EP,
            Token::AO => TokenTerm::AO,
            Token::EO => TokenTerm::EO,
            Token::In => TokenTerm::In,
            Token::Inter => TokenTerm::Inter,
            Token::Nonempty => TokenTerm::Nonempty,
            Token::K => TokenTerm::K,
            Token::IC => TokenTerm::IC,
            Token::Transitive => TokenTerm::Transitive,
            Token::Topen => TokenTerm::Topen,
            Token::Regular => TokenTerm::Regular,
            Token::Irregular => TokenTerm::Irregular,
            Token::WeaklyRegular => TokenTerm::WeaklyRegular,
            Token::Quasiregular => TokenTerm::Quasiregular,
            Token::IndirectlyRegular => TokenTerm::IndirectlyRegular,
            Token::Hypertransitive => TokenTerm::Hypertransitive,
            Token::Unconflicted => TokenTerm::Unconflicted,
            Token::Conflicted => TokenTerm::Conflicted,
            Token::ConflictedSpace => TokenTerm::ConflictedSpace,
            Token::UnconflictedSpace => TokenTerm::UnconflictedSpace,
            Token::RegularSpace => TokenTerm::RegularSpace,
            Token::IrregularSpace => TokenTerm::IrregularSpace,
            Token::WeaklyRegularSpace => TokenTerm::WeaklyRegularSpace,
            Token::QuasiregularSpace => TokenTerm::QuasiregularSpace,
            Token::IndirectlyRegularSpace => TokenTerm::IndirectlyRegularSpace,
            Token::HypertransitiveSpace => TokenTerm::HypertransitiveSpace,
            Token::PointVar(name) => TokenTerm::PointVar(name@),
            Token::OpenVar(name) => TokenTerm::OpenVar(name@),
            Token::Dot => TokenTerm::Dot,
            Token::LeftParen => TokenTerm::LeftParen,
            Token::RightParen => TokenTerm::RightParen,
            Token::Error => TokenTerm::Error,
        }
    }
}

/// The tokens with their names as sequences of characters.
pub open spec fn token_terms(tokens: Seq<Token>) -> Seq<TokenTerm> {
    Seq::new(tokens.len(), |i: int| tokens[i]@)
}

/// Whether `c` is a blank between tokens.
pub open spec fn is_blank(c: char) -> bool {
    c == ' ' || c == '\t' || c == '\r' || c == '\n'
}

/// Whether `c` is a lower-case letter.
pub open spec fn is_lower(c: char) -> bool {
    'a' <= c <= 'z'
}

/// Whether `c` is an upper-case letter.
pub open spec fn is_upper(c: char) -> bool {
    'A' <= c <= 'Z'
}

/// Whether `c` can stand in a word.
pub open spec fn is_word_char(c: char) -> bool {
    is_lower(c) || is_upper(c) || ('0' <= c <= '9') || c == '_'
}

/// The place behind the word characters that stand at `i` and after it.
pub open spec fn word_end(s: Seq<char>, i: int) -> int
    decreases s.len() - i,
{
    if 0 <= i < s.len() && is_word_char(s[i]) {
        word_end(s, i + 1)
    } else {
        i
    }
}

/// The keyword that `word` is.
pub open spec fn keyword(word: Seq<char>) -> Option<TokenTerm> {
    if word == "AP"@ {
        Some(TokenTerm::AP)
    } else if word == "EP"@ {
        Some(TokenTerm::EP)
    } else if word == "AO"@ {
        Some(TokenTerm::AO)
    } else if word == "EO"@ {
        Some(TokenTerm::EO)
    } else if word == "in"@ {
        Some(TokenTerm::In)
    } else if word == "inter"@ {
        Some(TokenTerm::Inter)
    } else if word == "nonempty"@ {
        Some(TokenTerm::Nonempty)
    } else if word == "K"@ {
        Some(TokenTerm::K)
    } else if word == "IC"@ {
        Some(TokenTerm::IC)
    } else if word == "transitive"@ {
        Some(TokenTerm::Transitive)
    } else if word == "topen"@ {
        Some(TokenTerm::Topen)
    } else if word == "regular"@ {
        Some(TokenTerm::Regular)
    } else if word == "irregular"@ {
        Some(TokenTerm::Irregular)
    } else if word == "weakly_regular"@ {
        Some(TokenTerm::WeaklyRegular)
    } else if word == "quasiregular"@ {
        Some(TokenTerm::Quasiregular)
    } else if word == "indirectly_regular"@ {
        Some(TokenTerm::IndirectlyRegular)
    } else if word == "hypertransitive"@ {
        Some(TokenTerm::Hypertransitive)
    } else if word == "unconflicted"@ {
        Some(TokenTerm::Unconflicted)
    } else if word == "conflicted"@ {
        Some(TokenTerm::Conflicted)
    } else if word == "conflicted_space"@ {
        Some(TokenTerm::ConflictedSpace)
    } else if word == "unconflicted_space"@ {
        Some(TokenTerm::UnconflictedSpace)
    } else if word == "regular_space"@ {
        Some(TokenTerm::RegularSpace)
    } else if word == "irregular_space"@ {
        Some(TokenTerm::IrregularSpace)
    } else if word == "weakly_regular_space"@ {
        Some(TokenTerm::WeaklyRegularSpace)
    } else if word == "quasiregular_space"@ {
        Some(TokenTerm::QuasiregularSpace)
    } else if word == "indirectly_regular_space"@ {
        Some(TokenTerm::IndirectlyRegularSpace)
    } else if word == "hypertransitive_space"@ {
        Some(TokenTerm::HypertransitiveSpace)
    } else {
        None
    }
}

/// The token that a word is: its keyword, or a variable.
pub open spec fn word_token(word: Seq<char>) -> TokenTerm {
    match keyword(word) {
        Some(t) => t,
        None => if word.len() > 0 && is_lower(word[0]) {
            TokenTerm::PointVar(word)
        } else {
            TokenTerm::OpenVar(word)
        },
    }
}

/// The character at place `i` of `s`, where there is one.
pub open spec fn at(s: Seq<char>, i: int) -> Option<char> {
    if 0 <= i < s.len() {
        Some(s[i])
    } else {
        None
    }
}

/// The token that starts at place `i` of `s`, with the place behind it;
/// `None` where no token starts there.
pub open spec fn token_at(s: Seq<char>, i: int) -> Option<(TokenTerm, int)> {
    match at(s, i) {
        None => None,
        Some(c) => if is_lower(c) || is_upper(c) {
            Some((word_token(s.subrange(i, word_end(s, i))), word_end(s, i)))
        } else if c == '&' {
            if at(s, i + 1) == Some('&') {
                Some((TokenTerm::And, i + 2))
            } else {
                None
            }
        } else if c == '|' {
            if at(s, i + 1) == Some('|') {
                Some((TokenTerm::Or, i + 2))
            } else {
                None
            }
        } else if c == '=' {
            if at(s, i + 1) == Some('>') {
                Some((TokenTerm::Implies, i + 2))
            } else {
                Some((TokenTerm::Equal, i + 1))
            }
        } else if c == '!' {
            if at(s, i + 1) == Some('=') {
                Some((TokenTerm::NotEqual, i + 2))
            } else {
                Some((TokenTerm::Not, i + 1))
            }
        } else if c == '<' {
            if at(s, i + 1) == Some('=') && at(s, i + 2) == Some('>') {
                Some((TokenTerm::Iff, i + 3))
            } else {
                None
            }
        } else if c == '.' {
            Some((TokenTerm::Dot, i + 1))
        } else if c == '(' {
            Some((TokenTerm::LeftParen, i + 1))
        } else if c == ')' {
            Some((TokenTerm::RightParen, i + 1))
        } else {
            None
        },
    }
}

/// The tokens of `s` from place `i` on, blanks passed over; or the place of
/// the first character at which no token starts.
pub open spec fn lex_from(s: Seq<char>, i: int) -> Result<Seq<TokenTerm>, int>
    decreases s.len() - i,
{
    if i < 0 || i >= s.len() {
        Ok(Seq::empty())
    } else if is_blank(s[i]) {
        lex_from(s, i + 1)
    } else {
        match token_at(s, i) {
            None => Err(i),
            Some((token, next)) => if i < next <= s.len() {
                match lex_from(s, next) {
                    Ok(rest) => Ok(seq![token] + rest),
                    Err(e) => Err(e),
                }
            } else {
                Err(i)
            },
        }
    }
}

/// The tokens of `s`; or the place of the first character at which no token
/// starts.
pub open spec fn lex(s: Seq<char>) -> Result<Seq<TokenTerm>, int> {
    lex_from(s, 0)
}

/// The tokens `done` before what follows.
pub open spec fn after(done: Seq<TokenTerm>, rest: Result<Seq<TokenTerm>, int>) -> Result<
    Seq<TokenTerm>,
    int,
> {
    match rest {
        Ok(more) => Ok(done + more),
        Err(e) => Err(e),
    }
}

/// The end of a word lies behind its start, within the text.
pub proof fn lemma_word_end(s: Seq<char>, i: int)
    requires
        0 <= i <= s.len(),
    ensures
        i <= word_end(s, i) <= s.len(),
        i < s.len() && is_word_char(s[i]) ==> word_end(s, i) > i,
    decreases s.len() - i,
{
    if i < s.len() && is_word_char(s[i]) {
        lemma_word_end(s, i + 1);
    }
}

/// Whether the part of `text` from `from` to `to` is `word`.
fn is_word(text: &Vec<char>, from: usize, to: usize, word: &str) -> (same: bool)
    requires
        from <= to <= text@.len(),
    ensures
        same == (text@.subrange(from as int, to as int) == word@),
{
    let len: usize = word.unicode_len();
    if to - from != len {
        return false;
    }
    let mut k: usize = 0;
    while k < len
        invariant
            k <= len,
            len == word@.len(),
            to - from == len,
            from <= to <= text@.len(),
            forall|j: int| 0 <= j < k ==> text@[from + j] == word@[j],
        decreases len - k,
    {
        if text[from + k] != word.get_char(k) {
            proof {
                assert(text@.subrange(from as int, to as int)[k as int] == text@[from + k]);
            }
            return false;
        }
        k = k + 1;
    }
    proof {
        assert(text@.subrange(from as int, to as int) =~= word@);
    }
    true
}

/// The keyword that the part of `text` from `from` to `to` is.
fn keyword_of(text: &Vec<char>, from: usize, to: usize) -> (token: Option<Token>)
    requires
        from <= to <= text@.len(),
    ensures
        match token {
            Some(t) => keyword(text@.subrange(from as int, to as int)) == Some(t@),
            None => keyword(text@.subrange(from as int, to as int)) is None,
        },
{
    if is_word(text, from, to, "AP") {
        Some(Token::AP)
    } else if is_word(text, from, to, "EP") {
        Some(Token::EP)
    } else if is_word(text, from, to, "AO") {
        Some(Token::AO)
    } else if is_word(text, from, to, "EO") {
        Some(Token::EO)
    } else if is_word(text, from, to, "in") {
        Some(Token::In)
    } else if is_word(text, from, to, "inter") {
        Some(Token::Inter)
    } else if is_word(text, from, to, "nonempty") {
        Some(Token::Nonempty)
    } else if is_word(text, from, to, "K") {
        Some(Token::K)
    } else if is_word(text, from, to, "IC") {
        Some(Token::IC)
    } else if is_word(text, from, to, "transitive") {
        Some(Token::Transitive)
    } else if is_word(text, from, to, "topen") {
        Some(Token::Topen)
    } else if is_word(text, from, to, "regular") {
        Some(Token::Regular)
    } else if is_word(text, from, to, "irregular") {
        Some(Token::Irregular)
    } else if is_word(text, from, to, "weakly_regular") {
        Some(Token::WeaklyRegular)
    } else if is_word(text, from, to, "quasiregular") {
        Some(Token::Quasiregular)
    } else if is_word(text, from, to, "indirectly_regular") {
        Some(Token::IndirectlyRegular)
    } else if is_word(text, from, to, "hypertransitive") {
        Some(Token::Hypertransitive)
    } else if is_word(text, from, to, "unconflicted") {
        Some(Token::Unconflicted)
    } else if is_word(text, from, to, "conflicted") {
        Some(Token::Conflicted)
    } else if is_word(text, from, to, "conflicted_space") {
        Some(Token::ConflictedSpace)
    } else if is_word(text, from, to, "unconflicted_space") {
        Some(Token::UnconflictedSpace)
    } else if is_word(text, from, to, "regular_space") {
        Some(Token::RegularSpace)
    } else if is_word(text, from, to, "irregular_space") {
        Some(Token::IrregularSpace)
    } else if is_word(text, from, to, "weakly_regular_space") {
        Some(Token::WeaklyRegularSpace)
    } else if is_word(text, from, to, "quasiregular_space") {
        Some(Token::QuasiregularSpace)
    } else if is_word(text, from, to, "indirectly_regular_space") {
        Some(Token::IndirectlyRegularSpace)
    } else if is_word(text, from, to, "hypertransitive_space") {
        Some(Token::HypertransitiveSpace)
    } else {
        None
    }
}

/// Whether `c` can stand in a word.
fn is_word_character(c: char) -> (b: bool)
    ensures
        b == is_word_char(c),
{
    (c >= 'a' && c <= 'z') || (c >= 'A' && c <= 'Z') || (c >= '0' && c <= '9') || c == '_'
}

/// The token that starts at place `i` of `source`, with the place behind
/// it; `None` where no token starts there.
fn next_token(source: &str, text: &Vec<char>, i: usize) -> (r: Option<(Token, usize)>)
    requires
        text@ == source@,
        i < text@.len(),
    ensures
        match r {
            Some((token, next)) => token_at(text@, i as int) == Some((token@, next as int)) && i
                < next <= text@.len(),
            None => token_at(text@, i as int) is None,
        },
{
    let c: char = text[i];
    let len: usize = text.len();
    if (c >= 'a' && c <= 'z') || (c >= 'A' && c <= 'Z') {
        let mut end: usize = i;
        while end < len && is_word_character(text[end])
            invariant
                i <= end <= len,
                len == text@.len(),
                word_end(text@, i as int) == word_end(text@, end as int),
            decreases len - end,
        {
            end = end + 1;
        }
        proof {
            lemma_word_end(text@, i as int);
        }
        match keyword_of(text, i, end) {
            Some(token) => Some((token, end)),
            None => {
                let name = String::from_str(source.substring_char(i, end));
                proof {
                    assert(text@.subrange(i as int, end as int)[0] == c);
                }
                if c >= 'a' && c <= 'z' {
                    Some((Token::PointVar(name), end))
                } else {
                    Some((Token::OpenVar(name), end))
                }
            },
        }
    } else if c == '&' {
        if len - i > 1 && text[i + 1] == '&' {
            Some((Token::And, i + 2))
        } else {
            None
        }
    } else if c == '|' {
        if len - i > 1 && text[i + 1] == '|' {
            Some((Token::Or, i + 2))
        } else {
            None
        }
    } else if c == '=' {
        if len - i > 1 && text[i + 1] == '>' {
            Some((Token::Implies, i + 2))
        } else {
            Some((Token::Equal, i + 1))
        }
    } else if c == '!' {
        if len - i > 1 && text[i + 1] == '=' {
            Some((Token::NotEqual, i + 2))
        } else {
            Some((Token::Not, i + 1))
        }
    } else if c == '<' {
        if len - i > 2 && text[i + 1] == '=' && text[i + 2] == '>' {
            Some((Token::Iff, i + 3))
        } else {
            None
        }
    } else if c == '.' {
        Some((Token::Dot, i + 1))
    } else if c == '(' {
        Some((Token::LeftParen, i + 1))
    } else if c == ')' {
        Some((Token::RightParen, i + 1))
    } else {
        None
    }
}

/// The tokens of `input`; or the place of the first character at which no
/// token starts.
pub fn tokenize(input: &str) -> (r: Result<Vec<Token>, usize>)
    ensures
        match r {
            Ok(tokens) => lex(input@) == Ok::<Seq<TokenTerm>, int>(token_terms(tokens@)),
            Err(place) => lex(input@) == Err::<Seq<TokenTerm>, int>(place as int),
        },
{
    let text = crate::codec::characters(input);
    let mut tokens: Vec<Token> = Vec::new();
    let mut i: usize = 0;
    proof {
        assert(token_terms(tokens@) =~= Seq::<TokenTerm>::empty());
        match lex_from(text@, 0) {
            Ok(rest) => {
                assert(Seq::<TokenTerm>::empty() + rest =~= rest);
            },
            Err(_) => {},
        }
    }
    while i < text.len()
        invariant
            i <= text@.len(),
            text@ == input@,
            lex(input@) == after(token_terms(tokens@), lex_from(text@, i as int)),
        decreases text@.len() - i,
    {
        let c: char = text[i];
        if c == ' ' || c == '\t' || c == '\r' || c == '\n' {
            i = i + 1;
        } else {
            match next_token(input, &text, i) {
                None => {
                    return Err(i);
                },
                Some((token, next)) => {
                    let ghost done = token_terms(tokens@);
                    tokens.push(token);
                    proof {
                        assert(token_terms(tokens@) =~= done.push(token@));
                        match lex_from(text@, next as int) {
                            Ok(rest) => {
                                assert(done + (seq![token@] + rest) =~= done.push(token@) + rest);
                            },
                            Err(_) => {},
                        }
                    }
                    i = next;
                },
            }
        }
    }
    proof {
        assert(token_terms(tokens@) + Seq::<TokenTerm>::empty() =~= token_terms(tokens@));
    }
    Ok(tokens)
}

} // verus!
