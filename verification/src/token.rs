//! The tokens a predicate is written in.
//!
//! A predicate reaches this library already lexed: words, quoted strings
//! taken by their value, commas and parentheses. Whatever else the source
//! held arrives as [`Token::Other`], which no rule accepts.

use vstd::prelude::*;
use crate::text::equal;

verus! {

/// One token of a predicate.
#[derive(Debug)]
pub enum Token {
    /// A bare word, such as `env`.
    Word(String),
    /// A quoted string literal, by its value.
    Text(String),
    /// `,`
    Comma,
    /// `(`
    Open,
    /// `)`
    Close,
    /// Any other token.
    Other,
}

/// The model of a [`Token`].
pub ghost enum Lexeme {
    Word(Seq<char>),
    Text(Seq<char>),
    Comma,
    Open,
    Close,
    Other,
}

impl View for Token {
    type V = Lexeme;

    open spec fn view(&self) -> Lexeme {
        match self {
            Token::Word(w) => Lexeme::Word(w@),
            Token::Text(t) => Lexeme::Text(t@),
            Token::Comma => Lexeme::Comma,
            Token::Open => Lexeme::Open,
            Token::Close => Lexeme::Close,
            Token::Other => Lexeme::Other,
        }
    }
}

impl Token {
    /// A copy of this token.
    pub fn duplicate(&self) -> (r: Token)
        ensures
            r@ == self@,
    {
        match self {
            Token::Word(word) => Token::Word(word.clone()),
            Token::Text(value) => Token::Text(value.clone()),
            Token::Comma => Token::Comma,
            Token::Open => Token::Open,
            Token::Close => Token::Close,
            Token::Other => Token::Other,
        }
    }
}

/// The models of a list of tokens, in order.
pub open spec fn lexemes_of(tokens: Seq<Token>) -> Seq<Lexeme> {
    Seq::new(tokens.len(), |i: int| tokens[i]@)
}

/// The reserved words that open a predicate.
#[derive(Clone, Copy, PartialEq, Eq, Structural, Debug)]
pub enum Keyword {
    Not,
    Any,
    All,
    Env,
    Cmd,
    Dep,
    DepSince,
    DepBefore,
    DepFromRegistry,
}

impl Keyword {
    /// The spelling of the keyword. Keywords are case-sensitive.
    pub open spec fn spelling(self) -> Seq<char> {
        match self {
            Keyword::Not => "not"@,
            Keyword::Any => "any"@,
            Keyword::All => "all"@,
            Keyword::Env => "env"@,
            Keyword::Cmd => "cmd"@,
            Keyword::Dep => "dep"@,
            Keyword::DepSince => "dep_since"@,
            Keyword::DepBefore => "dep_before"@,
            Keyword::DepFromRegistry => "dep_from_registry"@,
        }
    }

    /// The keyword as a string.
    pub fn as_str(self) -> (r: &'static str)
        ensures
            r@ == self.spelling(),
    {
        match self {
            Keyword::Not => "not",
            Keyword::Any => "any",
            Keyword::All => "all",
            Keyword::Env => "env",
            Keyword::Cmd => "cmd",
            Keyword::Dep => "dep",
            Keyword::DepSince => "dep_since",
            Keyword::DepBefore => "dep_before",
            Keyword::DepFromRegistry => "dep_from_registry",
        }
    }

    /// The keyword that `word` spells, if it is reserved.
    pub open spec fn of(word: Seq<char>) -> Option<Keyword> {
        if word == Keyword::Not.spelling() {
            Some(Keyword::Not)
        } else if word == Keyword::Any.spelling() {
            Some(Keyword::Any)
        } else if word == Keyword::All.spelling() {
            Some(Keyword::All)
        } else if word == Keyword::Env.spelling() {
            Some(Keyword::Env)
        } else if word == Keyword::Cmd.spelling() {
            Some(Keyword::Cmd)
        } else if word == Keyword::Dep.spelling() {
            Some(Keyword::Dep)
        } else if word == Keyword::DepSince.spelling() {
            Some(Keyword::DepSince)
        } else if word == Keyword::DepBefore.spelling() {
            Some(Keyword::DepBefore)
        } else if word == Keyword::DepFromRegistry.spelling() {
            Some(Keyword::DepFromRegistry)
        } else {
            None
        }
    }

    /// Recognises a reserved word.
    pub fn from_word(word: &str) -> (r: Option<Keyword>)
        ensures
            r == Keyword::of(word@),
    {
        if equal(word, "not") {
            Some(Keyword::Not)
        } else if equal(word, "any") {
            Some(Keyword::Any)
        } else if equal(word, "all") {
            Some(Keyword::All)
        } else if equal(word, "env") {
            Some(Keyword::Env)
        } else if equal(word, "cmd") {
            Some(Keyword::Cmd)
        } else if equal(word, "dep") {
            Some(Keyword::Dep)
        } else if equal(word, "dep_since") {
            Some(Keyword::DepSince)
        } else if equal(word, "dep_before") {
            Some(Keyword::DepBefore)
        } else if equal(word, "dep_from_registry") {
            Some(Keyword::DepFromRegistry)
        } else {
            None
        }
    }
}

/// Every keyword is recognised from its own spelling.
pub proof fn lemma_keyword_of_spelling(k: Keyword)
    ensures
        Keyword::of(k.spelling()) == Some(k),
{
    reveal_strlit("not");
    reveal_strlit("any");
    reveal_strlit("all");
    reveal_strlit("env");
    reveal_strlit("cmd");
    reveal_strlit("dep");
    reveal_strlit("dep_since");
    reveal_strlit("dep_before");
    reveal_strlit("dep_from_registry");
    let not = "not"@;
    let any = "any"@;
    let all = "all"@;
    let env = "env"@;
    let cmd = "cmd"@;
    let dep = "dep"@;
    let since = "dep_since"@;
    let before = "dep_before"@;
    let registry = "dep_from_registry"@;
    assert(not[0] == 'n' && any[1] == 'n' && all[1] == 'l' && env[0] == 'e' && cmd[0] == 'c');
    assert(dep[0] == 'd' && since[4] == 's' && before[4] == 'b' && registry[4] == 'f');
    assert(any[0] == 'a' && all[0] == 'a');
    assert(not.len() == 3 && any.len() == 3 && all.len() == 3 && env.len() == 3 && cmd.len() == 3);
    assert(dep.len() == 3 && since.len() == 9 && before.len() == 10 && registry.len() == 17);
}

/// What a rule accepts at one position after its keyword.
#[derive(Clone, Copy, PartialEq, Eq, Structural, Debug)]
pub enum Slot {
    Open,
    Text,
    Comma,
    Close,
}

/// Whether a lexeme fills a slot.
pub open spec fn fits(lexeme: Lexeme, slot: Slot) -> bool {
    match slot {
        Slot::Open => lexeme is Open,
        Slot::Text => lexeme is Text,
        Slot::Comma => lexeme is Comma,
        Slot::Close => lexeme is Close,
    }
}

/// Whether there is a token at `at` and it fills `slot`.
pub open spec fn fits_at(tokens: Seq<Lexeme>, at: int, slot: Slot) -> bool {
    0 <= at < tokens.len() && fits(tokens[at], slot)
}

/// The keyword at `at`, if there is a reserved word there.
pub open spec fn keyword_at(tokens: Seq<Lexeme>, at: int) -> Option<Keyword> {
    if 0 <= at < tokens.len() {
        match tokens[at] {
            Lexeme::Word(word) => Keyword::of(word),
            _ => None,
        }
    } else {
        None
    }
}

/// The value of the string literal at `at`; meaningful where one is there.
pub open spec fn text_at(tokens: Seq<Lexeme>, at: int) -> Seq<char> {
    tokens[at]->Text_0
}

/// Whether there is a token at `at` and it fills `slot`.
pub fn token_fits(tokens: &Vec<Token>, at: usize, slot: Slot) -> (r: bool)
    ensures
        r == fits_at(lexemes_of(tokens@), at as int, slot),
{
    if at >= tokens.len() {
        return false;
    }
    match &tokens[at] {
        Token::Open => slot == Slot::Open,
        Token::Text(_) => slot == Slot::Text,
        Token::Comma => slot == Slot::Comma,
        Token::Close => slot == Slot::Close,
        _ => false,
    }
}

/// The keyword at `at`, if there is a reserved word there.
pub fn token_keyword(tokens: &Vec<Token>, at: usize) -> (r: Option<Keyword>)
    ensures
        r == keyword_at(lexemes_of(tokens@), at as int),
{
    if at >= tokens.len() {
        return None;
    }
    match &tokens[at] {
        Token::Word(word) => Keyword::from_word(word.as_str()),
        _ => None,
    }
}

/// The value of the string literal at `at`.
pub(crate) fn token_text(tokens: &Vec<Token>, at: usize) -> (r: String)
    requires
        fits_at(lexemes_of(tokens@), at as int, Slot::Text),
    ensures
        r@ == text_at(lexemes_of(tokens@), at as int),
{
    match &tokens[at] {
        Token::Text(value) => value.clone(),
        _ => String::new(),
    }
}

} // verus!
