use vstd::prelude::*;
use super::expr_tree::{lemma_take_all, lemma_take_step};

verus! {

/// The eight operations of the source language.
#[derive(Copy, Clone, Debug, PartialEq, Eq, Structural)]
pub enum Token {
    Plus,
    Minus,
    Next,
    Previous,
    Dot,
    Comma,
    Open,
    Close,
}

/// The token that a byte of source text stands for, if any.
pub open spec fn token_of(byte: u8) -> Option<Token> {
    if byte == 43 {
        Some(Token::Plus)
    } else if byte == 45 {
        Some(Token::Minus)
    } else if byte == 62 {
        Some(Token::Next)
    } else if byte == 60 {
        Some(Token::Previous)
    } else if byte == 46 {
        Some(Token::Dot)
    } else if byte == 44 {
        Some(Token::Comma)
    } else if byte == 91 {
        Some(Token::Open)
    } else if byte == 93 {
        Some(Token::Close)
    } else {
        None
    }
}

/// The tokens of a source text, in order; every other byte is passed over.
pub open spec fn tokens_of(src: Seq<u8>) -> Seq<Token>
    decreases src.len(),
{
    if src.len() == 0 {
        Seq::empty()
    } else {
        match token_of(src.last()) {
            Some(t) => tokens_of(src.drop_last()).push(t),
            None => tokens_of(src.drop_last()),
        }
    }
}

fn lex_byte(byte: u8) -> (r: Option<Token>)
    ensures
        r == token_of(byte),
{
    if byte == 43 {
        Some(Token::Plus)
    } else if byte == 45 {
        Some(Token::Minus)
    } else if byte == 62 {
        Some(Token::Next)
    } else if byte == 60 {
        Some(Token::Previous)
    } else if byte == 46 {
        Some(Token::Dot)
    } else if byte == 44 {
        Some(Token::Comma)
    } else if byte == 91 {
        Some(Token::Open)
    } else if byte == 93 {
        Some(Token::Close)
    } else {
        None
    }
}

/// Reads the tokens out of a source text.
pub fn lex(src: &[u8]) -> (r: Vec<Token>)
    ensures
        r@ == tokens_of(src@),
{
    let mut out: Vec<Token> = Vec::new();
    let mut k: usize = 0;
    proof {
        lemma_take_all(src@);
    }
    while k < src.len()
        invariant
            k <= src.len(),
            out@ == tokens_of(src@.take(k as int)),
        decreases src.len() - k,
    {
        proof {
            lemma_take_step(src@, k as int);
        }
        match lex_byte(src[k]) {
            Some(t) => out.push(t),
            None => {},
        }
        k += 1;
    }
    out
}

} // verus!
