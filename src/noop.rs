//! A model that keeps every piece whole, and its trainer, which learns nothing.
use vstd::prelude::*;
use std::collections::HashMap;
use crate::normalizer::NormError;

verus! {

/// A piece of text with its vocabulary id and byte offsets.
#[derive(Debug)]
pub struct Token {
    pub id: u32,
    pub value: String,
    pub offsets: (usize, usize),
}

/// A model with an empty vocabulary that maps each piece to one token.
#[derive(Debug, Clone, Copy, PartialEq, Eq, Structural)]
pub struct Noop {}

/// The trainer of [`Noop`]; training changes nothing.
#[derive(Debug, Clone, Copy, PartialEq, Eq, Structural)]
pub struct NoopTrainer {}

impl Noop {
    /// One token holding the whole piece, with id 0 and its full byte span.
    pub fn tokenize(&self, token: &str) -> (r: Result<Vec<Token>, NormError>)
        ensures
            r is Ok,
            r->Ok_0@.len() == 1,
            r->Ok_0@[0].id == 0,
            r->Ok_0@[0].value@ == token@,
            r->Ok_0@[0].offsets == (0usize, token.len()),
    {
        let t = Token { id: 0, value: token.to_owned(), offsets: (0, token.len()) };
        Ok(vec![t])
    }

    /// No piece has an id.
    pub fn token_to_id(&self, token: &str) -> (r: Option<u32>)
        ensures
            r is None,
    {
        None
    }

    /// No id has a piece.
    pub fn id_to_token(&self, id: u32) -> (r: Option<String>)
        ensures
            r is None,
    {
        None
    }

    /// The vocabulary, which is empty.
    pub fn get_vocab(&self) -> (r: HashMap<String, u32>)
        ensures
            r@.len() == 0,
    {
        HashMap::new()
    }

    pub fn get_vocab_size(&self) -> (r: usize)
        ensures
            r == 0,
    {
        0
    }

    pub fn get_trainer(&self) -> (r: NoopTrainer) {
        NoopTrainer {}
    }
}

impl NoopTrainer {
    /// Training adds no token and leaves the model as it is.
    pub fn train(&self, model: &mut Noop) -> (r: Result<Vec<String>, NormError>)
        ensures
            r is Ok && r->Ok_0@.len() == 0,
            *final(model) == *old(model),
    {
        Ok(Vec::new())
    }

    pub fn should_show_progress(&self) -> (r: bool)
        ensures
            !r,
    {
        false
    }

    /// Reading a corpus records nothing.
    pub fn feed(&mut self, pieces: &Vec<String>) -> (r: Result<(), NormError>)
        ensures
            r is Ok,
            *final(self) == *old(self),
    {
        Ok(())
    }
}

} // verus!
