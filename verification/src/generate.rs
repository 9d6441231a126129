//! When to stop generating.
//!
//! A run ends at the vocabulary's end of sequence, at the number of tokens that
//! was asked for, or where the cache is full.

use vstd::prelude::*;

verus! {

/// How far a run has come.
#[derive(Clone, Copy, Debug, PartialEq, Eq, Structural)]
pub struct Generation {
    /// How many tokens the prompt has.
    pub prompt: usize,
    /// How many tokens were kept behind the prompt.
    pub produced: usize,
    /// How many tokens were asked for.
    pub wanted: usize,
    /// How many tokens fit into the cache.
    pub context: usize,
    /// The token that ends a sequence.
    pub eos: Option<u32>,
}

/// What becomes of a token that was drawn.
#[derive(Clone, Copy, Debug, PartialEq, Eq, Structural)]
pub enum Verdict {
    /// It is dropped, and the run is over.
    End,
    /// It is kept, and the run is over.
    Last,
    /// It is kept and processed at the position, and the run goes on.
    Go { position: usize },
}

/// What becomes of a token.
pub open spec fn verdict_of(g: Generation, token: u32) -> Verdict {
    if g.eos == Some(token) {
        Verdict::End
    } else if g.produced + 1 >= g.wanted || g.prompt + g.produced >= g.context {
        Verdict::Last
    } else {
        Verdict::Go { position: (g.prompt + g.produced) as usize }
    }
}

impl Generation {
    /// A run that has processed its prompt.
    pub fn new(prompt: usize, wanted: usize, context: usize, eos: Option<u32>) -> (g: Self)
        ensures
            g == (Generation { prompt, produced: 0, wanted, context, eos }),
    {
        Generation { prompt, produced: 0, wanted, context, eos }
    }

    /// Whether another token is to be drawn.
    pub fn wants_token(&self) -> (yes: bool)
        ensures
            yes == (self.produced < self.wanted),
    {
        self.produced < self.wanted
    }

    /// Decides on a token that was drawn.
    pub fn accept(&mut self, token: u32) -> (verdict: Verdict)
        requires
            old(self).produced < old(self).wanted,
        ensures
            verdict == verdict_of(*old(self), token),
            *final(self) == (if verdict == Verdict::End {
                *old(self)
            } else {
                Generation { produced: (old(self).produced + 1) as usize, ..*old(self) }
            }),
            final(self).produced <= final(self).wanted,
    {
        let at_end: bool = match self.eos {
            Some(eos) => eos == token,
            None => false,
        };
        if at_end {
            return Verdict::End;
        }
        let full: bool = self.prompt >= self.context || self.produced >= self.context - self.prompt;
        let done: bool = self.produced + 1 >= self.wanted;
        let position: usize = if full { 0 } else { self.prompt + self.produced };
        self.produced = self.produced + 1;
        if done || full {
            Verdict::Last
        } else {
            Verdict::Go { position }
        }
    }
}

/// A run that goes on stays inside the cache: the position is free, it is the
/// one right behind the tokens so far, and more tokens are wanted.
pub proof fn lemma_goes_on_inside(g: Generation, token: u32)
    requires
        verdict_of(g, token) is Go,
    ensures
        verdict_of(g, token)->position == g.prompt + g.produced,
        verdict_of(g, token)->position < g.context,
        g.produced + 1 < g.wanted,
        g.eos != Some(token),
{
}

} // verus!
