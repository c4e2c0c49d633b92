//! Distributing the rows of tiles.

use vstd::prelude::*;

use crate::memory::data::Tile;
use crate::primitives::elem::StopType;
use crate::utils::mapping::in_cycle;

verus! {

/// An element of a stream whose stops stand by themselves.
#[derive(Debug, PartialEq)]
pub enum Token {
    Val(Tile),
    Stop(StopType),
}

/// Sends each row of a tile to an output of its own. No latency is added: this
/// is treated like a switch box.
#[derive(Debug)]
pub struct TileDemux {
    pub outputs: usize,
}

impl TileDemux {
    /// The tile has a row for each output.
    pub open spec fn accepts(self, token: Token) -> bool {
        token matches Token::Val(tile) ==> tile.shape@.len() == 2 && tile.shape@[0] == self.outputs
    }

    /// `sent` is what each output receives.
    pub open spec fn is_sent(self, token: Token, sent: Token) -> bool {
        match (token, sent) {
            (Token::Val(tile), Token::Val(row)) => {
                &&& row.shape@ == seq![tile.shape@[1]]
                &&& row.bytes_per_elem == tile.bytes_per_elem
                &&& row.read_from_mu == tile.read_from_mu
            },
            (Token::Stop(level), Token::Stop(same)) => level == same,
            _ => false,
        }
    }

    pub fn new(outputs: usize) -> (res: Self)
        ensures
            res.outputs == outputs,
    {
        TileDemux { outputs }
    }

    /// What the outputs receive for a token, in the cycle `now` in which it
    /// arrives.
    pub fn step(&self, now: u64, token: &Token) -> (res: Vec<(u64, Token)>)
        requires
            self.accepts(*token),
        ensures
            res@.len() == self.outputs,
            forall|k: int|
                0 <= k < res@.len() ==> (#[trigger] res@[k]).0 == now && self.is_sent(
                    *token,
                    res@[k].1,
                ),
    {
        let mut out: Vec<Token> = Vec::new();
        let mut k: usize = 0;
        while k < self.outputs
            invariant
                self.accepts(*token),
                k <= self.outputs,
                out@.len() == k,
                forall|j: int| 0 <= j < k ==> self.is_sent(*token, #[trigger] out@[j]),
            decreases self.outputs - k,
        {
            let sent = match token {
                Token::Val(tile) => {
                    let mut shape: Vec<usize> = Vec::new();
                    shape.push(tile.shape[1]);
                    assert(shape@ =~= seq![tile.shape@[1]]);
                    Token::Val(
                        Tile {
                            shape,
                            bytes_per_elem: tile.bytes_per_elem,
                            read_from_mu: tile.read_from_mu,
                        },
                    )
                },
                Token::Stop(level) => Token::Stop(*level),
            };
            out.push(sent);
            k = k + 1;
        }
        in_cycle(now, out)
    }
}

/// Every output receives, in the cycle of the token, one row of the tile, or
/// the stop.
pub proof fn law_every_output_gets_a_row(
    op: TileDemux,
    now: u64,
    token: Token,
    res: Vec<(u64, Token)>,
    k: int,
)
    requires
        op.accepts(token),
        call_ensures(TileDemux::step, (&op, now, &token), res),
        0 <= k < res@.len(),
    ensures
        res@.len() == op.outputs,
        res@[k].0 == now,
        token matches Token::Stop(level) ==> res@[k].1 == Token::Stop(level),
        token matches Token::Val(tile) ==> tile.shape@[0] == res@.len() && (res@[k].1 matches Token::Val(
            row,
        ) && row.shape@.len() == 1 && row.shape@[0] == tile.shape@[1] && row.bytes_per_elem
            == tile.bytes_per_elem && row.read_from_mu == tile.read_from_mu),
{
}

} // verus!
