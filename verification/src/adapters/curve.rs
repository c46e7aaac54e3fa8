//! The token checks of a Curve-style stable swap pool.
use vstd::prelude::*;

verus! {

/// Why a stable swap pool's configuration is refused.
#[derive(Debug, Clone, Copy, PartialEq, Eq, Structural)]
pub enum CurvePoolError {
    /// Fewer than two tokens.
    TooFewTokens,
    /// As many balances as tokens are needed.
    LengthMismatch,
    /// The amplification coefficient is not positive.
    NonPositiveAmplification,
    /// The input token is not one of the pool's tokens.
    TokenInNotFound,
    /// The output token is not one of the pool's tokens.
    TokenOutNotFound,
    /// The input and output tokens are the same.
    SameToken,
}

/// `i` is the first position of `t` in `ts`.
pub open spec fn first_position(ts: Seq<Seq<char>>, t: Seq<char>, i: int) -> bool {
    &&& 0 <= i < ts.len()
    &&& ts[i] == t
    &&& forall|j: int| 0 <= j < i ==> ts[j] != t
}

pub open spec fn token_views(ts: Seq<String>) -> Seq<Seq<char>> {
    ts.map_values(|s: String| s@)
}

fn position(tokens: &Vec<String>, t: &String) -> (r: Option<usize>)
    ensures
        r is None <==> !token_views(tokens@).contains(t@),
        r is Some ==> first_position(token_views(tokens@), t@, r->0 as int),
{
    let n = tokens.len();
    let mut i: usize = 0;
    while i < n
        invariant
            n == tokens@.len(),
            i <= n,
            forall|j: int| 0 <= j < i ==> token_views(tokens@)[j] != t@,
        decreases n - i,
    {
        if tokens[i] == *t {
            assert(token_views(tokens@)[i as int] == t@);
            return Some(i);
        }
        i += 1;
    }
    assert(!token_views(tokens@).contains(t@)) by {
        if token_views(tokens@).contains(t@) {
            let j = choose|j: int| 0 <= j < n && token_views(tokens@)[j] == t@;
            assert(token_views(tokens@)[j] != t@);
        }
    }
    None
}

/// Checks a stable swap pool's configuration, in this order: at least two
/// tokens, one balance per token, a positive amplification, the input token
/// and then the output token among the tokens, and the two distinct. On
/// success returns the first positions of the input and output tokens.
pub fn curve_token_indices(
    tokens: &Vec<String>,
    balances_len: usize,
    amplification_positive: bool,
    token_in: &String,
    token_out: &String,
) -> (r: Result<(usize, usize), CurvePoolError>)
    ensures
        tokens@.len() < 2 ==> r == Err::<(usize, usize), _>(CurvePoolError::TooFewTokens),
        tokens@.len() >= 2 && tokens@.len() != balances_len ==> r == Err::<(usize, usize), _>(
            CurvePoolError::LengthMismatch,
        ),
        tokens@.len() >= 2 && tokens@.len() == balances_len && !amplification_positive ==> r == Err::<
            (usize, usize),
            _,
        >(CurvePoolError::NonPositiveAmplification),
        tokens@.len() >= 2 && tokens@.len() == balances_len && amplification_positive && !token_views(
            tokens@,
        ).contains(token_in@) ==> r == Err::<(usize, usize), _>(CurvePoolError::TokenInNotFound),
        tokens@.len() >= 2 && tokens@.len() == balances_len && amplification_positive && token_views(
            tokens@,
        ).contains(token_in@) && !token_views(tokens@).contains(token_out@) ==> r == Err::<
            (usize, usize),
            _,
        >(CurvePoolError::TokenOutNotFound),
        tokens@.len() >= 2 && tokens@.len() == balances_len && amplification_positive && token_views(
            tokens@,
        ).contains(token_in@) && token_views(tokens@).contains(token_out@) ==> (if token_in@ == token_out@ {
            r == Err::<(usize, usize), _>(CurvePoolError::SameToken)
        } else {
            (r matches Ok((i, o)) && first_position(token_views(tokens@), token_in@, i as int) && first_position(
                token_views(tokens@),
                token_out@,
                o as int,
            ))
        }),
{
    if tokens.len() < 2 {
        return Err(CurvePoolError::TooFewTokens);
    }
    if tokens.len() != balances_len {
        return Err(CurvePoolError::LengthMismatch);
    }
    if !amplification_positive {
        return Err(CurvePoolError::NonPositiveAmplification);
    }
    let in_idx = match position(tokens, token_in) {
        Some(i) => i,
        None => {
            return Err(CurvePoolError::TokenInNotFound);
        },
    };
    let out_idx = match position(tokens, token_out) {
        Some(i) => i,
        None => {
            return Err(CurvePoolError::TokenOutNotFound);
        },
    };
    if in_idx == out_idx {
        return Err(CurvePoolError::SameToken);
    }
    assert(token_in@ != token_out@) by {
        if token_in@ == token_out@ {
            if in_idx < out_idx {
                assert(token_views(tokens@)[in_idx as int] == token_out@);
            } else {
                assert(token_views(tokens@)[out_idx as int] == token_in@);
            }
        }
    }
    Ok((in_idx, out_idx))
}

} // verus!
