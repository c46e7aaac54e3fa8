//! The configuration logic of the pool factory that does not depend on pool arithmetic.
use vstd::prelude::*;

verus! {

/// Pool factory for creating pool instances from configuration.
pub struct PoolFactory;

impl PoolFactory {
    /// The input and output tokens of a stable swap pool: the configured
    /// ones, or else the pool's first and second tokens; an error names the
    /// one that is missing, the input token first.
    pub fn curve_tokens(
        tokens: &Vec<String>,
        token_in: Option<String>,
        token_out: Option<String>,
    ) -> (r: Result<(String, String), String>)
        ensures
            token_in is None && tokens@.len() == 0 ==> r is Err && r->Err_0@
                == "Curve pool missing token_in"@,
            !(token_in is None && tokens@.len() == 0) && token_out is None && tokens@.len() < 2 ==> r is Err
                && r->Err_0@ == "Curve pool missing token_out"@,
            !(token_in is None && tokens@.len() == 0) && !(token_out is None && tokens@.len() < 2) ==> (r matches Ok((a, b))
                && a@ == (match token_in {
                Some(t) => t@,
                None => tokens@[0]@,
            }) && b@ == (match token_out {
                Some(t) => t@,
                None => tokens@[1]@,
            })),
    {
        let tin = match token_in {
            Some(t) => t,
            None => {
                if tokens.len() == 0 {
                    proof {
                        reveal_strlit("Curve pool missing token_in");
                    }
                    return Err("Curve pool missing token_in".to_owned());
                }
                tokens[0].clone()
            },
        };
        let tout = match token_out {
            Some(t) => t,
            None => {
                if tokens.len() < 2 {
                    proof {
                        reveal_strlit("Curve pool missing token_out");
                    }
                    return Err("Curve pool missing token_out".to_owned());
                }
                tokens[1].clone()
            },
        };
        Ok((tin, tout))
    }
}

} // verus!
