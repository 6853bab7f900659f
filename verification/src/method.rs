//! The voting methods and their names.

use crate::errors::VoteError;
use vstd::prelude::*;

verus! {

/// A voting method.
#[derive(Clone, Copy, Debug, PartialEq, Eq, Structural)]
pub enum Method {
    /// The candidate named first by the most votes wins.
    Plurality,
    /// The Schulze method, with the strength of a link measured by the
    /// votes in its favour.
    SchulzeWinning,
    /// A lottery in which each candidate's chance follows its votes.
    WeightedRandom,
}

/// The method that bears the name, if there is one. Names are compared
/// letter by letter.
pub open spec fn method_named(name: Seq<char>) -> Option<Method> {
    if name == Method::Plurality.label() {
        Some(Method::Plurality)
    } else if name == Method::SchulzeWinning.label() {
        Some(Method::SchulzeWinning)
    } else if name == Method::WeightedRandom.label() {
        Some(Method::WeightedRandom)
    } else {
        None
    }
}

impl Method {
    /// The name of the method.
    pub open spec fn label(self) -> Seq<char> {
        match self {
            Method::Plurality => "Plurality"@,
            Method::SchulzeWinning => "Schulze Winning"@,
            Method::WeightedRandom => "Weighted Random"@,
        }
    }

    /// The name of the method.
    pub fn to_string(&self) -> (name: String)
        ensures
            name@ == self.label(),
    {
        match self {
            Method::Plurality => "Plurality".to_owned(),
            Method::SchulzeWinning => "Schulze Winning".to_owned(),
            Method::WeightedRandom => "Weighted Random".to_owned(),
        }
    }

    /// The method that bears the name. Fails with
    /// `VoteError::UnknownMethod` where none does.
    pub fn from_str(name: &str) -> (res: Result<Method, VoteError>)
        ensures
            res == match method_named(name@) {
                Some(m) => Ok::<Method, VoteError>(m),
                None => Err::<Method, VoteError>(VoteError::UnknownMethod),
            },
    {
        let given = name.to_owned();
        if given == Method::Plurality.to_string() {
            Ok(Method::Plurality)
        } else if given == Method::SchulzeWinning.to_string() {
            Ok(Method::SchulzeWinning)
        } else if given == Method::WeightedRandom.to_string() {
            Ok(Method::WeightedRandom)
        } else {
            Err(VoteError::UnknownMethod)
        }
    }

    /// All methods, in the order in which they are offered.
    pub fn all() -> (methods: Vec<Method>)
        ensures
            methods@ == seq![Method::Plurality, Method::SchulzeWinning, Method::WeightedRandom],
    {
        let mut methods: Vec<Method> = Vec::new();
        methods.push(Method::Plurality);
        methods.push(Method::SchulzeWinning);
        methods.push(Method::WeightedRandom);
        methods
    }
}

/// Every method is found again by its name.
pub proof fn lemma_method_named(m: Method)
    ensures
        method_named(m.label()) == Some(m),
{
    reveal_strlit("Plurality");
    reveal_strlit("Schulze Winning");
    reveal_strlit("Weighted Random");
    assert("Plurality"@.len() == 9);
    assert("Schulze Winning"@.len() == 15);
    assert("Schulze Winning"@[0] == 'S');
    assert("Weighted Random"@[0] == 'W');
}

} // verus!
