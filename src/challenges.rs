//! The Fiat-Shamir challenges of one proof, inserted and read in a fixed
//! order: `beta, gamma`, then `alpha`, then `zeta`, then `u`.
use crate::errors::PlonkError;
use crate::field::Fr;
use vstd::prelude::*;

verus! {

/// The challenges set so far, in the order in which they were inserted.
pub struct PlonkChallenges {
    challenges: Vec<Fr>,
}

impl View for PlonkChallenges {
    type V = Seq<Fr>;

    closed spec fn view(&self) -> Seq<Fr> {
        self.challenges@
    }
}

impl PlonkChallenges {
    /// No challenge set yet.
    pub fn new() -> (r: PlonkChallenges)
        ensures
            r@ == Seq::<Fr>::empty(),
    {
        PlonkChallenges { challenges: Vec::with_capacity(5) }
    }

    /// Sets `beta` and `gamma`; only the first insertion is accepted.
    pub fn insert_beta_gamma(&mut self, beta: Fr, gamma: Fr) -> (r: Result<(), PlonkError>)
        ensures
            r is Ok <==> old(self)@.len() == 0,
            r is Ok ==> final(self)@ == seq![beta, gamma],
            r is Err ==> final(self)@ == old(self)@ && r == Err::<(), PlonkError>(
                PlonkError::ChallengeError,
            ),
    {
        if self.challenges.len() == 0 {
            self.challenges.push(beta);
            self.challenges.push(gamma);
            proof {
                assert(self.challenges@ =~= seq![beta, gamma]);
            }
            Ok(())
        } else {
            Err(PlonkError::ChallengeError)
        }
    }

    /// Sets `alpha`, once `beta` and `gamma` are set and nothing more.
    pub fn insert_alpha(&mut self, alpha: Fr) -> (r: Result<(), PlonkError>)
        ensures
            r is Ok <==> old(self)@.len() == 2,
            r is Ok ==> final(self)@ == old(self)@.push(alpha),
            r is Err ==> final(self)@ == old(self)@ && r == Err::<(), PlonkError>(
                PlonkError::ChallengeError,
            ),
    {
        if self.challenges.len() == 2 {
            self.challenges.push(alpha);
            Ok(())
        } else {
            Err(PlonkError::ChallengeError)
        }
    }

    /// Sets `zeta`, once `alpha` is set and nothing more.
    pub fn insert_zeta(&mut self, zeta: Fr) -> (r: Result<(), PlonkError>)
        ensures
            r is Ok <==> old(self)@.len() == 3,
            r is Ok ==> final(self)@ == old(self)@.push(zeta),
            r is Err ==> final(self)@ == old(self)@ && r == Err::<(), PlonkError>(
                PlonkError::ChallengeError,
            ),
    {
        if self.challenges.len() == 3 {
            self.challenges.push(zeta);
            Ok(())
        } else {
            Err(PlonkError::ChallengeError)
        }
    }

    /// Sets `u`, once `zeta` is set and nothing more.
    pub fn insert_u(&mut self, u: Fr) -> (r: Result<(), PlonkError>)
        ensures
            r is Ok <==> old(self)@.len() == 4,
            r is Ok ==> final(self)@ == old(self)@.push(u),
            r is Err ==> final(self)@ == old(self)@ && r == Err::<(), PlonkError>(
                PlonkError::ChallengeError,
            ),
    {
        if self.challenges.len() == 4 {
            self.challenges.push(u);
            Ok(())
        } else {
            Err(PlonkError::ChallengeError)
        }
    }

    /// `beta` and `gamma`, once set.
    pub fn get_beta_gamma(&self) -> (r: Result<(Fr, Fr), PlonkError>)
        ensures
            r is Ok <==> self@.len() > 1,
            r matches Ok((b, g)) ==> b == self@[0] && g == self@[1],
    {
        if self.challenges.len() > 1 {
            Ok((self.challenges[0], self.challenges[1]))
        } else {
            Err(PlonkError::ChallengeError)
        }
    }

    /// `alpha`, once set.
    pub fn get_alpha(&self) -> (r: Result<Fr, PlonkError>)
        ensures
            r is Ok <==> self@.len() > 2,
            r matches Ok(a) ==> a == self@[2],
    {
        if self.challenges.len() > 2 {
            Ok(self.challenges[2])
        } else {
            Err(PlonkError::ChallengeError)
        }
    }

    /// `zeta`, once set.
    pub fn get_zeta(&self) -> (r: Result<Fr, PlonkError>)
        ensures
            r is Ok <==> self@.len() > 3,
            r matches Ok(z) ==> z == self@[3],
    {
        if self.challenges.len() > 3 {
            Ok(self.challenges[3])
        } else {
            Err(PlonkError::ChallengeError)
        }
    }

    /// `u`, once set.
    pub fn get_u(&self) -> (r: Result<Fr, PlonkError>)
        ensures
            r is Ok <==> self@.len() > 4,
            r matches Ok(u) ==> u == self@[4],
    {
        if self.challenges.len() > 4 {
            Ok(self.challenges[4])
        } else {
            Err(PlonkError::ChallengeError)
        }
    }
}

} // verus!
