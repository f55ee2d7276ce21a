//! Validation of checked MIR bodies: definite initialization, drop
//! obligations and loans.

use crate::drop_obligations::DropObligationError;
use crate::drop_obligations_flow::{analysis_settled, settled_errors};
use crate::initialization::InitializationError;
use crate::initialization_flow::{solution, solution_errors};
use crate::loans::{loan_errors, LoanError};
use crate::model::Body;
use crate::sorted::strictly_sorted;
use vstd::prelude::*;

verus! {

/// One error found in a body.
#[derive(Debug, Clone, Copy, PartialEq, Eq, Structural)]
pub enum ValidationError {
    Initialization(InitializationError),
    DropObligation(DropObligationError),
    Loan(LoanError),
}

/// The error names a block of `body`, when it names one.
pub open spec fn error_in_body(body: Body, error: ValidationError) -> bool {
    match error {
        ValidationError::Initialization(e) => e.block@ < body.blocks@.len(),
        ValidationError::DropObligation(e) => e.block@ < body.blocks@.len(),
        ValidationError::Loan(e) => e.block matches Some(block) ==> block@ < body.blocks@.len(),
    }
}

/// The definite-initialization errors of `body`.
pub open spec fn initialization_errors(body: Body) -> Set<InitializationError> {
    if body.entry@ < body.blocks@.len() {
        solution_errors(body, solution(body))
    } else {
        Set::empty()
    }
}

/// `errors` are the drop-obligation errors of `body`: those of its blocks at
/// the entry states its analysis settles on.
pub open spec fn obligation_errors_settled(body: Body, errors: Set<DropObligationError>) -> bool {
    if body.entry@ < body.blocks@.len() {
        errors == settled_errors(body, analysis_settled(body).0)
    } else {
        errors.is_empty()
    }
}

/// The three error lists of a validation: each in its order, each reporting
/// what its analysis finds.
pub open spec fn reports(
    body: Body,
    initialization: Seq<InitializationError>,
    obligations: Seq<DropObligationError>,
    loans: Seq<LoanError>,
) -> bool {
    &&& strictly_sorted(initialization)
    &&& forall|e: InitializationError| #[trigger] initialization.contains(e) <==> initialization_errors(body).contains(e)
    &&& strictly_sorted(obligations)
    &&& obligation_errors_settled(body, Set::new(|e: DropObligationError| obligations.contains(e)))
    &&& strictly_sorted(loans)
    &&& forall|e: LoanError| #[trigger] loans.contains(e) <==> loan_errors(body).contains(e)
}

/// The three lists, one after the other.
pub open spec fn combined(
    initialization: Seq<InitializationError>,
    obligations: Seq<DropObligationError>,
    loans: Seq<LoanError>,
) -> Seq<ValidationError> {
    initialization.map_values(|e: InitializationError| ValidationError::Initialization(e)) + obligations.map_values(
        |e: DropObligationError| ValidationError::DropObligation(e),
    ) + loans.map_values(|e: LoanError| ValidationError::Loan(e))
}

/// Validates `body`: the initialization errors, then the drop-obligation
/// errors, then the loan errors, or `Ok` when there are none.
pub fn validate(body: &Body) -> (result: Result<(), Vec<ValidationError>>)
    requires
        body.addressable(),
    ensures
        exists|
            initialization: Seq<InitializationError>,
            obligations: Seq<DropObligationError>,
            loans: Seq<LoanError>,
        |
            #[trigger] reports(*body, initialization, obligations, loans) && match result {
                Ok(()) => initialization.len() == 0 && obligations.len() == 0 && loans.len() == 0,
                Err(errors) => errors@.len() > 0 && errors@ == combined(
                    initialization,
                    obligations,
                    loans,
                ),
            },
        match result {
            Ok(()) => true,
            Err(errors) => forall|i: int|
                0 <= i < errors@.len() ==> error_in_body(*body, #[trigger] errors@[i]),
        },
{
    let mut errors: Vec<ValidationError> = Vec::new();
    let initialization = crate::initialization::validate(body);
    let mut index: usize = 0;
    while index < initialization.len()
        invariant
            index <= initialization@.len(),
            crate::initialization::errors_in_body(*body, initialization@),
            forall|i: int| 0 <= i < errors@.len() ==> error_in_body(*body, #[trigger] errors@[i]),
            errors@ == initialization@.take(index as int).map_values(
                |e: InitializationError| ValidationError::Initialization(e),
            ),
        decreases initialization@.len() - index,
    {
        errors.push(ValidationError::Initialization(initialization[index]));
        proof {
            assert(initialization@.take(index + 1) =~= initialization@.take(index as int).push(
                initialization@[index as int],
            ));
            assert(errors@ =~= initialization@.take(index + 1).map_values(
                |e: InitializationError| ValidationError::Initialization(e),
            ));
        }
        index = index + 1;
    }
    let ghost first = errors@;
    let obligations = crate::drop_obligations::validate(body);
    let mut index: usize = 0;
    while index < obligations.len()
        invariant
            index <= obligations@.len(),
            crate::drop_obligations::errors_in_body(*body, obligations@),
            forall|i: int| 0 <= i < errors@.len() ==> error_in_body(*body, #[trigger] errors@[i]),
            errors@ == first + obligations@.take(index as int).map_values(
                |e: DropObligationError| ValidationError::DropObligation(e),
            ),
        decreases obligations@.len() - index,
    {
        errors.push(ValidationError::DropObligation(obligations[index]));
        proof {
            assert(obligations@.take(index + 1) =~= obligations@.take(index as int).push(
                obligations@[index as int],
            ));
            assert(errors@ =~= first + obligations@.take(index + 1).map_values(
                |e: DropObligationError| ValidationError::DropObligation(e),
            ));
        }
        index = index + 1;
    }
    let ghost second = errors@;
    let loans = crate::loans::validate(body);
    let mut index: usize = 0;
    while index < loans.len()
        invariant
            index <= loans@.len(),
            crate::loans::errors_in_body(*body, loans@),
            forall|i: int| 0 <= i < errors@.len() ==> error_in_body(*body, #[trigger] errors@[i]),
            errors@ == second + loans@.take(index as int).map_values(|e: LoanError| ValidationError::Loan(e)),
        decreases loans@.len() - index,
    {
        errors.push(ValidationError::Loan(loans[index]));
        proof {
            assert(loans@.take(index + 1) =~= loans@.take(index as int).push(loans@[index as int]));
            assert(errors@ =~= second + loans@.take(index + 1).map_values(
                |e: LoanError| ValidationError::Loan(e),
            ));
        }
        index = index + 1;
    }
    proof {
        assert(initialization@.take(initialization@.len() as int) =~= initialization@);
        assert(obligations@.take(obligations@.len() as int) =~= obligations@);
        assert(loans@.take(loans@.len() as int) =~= loans@);
        assert(errors@ =~= combined(initialization@, obligations@, loans@));
        assert(Set::new(|e: DropObligationError| obligations@.contains(e)) =~= crate::drop_obligations::error_set(
            obligations@,
        ));
        if body.entry@ >= body.blocks@.len() {
            assert(Set::new(|e: DropObligationError| obligations@.contains(e)) =~= Set::<
                DropObligationError,
            >::empty());
        }
        assert(reports(*body, initialization@, obligations@, loans@));
    }
    if errors.len() == 0 {
        Ok(())
    } else {
        Err(errors)
    }
}

} // verus!
