//! What can go wrong while a net is read back, and how it is reported.
use crate::diagnostics::{DiagnosticModel, DiagnosticOrigin, Diagnostics, Severity};
use vstd::prelude::*;
use vstd::string::*;

verus! {

/// A part of a net that has no meaning as a term.
#[derive(Debug, Clone, Copy, PartialEq, Eq, Structural, Hash)]
pub enum ReadbackError {
    InvalidNumericMatch,
    InvalidNumericOp,
    ReachedRoot,
    Cyclic,
}

impl ReadbackError {
    /// The message for the user.
    pub open spec fn text(self) -> Seq<char> {
        match self {
            ReadbackError::InvalidNumericMatch => "Encountered an invalid 'switch'."@,
            ReadbackError::InvalidNumericOp => "Encountered an invalid numeric operation."@,
            ReadbackError::ReachedRoot => {
                "Unable to interpret the HVM result as a valid Bend term. (Reached Root)"@
            },
            ReadbackError::Cyclic => {
                "Unable to interpret the HVM result as a valid Bend term. (Cyclic Term)"@
            },
        }
    }

    /// The message for the user.
    pub fn message(self) -> (message: &'static str)
        ensures
            message@ == self.text(),
    {
        match self {
            ReadbackError::InvalidNumericMatch => "Encountered an invalid 'switch'.",
            ReadbackError::InvalidNumericOp => "Encountered an invalid numeric operation.",
            ReadbackError::ReachedRoot => {
                "Unable to interpret the HVM result as a valid Bend term. (Reached Root)"
            },
            ReadbackError::Cyclic => {
                "Unable to interpret the HVM result as a valid Bend term. (Cyclic Term)"
            },
        }
    }
}

/// How many times an error is in a sequence.
pub open spec fn occurrences(errors: Seq<ReadbackError>, error: ReadbackError) -> nat
    decreases errors.len(),
{
    if errors.len() == 0 {
        0
    } else {
        occurrences(errors.drop_last(), error) + if errors.last() == error {
            1nat
        } else {
            0nat
        }
    }
}

/// The decimal digits of a number, the most significant one first.
pub open spec fn decimal(n: nat) -> Seq<char>
    decreases n,
{
    if n < 10 {
        seq![(48 + n) as char]
    } else {
        decimal(n / 10).push((48 + n % 10) as char)
    }
}

/// The message about an error that occurred `count` times.
pub open spec fn counted_text(error: ReadbackError, count: nat) -> Seq<char> {
    if count > 1 {
        error.text() + (" ("@ + decimal(count) + " occurrences)"@)
    } else {
        error.text()
    }
}

/// The message, if one is due, about all the occurrences of an error.
pub open spec fn report_of(errors: Seq<ReadbackError>, error: ReadbackError) -> Seq<
    DiagnosticModel,
> {
    if occurrences(errors, error) == 0 {
        seq![]
    } else {
        seq![
            DiagnosticModel {
                message: counted_text(error, occurrences(errors, error)),
                severity: Severity::Warning,
                origin: DiagnosticOrigin::Readback,
            },
        ]
    }
}

/// The messages about a sequence of errors: one warning for each different error, with the
/// number of times that it occurred.
pub open spec fn report(errors: Seq<ReadbackError>) -> Seq<DiagnosticModel> {
    report_of(errors, ReadbackError::InvalidNumericMatch) + report_of(
        errors,
        ReadbackError::InvalidNumericOp,
    ) + report_of(errors, ReadbackError::ReachedRoot) + report_of(errors, ReadbackError::Cyclic)
}

/// The decimal digits of a number.
pub fn to_decimal(n: usize) -> (text: String)
    ensures
        text@ == decimal(n as nat),
    decreases n,
{
    let digits = "0123456789";
    proof {
        reveal_strlit("0123456789");
    }
    let digit: usize = n % 10;
    let last = digits.substring_char(digit, digit + 1);
    assert(last@ =~= seq![(48 + n % 10) as char]);
    if n < 10 {
        last.to_owned()
    } else {
        let text = to_decimal(n / 10).concat(last);
        assert(text@ =~= decimal(n as nat));
        text
    }
}

/// How many times an error is in a vector.
pub fn count_error(errors: &Vec<ReadbackError>, error: ReadbackError) -> (count: usize)
    ensures
        count == occurrences(errors@, error),
{
    let mut count: usize = 0;
    let mut i: usize = 0;
    while i < errors.len()
        invariant
            i <= errors.len(),
            count <= i,
            count == occurrences(errors@.take(i as int), error),
        decreases errors.len() - i,
    {
        assert(errors@.take(i + 1).drop_last() =~= errors@.take(i as int));
        if errors[i] == error {
            count += 1;
        }
        i += 1;
    }
    assert(errors@.take(i as int) =~= errors@);
    count
}

/// Adds the message, if one is due, about all the occurrences of an error.
pub fn report_error(
    errors: &Vec<ReadbackError>,
    error: ReadbackError,
    diagnostics: &mut Diagnostics,
)
    ensures
        final(diagnostics)@ == old(diagnostics)@ + report_of(errors@, error),
{
    let count = count_error(errors, error);
    if count > 1 {
        let text = error.message().to_owned().concat(" (").concat(to_decimal(count).as_str()).concat(
            " occurrences)",
        );
        assert(text@ =~= counted_text(error, count as nat));
        diagnostics.add_diagnostic(text.as_str(), Severity::Warning, DiagnosticOrigin::Readback);
    } else if count == 1 {
        diagnostics.add_diagnostic(error.message(), Severity::Warning, DiagnosticOrigin::Readback);
    }
    assert(diagnostics@ =~= old(diagnostics)@ + report_of(errors@, error));
}

/// Every error is counted by exactly one of the messages.
pub proof fn law_report_counts_every_error(errors: Seq<ReadbackError>)
    ensures
        occurrences(errors, ReadbackError::InvalidNumericMatch) + occurrences(
            errors,
            ReadbackError::InvalidNumericOp,
        ) + occurrences(errors, ReadbackError::ReachedRoot) + occurrences(
            errors,
            ReadbackError::Cyclic,
        ) == errors.len(),
    decreases errors.len(),
{
    if errors.len() > 0 {
        law_report_counts_every_error(errors.drop_last());
    }
}

/// A report is empty when there was no error, and only then.
pub proof fn law_report_is_empty_without_errors(errors: Seq<ReadbackError>)
    ensures
        report(errors).len() == 0 <==> errors.len() == 0,
{
    law_report_counts_every_error(errors);
}

/// An error occurs as often in two sequences together as in each of them, and once in itself.
pub proof fn law_occurrences(a: Seq<ReadbackError>, b: Seq<ReadbackError>, error: ReadbackError)
    ensures
        occurrences(a + b, error) == occurrences(a, error) + occurrences(b, error),
        occurrences(seq![error], error) == 1,
        occurrences(a, error) > 0 <==> a.contains(error),
    decreases a.len() + b.len(),
{
    assert(seq![error].drop_last() =~= Seq::<ReadbackError>::empty());
    assert(occurrences(Seq::<ReadbackError>::empty(), error) == 0);
    if b.len() > 0 {
        assert((a + b).drop_last() =~= a + b.drop_last());
        law_occurrences(a, b.drop_last(), error);
    } else {
        assert(a + b =~= a);
        if a.len() > 0 {
            law_occurrences(a.drop_last(), b, error);
            if a.drop_last().contains(error) {
                let i = choose|i: int| 0 <= i < a.len() - 1 && a.drop_last()[i] == error;
                assert(a[i] == error);
            }
            if a.contains(error) {
                let i = choose|i: int| 0 <= i < a.len() && a[i] == error;
                if i < a.len() - 1 {
                    assert(a.drop_last()[i] == error);
                }
            }
            assert(a.last() == error ==> a[a.len() - 1] == error);
        }
    }
}

/// The number that decimal digits stand for, the most significant one first.
pub open spec fn number_in(digits: Seq<char>) -> int
    decreases digits.len(),
{
    if digits.len() == 0 {
        0
    } else {
        10 * number_in(digits.drop_last()) + (digits.last() as int - '0' as int)
    }
}

/// The decimal digits of a number stand for it, without idle zeros in front.
pub proof fn law_decimal(n: nat)
    ensures
        number_in(decimal(n)) == n,
        decimal(n).len() > 0,
        decimal(n).len() > 1 ==> decimal(n)[0] != '0',
        forall|i: int| 0 <= i < decimal(n).len() ==> '0' <= #[trigger] decimal(n)[i] <= '9',
    decreases n,
{
    if n < 10 {
        assert(decimal(n).drop_last() =~= Seq::<char>::empty());
        assert(number_in(Seq::<char>::empty()) == 0);
    } else {
        let front = decimal(n / 10);
        law_decimal(n / 10);
        assert(decimal(n).drop_last() =~= front);
        assert(decimal(n)[0] == front[0]);
        if front.len() == 1 {
            assert(front.drop_last() =~= Seq::<char>::empty());
            assert(number_in(Seq::<char>::empty()) == 0);
            assert(front.last() == front[0]);
        }
        assert forall|i: int| 0 <= i < decimal(n).len() implies '0' <= #[trigger] decimal(
            n,
        )[i] <= '9' by {
            if i < front.len() {
                assert(decimal(n)[i] == front[i]);
            }
        }
    }
}

/// The message about all the occurrences of an error: its text, and how many there were when it was
/// more than one.
pub open spec fn is_message_about(
    diagnostic: DiagnosticModel,
    errors: Seq<ReadbackError>,
    error: ReadbackError,
) -> bool {
    let count = occurrences(errors, error);
    &&& diagnostic.severity is Warning
    &&& diagnostic.origin is Readback
    &&& count == 1 ==> diagnostic.message == error.text()
    &&& count > 1 ==> diagnostic.message == error.text() + " ("@ + decimal(count)
        + " occurrences)"@
}

/// The texts of the errors.
pub proof fn law_texts()
    ensures
        ReadbackError::InvalidNumericMatch.text() == "Encountered an invalid 'switch'."@,
        ReadbackError::InvalidNumericOp.text() == "Encountered an invalid numeric operation."@,
        ReadbackError::ReachedRoot.text()
            == "Unable to interpret the HVM result as a valid Bend term. (Reached Root)"@,
        ReadbackError::Cyclic.text()
            == "Unable to interpret the HVM result as a valid Bend term. (Cyclic Term)"@,
{
}

/// How many warnings are due about an error.
pub open spec fn due(errors: Seq<ReadbackError>, error: ReadbackError) -> nat {
    if errors.contains(error) {
        1
    } else {
        0
    }
}

/// Every error that was met is reported by a message about it, and there is no other message.
pub proof fn law_report(errors: Seq<ReadbackError>, error: ReadbackError)
    ensures
        errors.contains(error) ==> exists|i: int|
            0 <= i < report(errors).len() && is_message_about(
                #[trigger] report(errors)[i],
                errors,
                error,
            ),
        report(errors).len() == due(errors, ReadbackError::InvalidNumericMatch) + due(
            errors,
            ReadbackError::InvalidNumericOp,
        ) + due(errors, ReadbackError::ReachedRoot) + due(errors, ReadbackError::Cyclic),
{
    let a = report_of(errors, ReadbackError::InvalidNumericMatch);
    let b = report_of(errors, ReadbackError::InvalidNumericOp);
    let c = report_of(errors, ReadbackError::ReachedRoot);
    let d = report_of(errors, ReadbackError::Cyclic);
    law_occurrences(errors, seq![], ReadbackError::InvalidNumericMatch);
    law_occurrences(errors, seq![], ReadbackError::InvalidNumericOp);
    law_occurrences(errors, seq![], ReadbackError::ReachedRoot);
    law_occurrences(errors, seq![], ReadbackError::Cyclic);
    if errors.contains(error) {
        let i: int = match error {
            ReadbackError::InvalidNumericMatch => 0,
            ReadbackError::InvalidNumericOp => a.len() as int,
            ReadbackError::ReachedRoot => (a.len() + b.len()) as int,
            ReadbackError::Cyclic => (a.len() + b.len() + c.len()) as int,
        };
        let count = occurrences(errors, error);
        assert(report(errors)[i] == report_of(errors, error)[0]);
        assert(counted_text(error, count) =~= if count > 1 {
            error.text() + " ("@ + decimal(count) + " occurrences)"@
        } else {
            error.text()
        });
        assert(is_message_about(report(errors)[i], errors, error));
    }
}

} // verus!
