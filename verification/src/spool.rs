//! What the library decides around sending a print PDF to a printer.

use vstd::prelude::*;
use crate::print::PrintError;
use crate::text::{push_str, string_of};

verus! {

/// A printer that the system offers.
#[derive(Debug, Clone)]
pub struct PrinterInfo {
    pub name: String,
    pub is_default: bool,
}

/// Checks the PDF before it goes to the spooler: an empty one is refused.
pub fn check_spool_pdf(pdf: &[u8]) -> (r: Result<(), PrintError>)
    ensures
        pdf@.len() == 0 <==> r is Err,
        r matches Err(e) ==> e.0@ == "PDF de impressão vazio"@,
{
    if pdf.len() == 0 {
        return Err(PrintError(string_of("PDF de impressão vazio")));
    }
    Ok(())
}

/// The outcome of a spool request, given what the system answered: no
/// printer of that name, or the spooler's job id or error message.
pub fn spool_outcome(printer: &str, sent: Option<Result<u64, String>>) -> (r: Result<u64, PrintError>)
    ensures
        match sent {
            None => r matches Err(e) && e.0@ == "impressora não encontrada: "@ + printer@,
            Some(Ok(job)) => r == Ok::<u64, PrintError>(job),
            Some(Err(m)) => r matches Err(e) && e.0@ == "falha no spool: "@ + m@,
        },
{
    match sent {
        None => {
            let mut msg = string_of("impressora não encontrada: ");
            push_str(&mut msg, printer);
            Err(PrintError(msg))
        },
        Some(Ok(job)) => Ok(job),
        Some(Err(m)) => {
            let mut msg = string_of("falha no spool: ");
            push_str(&mut msg, m.as_str());
            Err(PrintError(msg))
        },
    }
}

} // verus!
