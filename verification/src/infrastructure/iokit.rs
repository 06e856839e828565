//! Interpretation of IOKit return codes.
use crate::domain::power::PowerError;
use crate::text;
use vstd::prelude::*;

verus! {

/// `kIOReturnNotPrivileged`, as the unsigned bit pattern of the return code.
pub const NOT_PRIVILEGED: u32 = 0xe00002c1;

/// `kIOReturnNotPermitted`, as the unsigned bit pattern of the return code.
pub const NOT_PERMITTED: u32 = 0xe00002e2;

/// The message of an unexpected return code: the operation, then the code's
/// bit pattern in `0x`-prefixed lower-case hexadecimal.
pub open spec fn failure_message(operation: Seq<char>, code: i32) -> Seq<char> {
    operation + ": 0x"@ + text::hex_lower((code as u32) as nat)
}

/// Success, a permission refusal naming the operation, or a system API
/// failure naming the operation and the code.
pub fn check_return(code: i32, operation: &str) -> (r: Result<(), PowerError>)
    ensures
        (code as u32) == 0 ==> r is Ok,
        (code as u32) == NOT_PRIVILEGED || (code as u32) == NOT_PERMITTED ==> (r matches Err(
            PowerError::PermissionDenied(m),
        ) && m@ == operation@),
        (code as u32) != 0 && (code as u32) != NOT_PRIVILEGED && (code as u32) != NOT_PERMITTED ==> (r matches Err(
            PowerError::SystemApi(m),
        ) && m@ == failure_message(operation@, code)),
{
    let bits = code as u32;
    if bits == 0 {
        Ok(())
    } else if bits == NOT_PRIVILEGED || bits == NOT_PERMITTED {
        Err(PowerError::PermissionDenied(String::from_str(operation)))
    } else {
        let mut m = text::joined(operation, ": 0x");
        let digits = text::hex_text(bits as u64);
        m.append(digits.as_str());
        Err(PowerError::SystemApi(m))
    }
}

} // verus!
