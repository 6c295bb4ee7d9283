use vstd::prelude::*;

verus! {

/// The port a probe connects to when the user names none.
pub const SSH_DEFAULT_PORT: u16 = 22;

/// Whether a user-supplied address names a port of its own: the decision
/// between taking the address as given and appending the default SSH port.
pub fn addr_has_port(addr: &String) -> (r: bool)
    ensures
        r == exists|i: int| 0 <= i < addr@.len() && addr@[i] == ':',
{
    let s = addr.as_str();
    let n = s.unicode_len();
    let mut i: usize = 0;
    while i < n
        invariant
            i <= n,
            n == addr@.len(),
            s@ == addr@,
            forall|j: int| 0 <= j < i ==> addr@[j] != ':',
        decreases n - i,
    {
        if s.get_char(i) == ':' {
            return true;
        }
        i = i + 1;
    }
    false
}

} // verus!
