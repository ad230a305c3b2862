//! Files that let local tools find the running service.
use vstd::prelude::*;

use crate::text::{decimal, push_decimal};

verus! {

/// Content of the port file: `{"port":<port>,"pid":<pid>}` and a newline.
pub open spec fn port_file_text(port: u16, pid: u32) -> Seq<char> {
    "{\"port\":"@ + decimal(port as nat) + ",\"pid\":"@ + decimal(pid as nat) + "}\n"@
}

/// The port file's content for the listening port and this process.
pub fn port_file_content(port: u16, pid: u32) -> (r: String)
    ensures
        r@ == port_file_text(port, pid),
{
    let mut s = String::new();
    s.push_str("{\"port\":");
    push_decimal(&mut s, port as u64);
    s.push_str(",\"pid\":");
    push_decimal(&mut s, pid as u64);
    s.push_str("}\n");
    s
}

} // verus!
