use vstd::prelude::*;
use vstd::string::{StrSliceExecFns, StringSliceAdditionalSpecFns};

verus! {

/// Appends the two greeting lines to `writer`.
pub fn hello(writer: &mut Vec<u8>)
    ensures
        final(writer)@ == old(writer)@ + "Hello, world!\n".spec_bytes() + "This is ykyki.\n".spec_bytes(),
{
    let mut first = "Hello, world!\n".as_bytes_vec();
    writer.append(&mut first);
    let mut second = "This is ykyki.\n".as_bytes_vec();
    writer.append(&mut second);
}

} // verus!
