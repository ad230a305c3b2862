//! The popup window slot: created on first use, then reused.
use vstd::prelude::*;

verus! {

/// The value in `slot`, made by `init` when there is none yet; the flag
/// tells whether it was made now. When `init` fails, the slot stays empty
/// and its error is returned.
pub fn get_or_try_init<T, E, F: FnOnce() -> Result<T, E>>(slot: &mut Option<T>, init: F) -> (r:
    Result<(&mut T, bool), E>)
    requires
        *old(slot) is None ==> call_requires(init, ()),
    ensures
        match *old(slot) {
            Some(v) => r matches Ok((x, created)) && !created && *x == v && *final(slot) == Some(
                *final(x),
            ),
            None => match r {
                Ok((x, created)) => created && call_ensures(init, (), Ok(*x)) && *final(slot)
                    == Some(*final(x)),
                Err(e) => call_ensures(init, (), Err(e)) && *final(slot) is None,
            },
        },
{
    match slot {
        Some(value) => Ok((value, false)),
        None => {
            let v = init()?;
            Ok((slot.insert(v), true))
        },
    }
}

} // verus!
