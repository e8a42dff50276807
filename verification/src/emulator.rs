//! The command that shows the details of an emulator.

use vstd::prelude::*;

verus! {

/// The emulator that is shown if none is named.
pub const DEFAULT_NAME: &'static str = "fuchsia-emulator";

/// Shows the details of an emulator.
#[derive(Debug, PartialEq, Eq)]
pub struct ShowCommand {
    /// The name of the emulator instance.
    pub name: String,
}

impl ShowCommand {
    /// The command for the name that was given, if one was.
    pub fn from_name(name: Option<String>) -> (result: Self)
        ensures
            result.name@ == match name {
                Some(name) => name@,
                None => DEFAULT_NAME@,
            },
    {
        match name {
            Some(name) => ShowCommand { name },
            None => ShowCommand { name: DEFAULT_NAME.to_owned() },
        }
    }
}

impl Default for ShowCommand {
    fn default() -> (result: Self)
        ensures
            result.name@ == Seq::<char>::empty(),
    {
        ShowCommand { name: String::new() }
    }
}

/// Without a name, the emulator with the usual name is shown.
pub proof fn usual_name()
    ensures
        DEFAULT_NAME@ == "fuchsia-emulator"@,
{
}

} // verus!
