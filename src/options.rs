use vstd::prelude::*;

use crate::error::ErrorKind;

verus! {

/// The data directory argument that stands for `lablog` under the XDG data
/// directory.
pub open spec fn xdg_placeholder() -> Seq<char> {
    "$XDG_DATA_HOME/lablog"@
}

/// Whether the data directory argument stands for the XDG data directory.
pub fn is_xdg_placeholder(datadir: &str) -> (r: bool)
    ensures
        r == (datadir@ == xdg_placeholder()),
{
    datadir.to_owned() == "$XDG_DATA_HOME/lablog".to_owned()
}

/// Where the store lives.
pub struct Options {
    pub datadir: String,
}

impl Options {
    /// The options from the data directory argument: the placeholder stands
    /// for the XDG data directory, which must then be given; any other
    /// argument is the directory itself.
    pub fn try_from(datadir: &str, xdg_datadir: Option<String>) -> (r: Result<Options, ErrorKind>)
        ensures
            datadir@ != xdg_placeholder() ==> (r matches Ok(o) && o.datadir@ == datadir@),
            datadir@ == xdg_placeholder() ==> match xdg_datadir {
                Some(d) => r matches Ok(o) && o.datadir@ == d@,
                None => r == Err::<Options, ErrorKind>(ErrorKind::NoDataDirectory),
            },
    {
        if is_xdg_placeholder(datadir) {
            match xdg_datadir {
                Some(d) => Ok(Options { datadir: d }),
                None => Err(ErrorKind::NoDataDirectory),
            }
        } else {
            Ok(Options { datadir: datadir.to_owned() })
        }
    }
}

} // verus!
