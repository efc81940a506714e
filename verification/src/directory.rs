//! The `data` directory of a circuit project.

use vstd::prelude::*;
use vstd::string::StringExecFns;

verus! {

/// The name of the directory that holds the data of a circuit.
pub open spec fn data_name() -> Seq<char> {
    seq!['d', 'a', 't', 'a']
}

/// The path where the data directory of `path` stands, as its components:
/// inside `path` where `path` is a directory not itself named `data`, else
/// `path` itself.
pub open spec fn spec_data_path(path: Seq<Seq<char>>, is_directory: bool) -> Seq<Seq<char>> {
    if is_directory && !(path.len() > 0 && path.last() == data_name()) {
        path.push(data_name())
    } else {
        path
    }
}

pub struct Directory {}

impl Directory {
    /// The components of the data directory's path for the path with
    /// components `path`, which is a directory where `is_directory` holds.
    pub fn data_path(path: Vec<String>, is_directory: bool) -> (r: Vec<String>)
        ensures
            r@.map_values(|c: String| c@) == spec_data_path(path@.map_values(|c: String| c@), is_directory),
    {
        let name = String::from_str("data");
        proof {
            reveal_strlit("data");
            assert(name@ =~= data_name());
        }
        let n = path.len();
        let already = n > 0 && path[n - 1] == name;
        let mut path = path;
        let ghost before = path@;
        if is_directory && !already {
            path.push(name);
            proof {
                assert(path@.map_values(|c: String| c@) =~= before.map_values(|c: String| c@).push(data_name()));
            }
        }
        path
    }
}

} // verus!
