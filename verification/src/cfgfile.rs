//! Configuration file lookup.

use vstd::prelude::*;
use vstd::string::StringExecFns;

verus! {

/// The kind of a configuration file.
pub enum Type {
    System,
    Application,
    Machine,
}

/// The directory, under the configuration root, that holds files of a kind.
pub open spec fn spec_subdir(t: Type) -> Seq<char> {
    match t {
        Type::System => "systems"@,
        Type::Application => "apps"@,
        Type::Machine => "machines"@,
    }
}

/// The path of a configuration file under the configuration root directory:
/// the root, the kind's directory and the name, slash-separated, with the
/// configuration language's file extension.
pub fn find(t: Type, root: &str, name: &str) -> (r: String)
    ensures
        r@ == root@ + "/"@ + spec_subdir(t) + "/"@ + name@ + ".dhall"@,
{
    let mut p: String = root.to_owned();
    p.append("/");
    p.append(
        match t {
            Type::System => "systems",
            Type::Application => "apps",
            Type::Machine => "machines",
        },
    );
    p.append("/");
    p.append(name);
    p.append(".dhall");
    proof {
        assert(p@ =~= root@ + "/"@ + spec_subdir(t) + "/"@ + name@ + ".dhall"@);
    }
    p
}

} // verus!
