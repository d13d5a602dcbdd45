//! The remote command builder.
//!
//! The remote device lister runs one command per poll over the
//! pre-established channel. The command is built once at startup from the
//! configured interface names: one station-dump sub-command per interface,
//! joined by a shell AND, or a single default sub-command when no interface
//! is configured.

use vstd::prelude::*;
use vstd::string::StringExecFns;

verus! {

/// The sub-command that lists the stations of one interface.
pub open spec fn sub_command_spec(interface: Seq<char>) -> Seq<char> {
    "iw dev "@ + interface + " station dump"@
}

/// The sub-command used when no interface is configured: the station dump
/// of the default interface.
pub open spec fn default_command_spec() -> Seq<char> {
    "iw dev station dump"@
}

/// The configured sub-commands joined by a shell AND.
pub open spec fn join_spec(interfaces: Seq<Seq<char>>) -> Seq<char>
    recommends
        interfaces.len() > 0,
    decreases interfaces.len(),
{
    if interfaces.len() <= 1 {
        sub_command_spec(interfaces.first())
    } else {
        join_spec(interfaces.drop_last()) + " && "@ + sub_command_spec(interfaces.last())
    }
}

/// The full remote command for a list of configured interfaces.
pub open spec fn command_spec(interfaces: Seq<Seq<char>>) -> Seq<char> {
    if interfaces.len() == 0 {
        default_command_spec()
    } else {
        join_spec(interfaces)
    }
}

/// Build the remote command once, from the configured interface names.
pub fn build_command(interfaces: &Vec<String>) -> (cmd: String)
    ensures
        cmd@ == command_spec(interfaces@.map_values(|s: String| s@)),
{
    let ghost ifs = interfaces@.map_values(|s: String| s@);
    if interfaces.len() == 0 {
        return String::from_str("iw dev station dump");
    }
    let mut cmd = String::from_str("iw dev ");
    cmd.append(interfaces[0].as_str());
    cmd.append(" station dump");
    proof {
        assert(ifs.take(1).first() == ifs[0]);
        assert(cmd@ == join_spec(ifs.take(1)));
    }
    let n = interfaces.len();
    let mut i: usize = 1;
    while i < n
        invariant
            1 <= i <= n,
            n == interfaces@.len(),
            ifs == interfaces@.map_values(|s: String| s@),
            ifs.len() == n,
            cmd@ == join_spec(ifs.take(i as int)),
        decreases n - i,
    {
        cmd.append(" && ");
        cmd.append("iw dev ");
        cmd.append(interfaces[i].as_str());
        cmd.append(" station dump");
        proof {
            assert(ifs.take(i as int + 1).drop_last() =~= ifs.take(i as int));
            assert(ifs.take(i as int + 1).last() == ifs[i as int]);
            assert(cmd@ =~= join_spec(ifs.take(i as int)) + " && "@ + sub_command_spec(
                ifs[i as int],
            ));
        }
        i = i + 1;
    }
    proof {
        assert(ifs.take(n as int) =~= ifs);
    }
    cmd
}

} // verus!
