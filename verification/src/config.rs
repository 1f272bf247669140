//! Command-line configuration: the command word, the domain, and the
//! redirect address, read from an argument vector.

use vstd::prelude::*;
use crate::ip::{parse_ipv4_range, spec_parse_ipv4, Ipv4Address};
use crate::text::{str_eq, str_to_chars};

verus! {

/// The three command words are pairwise distinct.
pub proof fn lemma_command_literals()
    ensures
        "list"@ != "block"@,
        "list"@ != "unblock"@,
        "block"@ != "unblock"@,
{
    reveal_strlit("list");
    reveal_strlit("block");
    reveal_strlit("unblock");
    assert("list"@.len() == 4);
    assert("block"@.len() == 5);
    assert("unblock"@.len() == 7);
}

/// What one invocation asks for.
#[derive(Debug, PartialEq)]
pub struct Config {
    pub command: String,
    pub redirect_ip: Option<Ipv4Address>,
    pub domain: Option<String>,
}

impl Config {
    /// The arguments a command needs always accompany it.
    pub open spec fn wf(&self) -> bool {
        &&& (self.command@ == "block"@ ==> self.domain is Some && self.redirect_ip is Some)
        &&& (self.command@ == "unblock"@ ==> self.domain is Some)
    }

    /// Reads the argument vector: the program name, then the command,
    /// then optionally a domain and a redirect address. A missing
    /// domain is accepted only for `list`; a missing address only for
    /// commands other than `block`; a third argument must be a
    /// dotted-quad IPv4 address.
    pub fn build(args: &Vec<String>) -> (r: Result<Config, &'static str>)
        ensures
            r is Err <==> {
                ||| args@.len() <= 1
                ||| (args@.len() == 2 && args@[1]@ != "list"@)
                ||| (args@.len() >= 4 && spec_parse_ipv4(args@[3]@) is None)
                ||| (args@.len() == 3 && args@[1]@ == "block"@)
            },
            match r {
                Ok(c) => {
                    &&& c.command@ == args@[1]@
                    &&& (args@.len() >= 3 ==> c.domain is Some && c.domain->0@ == args@[2]@)
                    &&& (args@.len() < 3 ==> c.domain is None)
                    &&& (args@.len() >= 4 ==> c.redirect_ip is Some && spec_parse_ipv4(args@[3]@)
                        == Some(c.redirect_ip->0))
                    &&& (args@.len() < 4 ==> c.redirect_ip is None)
                    &&& c.wf()
                },
                Err(e) => {
                    &&& (args@.len() <= 1 ==> e@ == "No command was supplied"@)
                    &&& (args@.len() == 2 ==> e@ == "No Redirect IP is provided!"@)
                    &&& (args@.len() == 3 ==> e@ == "No Redirect IP is provided!"@)
                    &&& (args@.len() >= 4 ==> e@ == "Invalid IP address"@)
                },
            },
    {
        proof {
            lemma_command_literals();
        }
        if args.len() <= 1 {
            return Err("No command was supplied");
        }
        let command: String = args[1].clone();
        let domain: Option<String> = if args.len() >= 3 {
            Some(args[2].clone())
        } else {
            if !str_eq(command.as_str(), "list") {
                return Err("No Redirect IP is provided!");
            }
            None
        };
        let redirect_ip: Option<Ipv4Address> = if args.len() >= 4 {
            let v = str_to_chars(args[3].as_str());
            proof {
                assert(v@.subrange(0, v@.len() as int) =~= args@[3]@);
            }
            match parse_ipv4_range(&v, 0, v.len()) {
                Some(ip) => Some(ip),
                None => {
                    return Err("Invalid IP address");
                },
            }
        } else {
            if str_eq(command.as_str(), "block") {
                return Err("No Redirect IP is provided!");
            }
            None
        };
        Ok(Config { command, redirect_ip, domain })
    }
}

} // verus!
