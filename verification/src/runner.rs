//! The command dispatcher: applies one command to the parsed document
//! and says what the caller should print or write back.

use vstd::prelude::*;
use crate::config::Config;
use crate::document::{
    first_domain_index, has_domain, spec_list_output, spec_parse_document, spec_render,
    WebsiteCollection, WebsiteCollectionV,
};
use crate::entry::{Website, WebsiteV};
use crate::text::str_eq;

verus! {

/// What a successful command asks the caller to do.
#[derive(Debug, PartialEq)]
pub enum RunAction {
    /// Print this listing; the file is unchanged.
    Listing(String),
    /// Write this text back as the new file contents.
    Updated(String),
}

/// Why a command failed.
#[derive(Clone, Copy, PartialEq, Eq, Structural, Debug)]
pub enum RunError {
    /// `block` found the domain already present.
    DuplicateDomain,
    /// `unblock` found no entry with the domain.
    DomainNotFound,
    /// The command word is not `list`, `block` or `unblock`.
    UnknownCommand,
}

/// Applies the configured command to the document the text denotes.
/// `list` reports the listing; `block` appends a new blocked entry;
/// `unblock` deletes the entry with the domain; both hand back the
/// re-rendered text.
pub fn run(config: &Config, hosts_text: &str) -> (r: Result<RunAction, RunError>)
    requires
        config.wf(),
    ensures
        ({
            let d = spec_parse_document(hosts_text@);
            &&& (config.command@ == "list"@ ==> {
                r matches Ok(RunAction::Listing(s)) && s@ == spec_list_output(d)
            })
            &&& (config.command@ == "block"@ ==> {
                let w = WebsiteV {
                    domain: config.domain->0@,
                    redirect_ip: config.redirect_ip->0,
                    is_blocked: true,
                };
                if has_domain(d.collection, w.domain) {
                    r matches Err(e) && e == RunError::DuplicateDomain
                } else {
                    r matches Ok(RunAction::Updated(s)) && s@ == spec_render(
                        WebsiteCollectionV {
                            metadata: d.metadata,
                            collection: d.collection.push(w),
                        },
                    )
                }
            })
            &&& (config.command@ == "unblock"@ ==> {
                if has_domain(d.collection, config.domain->0@) {
                    r matches Ok(RunAction::Updated(s)) && s@ == spec_render(
                        WebsiteCollectionV {
                            metadata: d.metadata,
                            collection: d.collection.remove(
                                first_domain_index(d.collection, config.domain->0@),
                            ),
                        },
                    )
                } else {
                    r matches Err(e) && e == RunError::DomainNotFound
                }
            })
            &&& (config.command@ != "list"@ && config.command@ != "block"@ && config.command@
                != "unblock"@ ==> {
                r matches Err(e) && e == RunError::UnknownCommand
            })
        }),
{
    proof {
        crate::config::lemma_command_literals();
    }
    let mut doc = WebsiteCollection::parse_document(hosts_text);
    if str_eq(config.command.as_str(), "list") {
        Ok(RunAction::Listing(doc.list_output()))
    } else if str_eq(config.command.as_str(), "block") {
        match (&config.domain, &config.redirect_ip) {
            (Some(d), Some(ip)) => {
                let website = Website { domain: d.clone(), redirect_ip: *ip, is_blocked: true };
                match doc.add(website) {
                    Ok(_) => {
                        proof {
                            assert(doc@ =~= WebsiteCollectionV {
                                metadata: spec_parse_document(hosts_text@).metadata,
                                collection: spec_parse_document(hosts_text@).collection.push(
                                    WebsiteV {
                                        domain: config.domain->0@,
                                        redirect_ip: config.redirect_ip->0,
                                        is_blocked: true,
                                    },
                                ),
                            });
                        }
                        Ok(RunAction::Updated(doc.render()))
                    },
                    Err(_) => Err(RunError::DuplicateDomain),
                }
            },
            _ => {
                proof {
                    assert(false);
                }
                Err(RunError::UnknownCommand)
            },
        }
    } else if str_eq(config.command.as_str(), "unblock") {
        match &config.domain {
            Some(d) => {
                match doc.remove(d.as_str()) {
                    Ok(_) => {
                        proof {
                            assert(doc@ =~= WebsiteCollectionV {
                                metadata: spec_parse_document(hosts_text@).metadata,
                                collection: spec_parse_document(hosts_text@).collection.remove(
                                    first_domain_index(
                                        spec_parse_document(hosts_text@).collection,
                                        config.domain->0@,
                                    ),
                                ),
                            });
                        }
                        Ok(RunAction::Updated(doc.render()))
                    },
                    Err(_) => Err(RunError::DomainNotFound),
                }
            },
            None => {
                proof {
                    assert(false);
                }
                Err(RunError::UnknownCommand)
            },
        }
    } else {
        Err(RunError::UnknownCommand)
    }
}

} // verus!
