use website_blocker::config::Config;
use website_blocker::{Ipv4Address, ParseError, RunAction, RunError, Website};

fn args(parts: &[&str]) -> Vec<String> {
    let mut v = vec![String::from("prog")];
    for p in parts {
        v.push(String::from(*p));
    }
    v
}

#[test]
fn from_string_reads_address_and_domain() {
    let site = Website::from_string("127.0.0.1 localhost").unwrap();
    assert_eq!(site.domain, "localhost");
    assert_eq!(site.redirect_ip, Ipv4Address { o1: 127, o2: 0, o3: 0, o4: 1 });
    assert!(site.is_blocked);
}

#[test]
fn from_string_ignores_extra_tokens() {
    let site = Website::from_string("0.0.0.0 ads.example.com something else").unwrap();
    assert_eq!(site.domain, "ads.example.com");
    assert_eq!(site.redirect_ip, Ipv4Address { o1: 0, o2: 0, o3: 0, o4: 0 });
}

#[test]
fn from_string_rejects_five_part_address() {
    assert_eq!(Website::from_string("8.8.8.8.9 dns"), Err(ParseError::InvalidAddress));
}

#[test]
fn from_string_rejects_out_of_range_octet() {
    assert_eq!(Website::from_string("256.1.1.1 big.com"), Err(ParseError::InvalidAddress));
    assert_eq!(Website::from_string("999.1.1.1 big.com"), Err(ParseError::InvalidAddress));
}

#[test]
fn from_string_rejects_leading_zeros() {
    assert_eq!(Website::from_string("01.2.3.4 zero.com"), Err(ParseError::InvalidAddress));
    assert_eq!(Website::from_string("1.2.3.04 zero.com"), Err(ParseError::InvalidAddress));
}

#[test]
fn from_string_accepts_single_zero_octets() {
    let site = Website::from_string("0.0.0.0 zero.com").unwrap();
    assert_eq!(site.redirect_ip, Ipv4Address { o1: 0, o2: 0, o3: 0, o4: 0 });
}

#[test]
fn from_string_rejects_empty_and_missing_domain() {
    assert_eq!(Website::from_string(""), Err(ParseError::MissingAddress));
    assert_eq!(Website::from_string("   "), Err(ParseError::MissingAddress));
    assert_eq!(Website::from_string("1.2.3.4"), Err(ParseError::MissingDomain));
    assert_eq!(Website::from_string("1.2.3.4   "), Err(ParseError::MissingDomain));
}

#[test]
fn from_string_rejects_non_numeric_address() {
    assert_eq!(Website::from_string("localhost 1.2.3.4"), Err(ParseError::InvalidAddress));
}

#[test]
fn build_without_command_fails() {
    assert_eq!(Config::build(&args(&[])), Err("No command was supplied"));
}

#[test]
fn build_list_without_domain_succeeds() {
    let config = Config::build(&args(&["list"])).unwrap();
    assert_eq!(config.command, "list");
    assert!(config.domain.is_none());
    assert!(config.redirect_ip.is_none());
}

#[test]
fn build_block_without_domain_fails() {
    assert_eq!(Config::build(&args(&["block"])), Err("No Redirect IP is provided!"));
}

#[test]
fn build_block_without_address_fails() {
    assert_eq!(
        Config::build(&args(&["block", "ads.example.com"])),
        Err("No Redirect IP is provided!")
    );
}

#[test]
fn build_block_with_bad_address_fails() {
    assert_eq!(
        Config::build(&args(&["block", "ads.example.com", "8.8.8.8.9"])),
        Err("Invalid IP address")
    );
}

#[test]
fn build_block_with_full_arguments_succeeds() {
    let config = Config::build(&args(&["block", "ads.example.com", "127.0.0.1"])).unwrap();
    assert_eq!(config.command, "block");
    assert_eq!(config.domain.as_deref(), Some("ads.example.com"));
    assert_eq!(config.redirect_ip, Some(Ipv4Address { o1: 127, o2: 0, o3: 0, o4: 1 }));
}

#[test]
fn build_unblock_with_domain_succeeds() {
    let config = Config::build(&args(&["unblock", "ads.example.com"])).unwrap();
    assert_eq!(config.command, "unblock");
    assert_eq!(config.domain.as_deref(), Some("ads.example.com"));
    assert!(config.redirect_ip.is_none());
}

#[test]
fn run_list_reports_entries() {
    let config = Config::build(&args(&["list"])).unwrap();
    let text = "# head\n#!wb\n1.2.3.4 a.com\n";
    let action = website_blocker::run(&config, text).unwrap();
    assert_eq!(action, RunAction::Listing(String::from("1.2.3.4 a.com\n")));
}

#[test]
fn run_block_appends_marked_entry() {
    let config = Config::build(&args(&["block", "b.com", "0.0.0.0"])).unwrap();
    let action = website_blocker::run(&config, "# head\n").unwrap();
    assert_eq!(action, RunAction::Updated(String::from("# head\n#!wb\n0.0.0.0 b.com\n")));
}

#[test]
fn run_block_duplicate_fails() {
    let config = Config::build(&args(&["block", "a.com", "0.0.0.0"])).unwrap();
    let result = website_blocker::run(&config, "#!wb\n1.2.3.4 a.com\n");
    assert_eq!(result, Err(RunError::DuplicateDomain));
}

#[test]
fn run_unblock_removes_the_entry() {
    let config = Config::build(&args(&["unblock", "a.com"])).unwrap();
    let action = website_blocker::run(&config, "# head\n#!wb\n1.2.3.4 a.com\n").unwrap();
    assert_eq!(action, RunAction::Updated(String::from("# head\n")));
}

#[test]
fn run_unblock_missing_fails() {
    let config = Config::build(&args(&["unblock", "ghost.com"])).unwrap();
    let result = website_blocker::run(&config, "# head\n");
    assert_eq!(result, Err(RunError::DomainNotFound));
}

#[test]
fn run_unknown_command_fails() {
    let config =
        Config { command: String::from("frobnicate"), redirect_ip: None, domain: None };
    let result = website_blocker::run(&config, "");
    assert_eq!(result, Err(RunError::UnknownCommand));
}
