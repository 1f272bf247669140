use website_blocker::{CollectionError, Ipv4Address, Website, WebsiteCollection};

fn site(domain: &str, o1: u8, o2: u8, o3: u8, o4: u8) -> Website {
    Website {
        domain: String::from(domain),
        redirect_ip: Ipv4Address { o1, o2, o3, o4 },
        is_blocked: true,
    }
}

#[test]
fn test_from_string_on_website_collection() {
    let hosts_file_contents = "\
# This website shouldn't be considered as a website
# Since there is no `#!wb` before it.
0.0.0.0 google.com

# The next will be
#!wb
127.0.0.1 localhost

# And this won't since there's an invalid
# IP address.
#!wb
8.8.8.8.9 dns
";
    let the_collection = WebsiteCollection {
        collection: vec![site("localhost", 127, 0, 0, 1)],
        metadata: "\
# This website shouldn't be considered as a website
# Since there is no `#!wb` before it.
0.0.0.0 google.com

# The next will be

# And this won't since there's an invalid
# IP address.
#!wb
8.8.8.8.9 dns
"
        .to_string(),
    };

    assert_eq!(the_collection, WebsiteCollection::parse_document(hosts_file_contents));
}

#[test]
fn test_to_string_on_website_collection() {
    let the_collection = WebsiteCollection {
        collection: vec![site("localhost", 127, 0, 0, 1)],
        metadata: "\
# This website shouldn't be considered as a website
# Since there is no `#!wb` before it.
0.0.0.0 google.com

# The next will be

# And this won't since there's an invalid
# IP address.
#!wb
8.8.8.8.9 dns\n"
            .to_string(),
    };

    assert_eq!(
        "\
# This website shouldn't be considered as a website
# Since there is no `#!wb` before it.
0.0.0.0 google.com

# The next will be

# And this won't since there's an invalid
# IP address.
#!wb
8.8.8.8.9 dns
#!wb
127.0.0.1 localhost
",
        the_collection.render()
    );
}

#[test]
fn parse_scenario_keeps_failed_pairs_as_passthrough() {
    let input = "0.0.0.0 google.com\n\n#!wb\n127.0.0.1 localhost\n#!wb\n8.8.8.8.9 dns\n";
    let doc = WebsiteCollection::parse_document(input);
    assert_eq!(doc.collection.len(), 1);
    assert_eq!(doc.collection[0], site("localhost", 127, 0, 0, 1));
    assert_eq!(doc.metadata, "0.0.0.0 google.com\n\n#!wb\n8.8.8.8.9 dns\n");
}

#[test]
fn render_scenario_comment_plus_entry() {
    let doc = WebsiteCollection {
        metadata: String::from("# comment\n"),
        collection: vec![site("example.com", 1, 2, 3, 4)],
    };
    assert_eq!(doc.render(), "# comment\n#!wb\n1.2.3.4 example.com\n");
}

#[test]
fn add_duplicate_domain_fails_and_leaves_collection_unchanged() {
    let mut doc = WebsiteCollection {
        metadata: String::new(),
        collection: vec![site("example.com", 1, 2, 3, 4)],
    };
    let result = doc.add(site("example.com", 9, 9, 9, 9));
    assert_eq!(result, Err(CollectionError::DuplicateDomain));
    assert_eq!(doc.collection.len(), 1);
    assert_eq!(doc.collection[0], site("example.com", 1, 2, 3, 4));
}

#[test]
fn remove_missing_domain_fails_and_leaves_collection_unchanged() {
    let mut doc = WebsiteCollection {
        metadata: String::from("# untouched\n"),
        collection: vec![site("example.com", 1, 2, 3, 4)],
    };
    let result = doc.remove("ghost.com");
    assert_eq!(result, Err(CollectionError::DomainNotFound));
    assert_eq!(doc.collection.len(), 1);
    assert_eq!(doc.metadata, "# untouched\n");
}

#[test]
fn list_output_of_empty_collection_is_the_message() {
    let doc = WebsiteCollection { metadata: String::from("# only comments\n"), collection: vec![] };
    assert_eq!(doc.list_output(), "No Websites were found!\n");
}

#[test]
fn list_output_prints_each_entry() {
    let doc = WebsiteCollection {
        metadata: String::new(),
        collection: vec![site("a.com", 0, 0, 0, 0), site("b.org", 10, 20, 30, 255)],
    };
    assert_eq!(doc.list_output(), "0.0.0.0 a.com\n10.20.30.255 b.org\n");
}

#[test]
fn add_then_remove_round_trips_the_collection() {
    let mut doc = WebsiteCollection { metadata: String::from("x y\n"), collection: vec![] };
    assert_eq!(doc.add(site("a.com", 0, 0, 0, 0)), Ok(()));
    assert_eq!(doc.add(site("b.com", 1, 1, 1, 1)), Ok(()));
    assert_eq!(doc.remove("a.com"), Ok(()));
    assert_eq!(doc.collection.len(), 1);
    assert_eq!(doc.collection[0].domain, "b.com");
}

#[test]
fn entry_line_without_marker_stays_passthrough() {
    let doc = WebsiteCollection::parse_document("1.2.3.4 foo.com\n5.6.7.8 bar.com\n");
    assert_eq!(doc.collection.len(), 0);
    assert_eq!(doc.metadata, "1.2.3.4 foo.com\n5.6.7.8 bar.com\n");
}

#[test]
fn marker_on_first_line_tags_the_second() {
    let doc = WebsiteCollection::parse_document("#!wb\n1.2.3.4 foo.com\n");
    assert_eq!(doc.collection.len(), 1);
    assert_eq!(doc.collection[0], site("foo.com", 1, 2, 3, 4));
    assert_eq!(doc.metadata, "");
}

#[test]
fn entry_on_very_first_line_is_never_consumed() {
    let doc = WebsiteCollection::parse_document("1.2.3.4 foo.com\n#!wb\n5.6.7.8 bar.com\n");
    assert_eq!(doc.collection.len(), 1);
    assert_eq!(doc.collection[0], site("bar.com", 5, 6, 7, 8));
    assert_eq!(doc.metadata, "1.2.3.4 foo.com\n");
}

#[test]
fn duplicate_domain_during_parsing_keeps_first_pair() {
    let input = "#!wb\n1.2.3.4 dup.com\n#!wb\n9.9.9.9 dup.com\n";
    let doc = WebsiteCollection::parse_document(input);
    assert_eq!(doc.collection.len(), 1);
    assert_eq!(doc.collection[0], site("dup.com", 1, 2, 3, 4));
    assert_eq!(doc.metadata, "#!wb\n9.9.9.9 dup.com\n");
}

#[test]
fn render_then_parse_restores_entries_and_metadata() {
    let doc = WebsiteCollection {
        metadata: String::from("# a comment\nunrelated line\n"),
        collection: vec![site("a.com", 1, 2, 3, 4), site("b.com", 200, 100, 0, 255)],
    };
    let reparsed = WebsiteCollection::parse_document(&doc.render());
    assert_eq!(reparsed, doc);
}

#[test]
fn marker_with_indentation_still_counts() {
    let doc = WebsiteCollection::parse_document("  #!wb  \n  1.2.3.4 spaced.com  \n");
    assert_eq!(doc.collection.len(), 1);
    assert_eq!(doc.collection[0], site("spaced.com", 1, 2, 3, 4));
}
