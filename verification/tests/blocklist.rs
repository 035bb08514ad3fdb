use netwatch::blocklist::{
    append_manual, build, check_announced, finish_body, is_valid_domain, new_health, normalize,
    ordered, push_chunk, remove_manual, set_health, Blocklist, BodyError, Entry, FetchEvent, ListText,
    RefreshOutcome, MAX_LIST_BYTES,
};

#[test]
fn parses_hosts_and_bare_formats() {
    let mut bl = Blocklist::default();
    bl.ingest(
        "# comment\n0.0.0.0 ads.example.com\n127.0.0.1 tracker.net\nbare.org\n0.0.0.0 localhost\n",
        "test",
        false,
    );
    assert_eq!(bl.lookup("ads.example.com"), Some("test"));
    assert_eq!(bl.lookup("tracker.net"), Some("test"));
    assert_eq!(bl.lookup("bare.org"), Some("test"));
    assert_eq!(bl.lookup("localhost"), None);
    assert_eq!(bl.lookup("example.com"), None);
}

#[test]
fn wildcards_match_subdomains_only() {
    let mut bl = Blocklist::default();
    bl.ingest("*.doubleclick.net\n", "test", false);
    assert_eq!(bl.lookup("stats.g.doubleclick.net"), Some("test"));
    assert_eq!(bl.lookup("ad.doubleclick.net"), Some("test"));
    // The apex itself is not covered by a `*.` rule.
    assert_eq!(bl.lookup("doubleclick.net"), None);
}

#[test]
fn allowlist_overrides_blocklist() {
    let mut bl = Blocklist::default();
    bl.ingest("*.example.com\nads.example.com\n", "test", false);
    bl.ingest("ads.example.com\n", "allow", true);
    assert_eq!(bl.lookup("ads.example.com"), None);
    assert_eq!(bl.lookup("other.example.com"), Some("test"));
}

#[test]
fn rejects_junk_entries() {
    assert!(normalize("").is_none());
    assert!(normalize("nodot").is_none());
    assert!(normalize("1.2.3.4").is_none());
    assert!(normalize("has space.com").is_none());
    assert!(normalize("bad..com").is_none());
    assert!(normalize("ok.example.com").is_some());
}

#[test]
fn attributes_each_domain_to_the_right_list() {
    let mut bl = Blocklist::default();
    bl.ingest("ads.one.com\n", "list-a", false);
    bl.ingest("ads.two.com\n", "list-b", false);
    bl.ingest("*.three.com\n", "list-c", false);

    assert_eq!(bl.lookup("ads.one.com"), Some("list-a"));
    assert_eq!(bl.lookup("ads.two.com"), Some("list-b"));
    assert_eq!(bl.lookup("x.three.com"), Some("list-c"));
    assert_eq!(bl.sources.len(), 3, "one slot per distinct list");
}

#[test]
fn a_list_ingested_twice_gets_one_source_slot() {
    let mut bl = Blocklist::default();
    bl.ingest("a.example.com\n", "same-list", false);
    bl.ingest("b.example.com\n", "same-list", false);

    assert_eq!(bl.sources.len(), 1, "the source must be interned, not duplicated");
    assert_eq!(bl.sources[0].entries, 2, "counts accumulate across calls");
    assert_eq!(bl.lookup("a.example.com"), Some("same-list"));
    assert_eq!(bl.lookup("b.example.com"), Some("same-list"));
}

#[test]
fn allow_lists_do_not_create_source_slots() {
    let mut bl = Blocklist::default();
    bl.ingest("ads.example.com\n", "blocklist", false);
    bl.ingest("ads.example.com\n", "allow.list", true);
    assert_eq!(bl.sources.len(), 1, "only the blocklist is a source");
    assert_eq!(bl.sources[0].name, "blocklist");
}

#[test]
fn first_list_to_claim_a_domain_keeps_the_attribution() {
    let mut bl = Blocklist::default();
    bl.ingest("dupe.example.com\n", "first", false);
    bl.ingest("dupe.example.com\n", "second", false);
    assert_eq!(bl.lookup("dupe.example.com"), Some("first"));
}

#[test]
fn strips_trailing_dot_and_uppercase() {
    let mut bl = Blocklist::default();
    bl.ingest("ADS.Example.COM.\n", "test", false);
    assert_eq!(bl.lookup("ads.example.com"), Some("test"));
}

fn sources(urls: &[&str]) -> Vec<String> {
    urls.iter().map(|u| u.to_string()).collect()
}

#[test]
fn every_source_failing_is_reported_as_a_total_failure() {
    let urls = sources(&["http://127.0.0.1:1/list.txt"]);
    let mut health = new_health(&urls);
    let mut outcome = RefreshOutcome::default();
    set_health(&mut health, &urls[0], FetchEvent::Begun, 100);
    outcome.record(&mut health, &urls[0], 100, Err("refused".to_string()));

    assert_eq!(outcome.attempted, 1);
    assert_eq!(outcome.succeeded, 0);
    assert!(outcome.total_failure(), "must not report a cheerful success");
    assert_eq!(outcome.failures.len(), 1);

    let h = &health[0];
    assert_eq!(h.state, "error", "never fetched, so this is an error");
    assert!(h.last_attempt.is_some());
    assert!(h.last_success.is_none());
    assert!(h.error.is_some());
}

#[test]
fn a_failure_after_a_success_is_stale_and_keeps_the_cached_list() {
    let urls = sources(&["http://127.0.0.1:1/list.txt"]);
    let mut health = new_health(&urls);
    set_health(&mut health, &urls[0], FetchEvent::Fetched(16), 1);
    assert_eq!(health[0].state, "ok");
    assert_eq!(health[0].last_success, Some(1));

    let mut outcome = RefreshOutcome::default();
    set_health(&mut health, &urls[0], FetchEvent::Begun, 2);
    outcome.record(&mut health, &urls[0], 2, Err("refused".to_string()));
    assert!(outcome.total_failure());
    assert_eq!(health[0].state, "stale", "a previously-good source degrades, not breaks");

    // The matcher still blocks off the copy that is there.
    let lists = [ListText {
        name: "list".to_string(),
        contents: "ads.example.com\n".to_string(),
        allow: false,
    }];
    let bl = build(true, &lists);
    assert!(bl.lookup("ads.example.com").is_some());
}

#[test]
fn partial_success_is_not_a_total_failure() {
    let urls = sources(&["http://127.0.0.1:8000/good.txt", "http://127.0.0.1:1/bad.txt"]);
    let mut health = new_health(&urls);
    let mut outcome = RefreshOutcome::default();
    let mut body: Vec<u8> = Vec::new();
    assert!(push_chunk(&mut body, b"0.0.0.0 tracker.example.com\n").is_ok());
    let n = finish_body(&body).unwrap();
    outcome.record(&mut health, &urls[0], 5, Ok(n));
    outcome.record(&mut health, &urls[1], 5, Err("refused".to_string()));

    assert_eq!(outcome.attempted, 2);
    assert_eq!(outcome.succeeded, 1);
    assert!(!outcome.total_failure(), "one good source is not a failure");
    assert_eq!(outcome.failures.len(), 1);
    assert_eq!(health[0].state, "ok");
    assert!(health[0].bytes.unwrap() > 0);
    assert_eq!(health[1].state, "error");
}

#[test]
fn a_source_that_was_never_tried_says_so() {
    let health = new_health(&sources(&["https://a.example/list", "https://b.example/list"]));
    assert_eq!(health.len(), 2);
    assert_eq!(health[1].url, "https://b.example/list");
    assert_eq!(health[1].state, "never_fetched");
    assert_eq!(health[1].last_attempt, None);
}

#[test]
fn without_a_client_every_source_fails() {
    let urls = sources(&["https://a.example/list", "https://b.example/list"]);
    let outcome = RefreshOutcome::unavailable(&urls, "no client");
    assert_eq!(outcome.attempted, 2);
    assert!(outcome.total_failure());
    assert_eq!(outcome.failures.len(), 2);
}

#[test]
fn bodies_are_bounded_and_not_empty() {
    assert!(check_announced(None).is_ok());
    assert!(check_announced(Some(MAX_LIST_BYTES)).is_ok());
    let e = check_announced(Some(MAX_LIST_BYTES + 1)).unwrap_err();
    assert_eq!(e.message(), "list is 67108865 bytes, over the 67108864 byte limit");
    let empty: Vec<u8> = Vec::new();
    let e = finish_body(&empty).unwrap_err();
    assert!(matches!(e, BodyError::Empty), "{}", e.message());
}

#[test]
fn a_disabled_blocklist_blocks_nothing() {
    let lists = [
        ListText {
            name: "list".to_string(),
            contents: "ads.example.com\n".to_string(),
            allow: false,
        },
    ];
    assert_eq!(build(false, &lists).lookup("ads.example.com"), None);
    assert_eq!(build(true, &lists).lookup("ads.example.com"), Some("list"));
    assert_eq!(build(true, &lists).len(), 1);
}

#[test]
fn hosts_lines_with_comments_and_several_names() {
    let mut bl = Blocklist::default();
    let n = bl.ingest(
        "! a header\n0.0.0.0 ads.example.com # why\n  tracker.example.net  \n\n",
        "mixed",
        false,
    );
    assert_eq!(n, 2);
    assert_eq!(bl.lookup("ads.example.com"), Some("mixed"));
    assert_eq!(bl.lookup("tracker.example.net"), Some("mixed"));
}

#[test]
fn the_closest_wildcard_names_the_list() {
    let mut bl = Blocklist::default();
    bl.ingest("*.example.com\n", "wide", false);
    bl.ingest("*.ads.example.com\n", "narrow", false);
    assert_eq!(bl.lookup("x.ads.example.com"), Some("narrow"));
    assert_eq!(bl.lookup("ads.example.com"), Some("wide"));
}

#[test]
fn an_allowed_wildcard_covers_what_lies_below() {
    let mut bl = Blocklist::default();
    bl.ingest("ads.example.com\nexample.com\n", "list", false);
    bl.ingest("*.example.com\n", "allow", true);
    assert!(bl.is_allowed("ads.example.com"));
    assert_eq!(bl.lookup("ads.example.com"), None);
    assert_eq!(bl.lookup("example.com"), Some("list"));
}

#[test]
fn manual_lists_take_each_domain_once() {
    assert_eq!(append_manual(None, " Ads.Example.COM ").unwrap().as_deref(), Some("ads.example.com\n"));
    assert!(append_manual(Some("ads.example.com\n"), "ads.example.com").unwrap().is_none());
    assert_eq!(
        append_manual(Some("ads.example.com\n"), "*.tracker.net").unwrap().as_deref(),
        Some("*.tracker.net\n")
    );
    assert_eq!(
        append_manual(None, "not a\tdomain").unwrap_err(),
        "\"not a\\tdomain\" is not a valid domain"
    );
    assert!(is_valid_domain("ads.example.com"));
    assert!(!is_valid_domain("localhost"));
}

#[test]
fn a_removed_domain_is_gone() {
    let left = remove_manual("ads.example.com\ntracker.net\n", "ads.example.com");
    assert_eq!(left, "tracker.net\n");
}

fn list(name: &str, contents: &str) -> (String, String) {
    (name.to_string(), contents.to_string())
}

#[test]
fn lists_are_read_in_order_and_allowed_names_win() {
    let lists = ordered(
        vec![list("https://a.example/list", "0.0.0.0 ads.example.com\n0.0.0.0 shared.net\n")],
        vec![list("local.txt", "shared.net\n*.tracker.org\n")],
        Some(list("deny.list", "ads.example.com\nmine.example.com\n")),
        Some(list("allow.list", "shared.net\n*.tracker.org\n")),
    );
    let names: Vec<&str> = lists.iter().map(|l| l.name.as_str()).collect();
    assert_eq!(names, ["https://a.example/list", "local.txt", "deny.list", "allow.list"]);
    assert_eq!(lists.iter().map(|l| l.allow).collect::<Vec<_>>(), [false, false, false, true]);
    let bl = build(true, &lists);
    assert_eq!(bl.lookup("ads.example.com"), Some("https://a.example/list"));
    assert_eq!(bl.lookup("mine.example.com"), Some("deny.list"));
    assert_eq!(bl.lookup("shared.net"), None);
    assert_eq!(bl.lookup("a.tracker.org"), None);
    let stats = bl.source_stats();
    let counts: Vec<(&str, usize)> = stats.iter().map(|s| (s.name.as_str(), s.entries)).collect();
    assert_eq!(counts, [("https://a.example/list", 2), ("local.txt", 1), ("deny.list", 1)]);
}

#[test]
fn an_added_domain_takes_effect_at_the_next_build() {
    let before = "# mine\nold.example.com\n";
    let line = append_manual(Some(before), "New.Example.COM").unwrap().unwrap();
    let after = format!("{before}{line}");
    let denied = build(true, &ordered(vec![], vec![], Some(list("deny.list", &after)), None));
    assert_eq!(denied.lookup("new.example.com"), Some("deny.list"));
    assert_eq!(denied.lookup("old.example.com"), Some("deny.list"));
    let allowed = build(
        true,
        &ordered(
            vec![list("a", "new.example.com\n")],
            vec![],
            None,
            Some(list("allow.list", &after)),
        ),
    );
    assert_eq!(allowed.lookup("new.example.com"), None);
    // A word that starts the lines of hosts files is taken for one of their addresses.
    let line = append_manual(None, "0.0.0.0.0").unwrap().unwrap();
    let marker = build(true, &ordered(vec![], vec![], Some(list("deny.list", &line)), None));
    assert_eq!(marker.lookup("0.0.0.0.0"), None);
}

#[test]
fn a_rule_of_an_ad_blocker_covers_a_domain_and_what_lies_below() {
    let mut bl = Blocklist::default();
    assert_eq!(bl.ingest("||ads.example.com^\n", "t", false), 1);
    assert_eq!(bl.lookup("ads.example.com"), Some("t"));
    assert_eq!(bl.lookup("a.b.ads.example.com"), Some("t"));
    assert_eq!(bl.lookup("example.com"), None);
    assert_eq!(bl.lookup("badads.example.com"), None);
    assert_eq!(bl.ingest("||ADS.example.com^ # again\n", "u", false), 0);
    assert_eq!(bl.len(), 1);
    // In a list that allows, it allows.
    assert_eq!(bl.ingest("||b.ads.example.com^\n", "allow", true), 1);
    assert_eq!(bl.lookup("a.b.ads.example.com"), None);
    assert_eq!(bl.lookup("ads.example.com"), Some("t"));
}

#[test]
fn an_exception_of_an_ad_blocker_allows_in_any_list() {
    for allow in [false, true] {
        let mut bl = Blocklist::default();
        bl.ingest("||example.com^\ngood.example.com\n", "t", false);
        let added = bl.ingest("@@||good.example.com^\n", "u", allow);
        assert_eq!(added, if allow { 1 } else { 0 });
        assert_eq!(bl.lookup("good.example.com"), None);
        assert_eq!(bl.lookup("www.good.example.com"), None);
        assert_eq!(bl.lookup("example.com"), Some("t"));
    }
}

#[test]
fn other_rules_of_ad_blockers_are_skipped() {
    for line in [
        "||ads.example.com^$third-party",
        "||ads.example.com/banner^",
        "||ads.example.com/banner",
        "||ads.example.com",
        "@@||ads.example.com",
        "@@||ads.example.com^$document",
        "@@ads.example.com",
        "|http://ads.example.com^",
        "||*.example.com^",
        "||1.2.3.4^",
        "||^",
        "ads.example.com/banner",
        "ads.example.com$popup",
        "0.0.0.0 ||ads.example.com^",
    ] {
        let mut bl = Blocklist::default();
        assert_eq!(bl.ingest(line, "t", false), 0, "{line}");
        assert_eq!(bl.lookup("ads.example.com"), None, "{line}");
        assert!(!bl.is_allowed("ads.example.com"), "{line}");
    }
}

#[test]
fn a_domain_is_appended_after_an_incomplete_line() {
    let before = "a.example.com";
    let added = append_manual(Some(before), "b.example.com").unwrap().unwrap();
    assert_eq!(added, "\nb.example.com\n");
    let after = format!("{before}{added}");
    assert_eq!(after, "a.example.com\nb.example.com\n");
    assert!(append_manual(Some(&after), "b.example.com").unwrap().is_none());
    assert_eq!(append_manual(Some(""), "b.example.com").unwrap().as_deref(), Some("b.example.com\n"));
    // The carriage return becomes part of the end of its line.
    let added = append_manual(Some("a.example.com\r"), "b.example.com").unwrap().unwrap();
    let lines: Vec<String> = format!("a.example.com\r{added}").lines().map(str::to_string).collect();
    assert_eq!(lines, ["a.example.com", "b.example.com"]);
}

#[test]
fn the_entries_of_the_sources_add_up() {
    let mut bl = Blocklist::default();
    bl.ingest("a.com\n*.b.com\n||c.com^\n@@||d.com^\n", "one", false);
    bl.ingest("a.com\ne.com\n||c.com^\n", "two", false);
    bl.ingest("f.com\n", "allow", true);
    bl.ingest("g.com\na.com\n", "one", false);
    assert_eq!(bl.len(), 5);
    assert_eq!(bl.sources.iter().map(|s| s.entries).sum::<usize>(), bl.len());
    assert_eq!(bl.ingest("f.com\n", "allow", true), 0);
}

#[test]
fn a_canonical_entry_is_left_alone() {
    for (raw, domain) in [(" Ads.Example.COM. ", "ads.example.com"), ("b.co", "b.co")] {
        match normalize(raw) {
            Some(Entry::Exact(d)) => {
                assert_eq!(d, domain);
                assert!(matches!(normalize(&d), Some(Entry::Exact(e)) if e == d));
            }
            _ => panic!("{raw} is a domain"),
        }
    }
}

#[test]
fn a_valid_domain_is_what_a_list_would_add() {
    for d in [
        "ads.example.com",
        "*.example.com",
        "Ads.Example.COM.",
        "localhost.localdomain",
        "localhost",
        "1.2.3.4",
        "0.0.0.0",
        "127.0.0.1",
        "::",
        "::1",
        "bad..com",
        "",
        ".",
        "@@example.com",
        "example.com/path",
    ] {
        let added = Blocklist::default().ingest(d, "t", false);
        assert_eq!(added, if is_valid_domain(d) { 1 } else { 0 }, "{d}");
    }
    assert!(is_valid_domain("0.0.0.0.0"));
    assert_eq!(Blocklist::default().ingest("0.0.0.0.0", "t", false), 0);
    assert!(!is_valid_domain("||example.com^"));
    assert_eq!(Blocklist::default().ingest("||example.com^", "t", false), 1);
}
