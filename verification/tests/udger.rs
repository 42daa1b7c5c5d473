use traffic_analyzer::report::{
    bar, clip, is_clippable, leading_count, ranking, top_entries, Entry,
};
use traffic_analyzer::udger::{
    country_name, crawler_name, ip_to_long, Address, KnownIp, LogRow, Stats,
};

fn row(ip: &str, url: &str, agent: &str, count: u64) -> LogRow {
    LogRow {
        ip: ip.to_string(),
        url: url.to_string(),
        user_agent: agent.to_string(),
        count,
    }
}

fn known(country: Option<&str>, crawler: Option<&str>) -> Option<KnownIp> {
    Some(KnownIp {
        country: country.map(|s| s.to_string()),
        crawler: crawler.map(|s| s.to_string()),
    })
}

fn listed(entries: &[Entry]) -> Vec<(&str, u64)> {
    entries.iter().map(|e| (e.label.as_str(), e.count)).collect()
}

#[test]
fn numbers_of_addresses() {
    assert_eq!(ip_to_long(&Address::V4(1, 2, 3, 4)), Some(16909060));
    assert_eq!(ip_to_long(&Address::V4(255, 255, 255, 255)), Some(u32::MAX));
    assert_eq!(ip_to_long(&Address::V4(0, 0, 0, 0)), Some(0));
    assert_eq!(ip_to_long(&Address::V6), None);
    assert_ne!(ip_to_long(&Address::V4(0, 1, 0, 0)), ip_to_long(&Address::V4(0, 0, 1, 0)));
}

#[test]
fn names_that_are_missing() {
    assert_eq!(country_name(&None), "Unknown/Private");
    assert_eq!(country_name(&Some("KR".to_string())), "KR");
    assert_eq!(crawler_name(&Some("X".to_string()), "Googlebot"), "X");
    assert_eq!(crawler_name(&None, "Mozilla Googlebot bingbot"), "Googlebot (Est.)");
    assert_eq!(crawler_name(&None, "bingbot/2"), "Bingbot (Est.)");
    assert_eq!(crawler_name(&None, "googlebot"), "Unclassified Bot");
}

#[test]
fn rows_are_counted_in_every_table() {
    let mut s = Stats::new();
    let dc = Some("Cloud".to_string());
    s.record(&row("1.1.1.1", "/a", "bingbot", 3), &dc, &known(Some("US"), None));
    s.record(&row("1.1.1.1", "/b", "x", 2), &None, &known(None, Some("Crawler")));
    s.record(&row("2.2.2.2", "/a", "x", 10), &dc, &None);
    s.record(&row("3.3.3.3", "/a", "x", 5), &None, &None);
    assert_eq!(s.total_logs(), 20);
    assert_eq!((s.datacenter_hits(), s.known_ip_hits()), (13, 5));
    assert_eq!(s.datacenters().get("Cloud"), 13);
    assert_eq!((s.countries().get("US"), s.countries().get("Unknown/Private")), (3, 2));
    assert_eq!((s.urls().get("/a"), s.urls().get("/b")), (3, 2));
    assert_eq!((s.crawlers().get("Bingbot (Est.)"), s.crawlers().get("Crawler")), (3, 2));
    let ips = s.known_ips();
    assert_eq!(ips.len(), 1);
    assert_eq!(
        (ips[0].ip.as_str(), ips[0].country.as_str(), ips[0].crawler.as_str(), ips[0].count),
        ("1.1.1.1", "US", "Bingbot (Est.)", 5)
    );
}

#[test]
fn tables_agree() {
    let mut s = Stats::new();
    for i in 0..50u64 {
        let k = if i % 3 == 0 { None } else { known(Some("KR"), None) };
        let d = if i % 2 == 0 { Some("DC".to_string()) } else { None };
        s.record(&row(&format!("9.9.9.{}", i % 7), &format!("/{}", i % 5), "x", i), &d, &k);
        let sum = |c: &traffic_analyzer::keyed::Counts| -> u64 {
            (0..c.len()).map(|j| c.count(j)).sum()
        };
        let hits = s.known_ip_hits();
        assert_eq!(sum(s.urls()), hits);
        assert_eq!(sum(s.crawlers()), hits);
        assert_eq!(s.known_ips().iter().map(|e| e.count).sum::<u64>(), hits);
        assert!(hits <= s.total_logs() && s.datacenter_hits() <= s.total_logs());
    }
}

#[test]
fn known_addresses_are_ranked() {
    let mut s = Stats::new();
    for (ip, n) in [("a", 2), ("b", 5), ("c", 2)] {
        s.record(&row(ip, "/", "x", n), &None, &known(None, None));
    }
    let ips: Vec<String> = s.known_ips().into_iter().map(|e| e.ip).collect();
    assert_eq!(ips, ["b", "a", "c"]);
}

#[test]
fn rankings_start_with_the_largest() {
    let mut s = Stats::new();
    for (url, n) in [("/a", 2), ("/b", 5), ("/c", 2), ("/d", 9)] {
        s.record(&row("1.1.1.1", url, "x", n), &None, &known(None, None));
    }
    let all = ranking(s.urls());
    assert_eq!(listed(&all), [("/d", 9), ("/b", 5), ("/a", 2), ("/c", 2)]);
    assert_eq!(leading_count(&all), 9);
    let top = top_entries(all, 2);
    assert_eq!(listed(&top), [("/d", 9), ("/b", 5)]);
    assert_eq!(listed(&top_entries(top, 5)), [("/d", 9), ("/b", 5)]);
    assert_eq!(leading_count(&vec![]), 0);
}

#[test]
fn bars_fit_their_room() {
    assert_eq!(bar(2, true, 5), "██▌");
    assert_eq!(bar(2, false, 5), "██");
    assert_eq!(bar(5, true, 5), "█████");
    assert_eq!(bar(0, false, 5), "");
    for fill in 0..=5 {
        assert!(bar(fill, true, 5).chars().count() <= 5);
    }
}

#[test]
fn labels_are_clipped() {
    assert_eq!(clip("short", 5, 2), "short");
    assert_eq!(clip("longer", 5, 2), "lo...");
    assert_eq!(clip("가나다", 8, 6), "가나...");
    assert!(is_clippable("가나다", 8, 6) && !is_clippable("가나다", 8, 5));
    assert!(is_clippable("가나다", 9, 5));
}
