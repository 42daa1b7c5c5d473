use traffic_analyzer::analyze_ip;
use traffic_analyzer::detection::{name_of_detection, DetectionType, Monitor, Watched};
use traffic_analyzer::enrich::{host_domain, Enricher};
use traffic_analyzer::ingress::{
    is_internal_ip, is_known_crawler, is_monitoring_agent, is_normal_app_api, is_own_host,
    is_relevant, is_static_resource, parse_status, request_from_groups, timed_matcher, Request,
    RequestFormat,
};
use traffic_analyzer::ip_400;
use traffic_analyzer::ip_static;
use traffic_analyzer::nginx::{parse_row, row_from_groups};
use traffic_analyzer::pattern::{Matcher, PatternError};
use traffic_analyzer::ratio::{Ratio, VisitorRatioStat};

fn log_line(ip: &str, url: &str, status: u32, agent: &str, host: &str) -> String {
    format!(
        "{} - - [10/Oct/2023:13:55:36 +0000] \"GET {} HTTP/1.1\" {} 512 \"-\" \"{}\" 100 0.005 \
         [default-front-service-80] [] 10.1.1.1:80 512 0.004 200 abc \"{}\"",
        ip, url, status, agent, host
    )
}

fn request(ip: &str, url: &str, status: u32, agent: &str, host: &str) -> Option<Request> {
    Some(Request {
        ip: ip.to_string(),
        method: "GET".to_string(),
        url: url.to_string(),
        status: status.to_string(),
        user_agent: agent.to_string(),
        host: host.to_string(),
    })
}

fn site(ip: &str, url: &str, status: u32) -> Option<Request> {
    request(ip, url, status, "Mozilla/5.0", "cmsn.info")
}

#[test]
fn a_line_is_read_as_a_request() {
    let format = RequestFormat::new().ok().unwrap();
    let line = log_line("1.2.3.4", "/A?b=c", 404, "Mozilla/5.0 (X11)", "api.cmsn.info");
    let q = format.parse(&line).unwrap();
    assert_eq!(q.ip, "1.2.3.4");
    assert_eq!(q.method, "GET");
    assert_eq!(q.url, "/A?b=c");
    assert_eq!(q.status, "404");
    assert_eq!(q.user_agent, "Mozilla/5.0 (X11)");
    assert_eq!(q.host, "api.cmsn.info");
    assert!(format.parse("not a request").is_none());
}

#[test]
fn a_bad_pattern_is_refused() {
    assert_eq!(Matcher::new("(").err(), Some(PatternError));
    let m = Matcher::new("(a)|(b)").ok().unwrap();
    assert_eq!(m.groups("xb"), Some(vec![Some("b".to_string()), None, Some("b".to_string())]));
    assert_eq!(m.groups("x"), None);
}

#[test]
fn groups_that_are_missing_make_no_request() {
    let all: Vec<Option<String>> =
        ["", "ip", "GET", "/", "200", "ua", "host"].iter().map(|s| Some(s.to_string())).collect();
    assert!(request_from_groups(&all, false).is_some());
    assert!(request_from_groups(&all, true).is_none());
    let mut partial = all.clone();
    partial[3] = None;
    assert!(request_from_groups(&partial, false).is_none());
}

#[test]
fn hosts_and_agents() {
    assert!(is_own_host("cmsn.info") && is_own_host("api.cmsn.info"));
    assert!(!is_own_host("grafana.cmsn.info") && !is_own_host(""));
    assert!(is_monitoring_agent("uptime-kuma/1.2") && is_monitoring_agent("x googlebot y"));
    assert!(is_monitoring_agent("twitterbot") && !is_monitoring_agent("bingbot"));
    for agent in ["googlebot", "bingbot", "twitterbot", "applebot", "yandexbot"] {
        assert!(is_known_crawler(agent));
    }
    assert!(!is_known_crawler("mozilla"));
}

#[test]
fn private_networks() {
    for ip in ["10.0.0.1", "192.168.1.1", "172.16.0.1", "172.31.255.255", "172.+16.0.1"] {
        assert!(is_internal_ip(ip));
    }
    for ip in ["11.0.0.1", "192.169.0.1", "172.15.0.1", "172.32.0.1", "172.", "172.x.1.1", "::1"] {
        assert!(!is_internal_ip(ip));
    }
}

#[test]
fn kinds_of_paths() {
    for url in ["/a.css", "/a.js?x", "/a.png", "/a.jpg", "/a.jpeg", "/f.ico", "/a.svg", "/a.woff2"] {
        assert!(is_static_resource(url));
    }
    assert!(is_static_resource("/api/images/1") && !is_static_resource("/api/items"));
    for url in [
        "/api/ds/1", "/api/query", "/api/items/5", "/api/users/slug/x", "/api/send", "/api/record",
        "/public/build/x", "/websites",
    ] {
        assert!(is_normal_app_api(url));
    }
    assert!(!is_normal_app_api("/admin"));
}

#[test]
fn statuses_are_read_or_zero() {
    assert_eq!(parse_status("404"), 404);
    assert_eq!(parse_status("99999999999"), 0);
    assert_eq!(parse_status(""), 0);
}

#[test]
fn what_counts_as_relevant() {
    assert!(is_relevant(&site("1.2.3.4", "/", 200).unwrap()));
    assert!(!is_relevant(&site("10.2.3.4", "/", 200).unwrap()));
    let monitor = request("1.2.3.4", "/", 200, "Uptime-Kuma/1.0", "cmsn.info");
    assert!(!is_relevant(&monitor.unwrap()));
    assert!(!is_relevant(&request("1.2.3.4", "/", 200, "x", "other.org").unwrap()));
}

#[test]
fn a_scanner_is_found_at_its_fifteenth_request() {
    let format = RequestFormat::new().ok().unwrap();
    let mut m: Monitor<ip_400::LiveSession> = Monitor::new();
    for i in 1..=15 {
        let line = log_line("5.5.5.5", "/wp-login.php", 404, "curl", "cmsn.info");
        let alert = m.observe_line(&format, &line);
        assert_eq!(alert.is_some(), i == 15);
        if let Some(a) = alert {
            assert_eq!((a.ip.as_str(), a.number, a.shown), ("5.5.5.5", 1, true));
        }
    }
    let s = m.lookup("5.5.5.5").unwrap();
    assert!(s.is_detected);
    assert_eq!(s.detection_type, Some(DetectionType::VulnerabilityScanner));
    assert_eq!(s.bad_status_ratio(), Ratio { num: 15, den: 15 });
    assert_eq!(m.flagged_addresses(), ["5.5.5.5"]);
    assert!(m.observe_line(&format, "junk").is_none());
    assert_eq!((m.total_lines(), m.relevant_lines(), m.bots()), (16, 15, 1));
}

#[test]
fn four_refusals_in_five_are_not_enough() {
    let mut m: Monitor<ip_400::LiveSession> = Monitor::new();
    for i in 0..15 {
        m.observe(site("1.1.1.1", "/x", if i < 3 { 200 } else { 403 }));
    }
    assert!(!m.lookup("1.1.1.1").unwrap().is_detected);
    m.observe(site("1.1.1.1", "/x", 401));
    assert!(m.lookup("1.1.1.1").unwrap().is_detected);
}

#[test]
fn a_known_crawler_is_not_taken_for_a_scanner() {
    let mut m: Monitor<ip_400::LiveSession> = Monitor::new();
    for _ in 0..30 {
        m.observe(request("1.1.1.1", "/x", 404, "Mozilla bingbot", "cmsn.info"));
    }
    assert_eq!(m.bots(), 0);
    m.observe(site("1.1.1.1", "/x", 404));
    assert_eq!(m.bots(), 1);
}

#[test]
fn missing_build_artefacts_are_forgiven() {
    let mut m: Monitor<ip_400::LiveSession> = Monitor::new();
    for _ in 0..20 {
        m.observe(site("1.1.1.1", "/_app/Immutable/x.js", 404));
        m.observe(site("2.2.2.2", "/public/build/x.js", 404));
    }
    assert_eq!(m.lookup("1.1.1.1").unwrap().bad_status_count, 0);
    assert_eq!(m.lookup("2.2.2.2").unwrap().bad_status_count, 0);
    assert_eq!(m.bots(), 0);
}

#[test]
fn other_addresses_are_untouched() {
    let mut m: Monitor<ip_400::LiveSession> = Monitor::new();
    m.observe(site("1.1.1.1", "/", 200));
    let before = *m.lookup("1.1.1.1").unwrap();
    for _ in 0..20 {
        m.observe(site("2.2.2.2", "/", 404));
        m.observe(None);
        m.observe(site("10.0.0.1", "/", 404));
    }
    assert_eq!(*m.lookup("1.1.1.1").unwrap(), before);
    assert!(m.lookup("10.0.0.1").is_none());
    assert_eq!((m.total_lines(), m.relevant_lines()), (61, 21));
    assert_eq!((m.len(), m.address(1).as_str()), (2, "2.2.2.2"));
}

#[test]
fn addresses_are_watched_apart() {
    let own = |i: u32| site("1.1.1.1", if i % 2 == 0 { "/x" } else { "/a.css" }, 400 + i % 5);
    let mut alone: Monitor<analyze_ip::LiveSession> = Monitor::new();
    let mut among: Monitor<analyze_ip::LiveSession> = Monitor::new();
    for i in 0..40 {
        alone.observe(own(i));
        among.observe(own(i));
        among.observe(site(&format!("2.2.2.{}", i % 3), "/y", 404));
        among.observe(None);
    }
    assert_eq!(alone.lookup("1.1.1.1"), among.lookup("1.1.1.1"));
    assert!(alone.lookup("2.2.2.0").is_none() && among.lookup("2.2.2.0").is_some());
}

#[test]
fn only_the_first_twenty_are_shown() {
    let mut m: Monitor<ip_400::LiveSession> = Monitor::new();
    for n in 0..25u64 {
        let ip = format!("7.7.7.{}", n);
        for i in 0..15 {
            let alert = m.observe(site(&ip, "/x", 404));
            if i == 14 {
                let a = alert.unwrap();
                assert_eq!((a.number, a.shown), (n + 1, n < 20));
            }
        }
    }
    assert_eq!(m.bots(), 25);
    assert_eq!(m.flagged_addresses().len(), 25);
}

#[test]
fn a_flag_stays() {
    let mut m: Monitor<ip_400::LiveSession> = Monitor::new();
    for _ in 0..15 {
        m.observe(site("1.1.1.1", "/x", 404));
    }
    for _ in 0..100 {
        assert!(m.observe(site("1.1.1.1", "/x", 200)).is_none());
    }
    let s = m.lookup("1.1.1.1").unwrap();
    assert!(s.is_detected && s.is_flagged());
    assert_eq!((s.total_requests, s.bad_status_count), (115, 15));
}

#[test]
fn shares_are_ranked_and_binned() {
    let mut m: Monitor<ip_400::LiveSession> = Monitor::new();
    for (ip, bad, all) in [("1.1.1.1", 1, 4), ("2.2.2.2", 2, 2), ("3.3.3.3", 0, 3)] {
        for i in 0..all {
            m.observe(site(ip, "/x", if i < bad { 404 } else { 200 }));
        }
    }
    let stats = ip_400::visitor_ratio_stats(&m);
    let ips: Vec<&str> = stats.iter().map(|s| s.ip.as_str()).collect();
    assert_eq!(ips, ["2.2.2.2", "1.1.1.1", "3.3.3.3"]);
    let bins = ip_400::bad_status_bins(&stats);
    let mut expected = vec![0; 20];
    expected[19] = 1;
    expected[5] = 1;
    expected[0] = 1;
    assert_eq!(bins, expected);
    assert_eq!(bins.iter().sum::<usize>(), stats.len());
}

#[test]
fn a_scraper_reads_no_resources() {
    let mut m: Monitor<ip_static::LiveSession> = Monitor::new();
    for i in 1..=15 {
        let alert = m.observe(site("1.1.1.1", "/page", 200));
        assert_eq!(alert.is_some(), i == 15);
    }
    let s = m.lookup("1.1.1.1").unwrap();
    assert_eq!(s.detection_type, Some(DetectionType::StealthScraper));
    assert_eq!(s.static_odds_ratio(), Ratio { num: 0, den: 15 });
}

#[test]
fn a_browser_reads_resources() {
    let mut m: Monitor<ip_static::LiveSession> = Monitor::new();
    for i in 0..26 {
        m.observe(site("1.1.1.1", if i % 13 < 10 { "/page" } else { "/a.CSS" }, 404));
    }
    let s = m.lookup("1.1.1.1").unwrap();
    assert_eq!((s.dynamic_count, s.static_count), (20, 6));
    let mut other: Monitor<ip_static::LiveSession> = Monitor::new();
    for _ in 0..15 {
        other.observe(site("1.1.1.1", "/a.css", 200));
    }
    let s = other.lookup("1.1.1.1").unwrap();
    assert!(!s.is_detected);
    assert_eq!(s.static_odds_ratio(), Ratio { num: 100, den: 1 });
}

#[test]
fn scrapers_are_not_judged_on_the_sites_own_calls() {
    let mut m: Monitor<ip_static::LiveSession> = Monitor::new();
    for _ in 0..40 {
        m.observe(site("1.1.1.1", "/api/items", 200));
    }
    assert_eq!(m.bots(), 0);
    m.observe(request("1.1.1.1", "/page", 200, "AppleBot", "cmsn.info"));
    assert_eq!(m.bots(), 0);
    m.observe(site("1.1.1.1", "/page", 500));
    assert_eq!(m.bots(), 1);
}

#[test]
fn the_status_plays_no_part_in_scraping() {
    let s = ip_static::LiveSession::start();
    assert_eq!(s.observe(200, "/x", "a"), s.observe(404, "/x", "a"));
}

#[test]
fn odds_fall_into_rows() {
    let stat = |num, den| VisitorRatioStat { ip: String::new(), ratio: Ratio { num, den } };
    let stats = vec![
        stat(0, 1),
        stat(1, 21),
        stat(1, 20),
        stat(1, 10),
        stat(1, 5),
        stat(1, 2),
        stat(1, 1),
        stat(100, 1),
    ];
    let table = ip_static::static_odds_table(&stats);
    assert_eq!(table, [1, 1, 1, 1, 1, 1, 2]);
    assert_eq!(table.iter().sum::<usize>(), stats.len());
}

#[test]
fn odds_are_ranked() {
    let mut m: Monitor<ip_static::LiveSession> = Monitor::new();
    for (ip, urls) in [("1.1.1.1", vec!["/p", "/p", "/a.js"]), ("2.2.2.2", vec!["/a.js"])] {
        for url in urls {
            m.observe(site(ip, url, 200));
        }
    }
    for _ in 0..150 {
        m.observe(site("3.3.3.3", "/a.js", 200));
    }
    m.observe(site("3.3.3.3", "/p", 200));
    let stats = ip_static::visitor_ratio_stats(&m);
    let ips: Vec<&str> = stats.iter().map(|s| s.ip.as_str()).collect();
    assert_eq!(ips, ["3.3.3.3", "2.2.2.2", "1.1.1.1"]);
    let rows: Vec<usize> = stats
        .iter()
        .map(|s| {
            let one = vec![VisitorRatioStat { ip: s.ip.clone(), ratio: s.ratio }];
            ip_static::static_odds_table(&one).iter().position(|&n| n == 1).unwrap()
        })
        .collect();
    assert_eq!(rows, [6, 6, 5]);
}

#[test]
fn the_combined_rule_knows_both_kinds() {
    let mut m: Monitor<analyze_ip::LiveSession> = Monitor::new();
    for _ in 0..15 {
        m.observe(site("1.1.1.1", "/x", 404));
        m.observe(site("2.2.2.2", "/x", 200));
        m.observe(site("3.3.3.3", "/api/items", 200));
    }
    let kind = |ip: &str| m.lookup(ip).unwrap().detection_type;
    assert_eq!(kind("1.1.1.1"), Some(DetectionType::VulnerabilityScanner));
    assert_eq!(kind("2.2.2.2"), Some(DetectionType::StealthScraper));
    assert_eq!(kind("3.3.3.3"), None);
}

#[test]
fn a_found_address_keeps_its_kind_and_is_counted_further() {
    let mut m: Monitor<analyze_ip::LiveSession> = Monitor::new();
    for _ in 0..15 {
        m.observe(site("2.2.2.2", "/x", 200));
    }
    for _ in 0..200 {
        m.observe(site("2.2.2.2", "/a.css", 500));
    }
    let s = m.lookup("2.2.2.2").unwrap();
    assert_eq!(s.detection_type, Some(DetectionType::StealthScraper));
    assert_eq!((s.total_requests, s.bad_status_count), (215, 200));
    assert_eq!((s.dynamic_count, s.static_count), (15, 200));
}

#[test]
fn no_hasty_verdict() {
    let mut m: Monitor<analyze_ip::LiveSession> = Monitor::new();
    for _ in 0..14 {
        assert!(m.observe(site("1.1.1.1", "/x", 404)).is_none());
    }
    assert_eq!(m.bots(), 0);
}

#[test]
fn names_of_kinds() {
    assert_eq!(name_of_detection(None), "Unknown");
    assert_eq!(DetectionType::VulnerabilityScanner.as_str(), "Vulnerability Scanner");
    assert_eq!(name_of_detection(Some(DetectionType::StealthScraper)), "Stealth Scraper");
}

#[test]
fn a_line_becomes_a_row() {
    let format = timed_matcher().ok().unwrap();
    let row = parse_row(&format, &log_line("1.2.3.4", "/x", 301, "ua", "cmsn.info")).unwrap();
    assert_eq!(row.ip, "1.2.3.4");
    assert_eq!(row.timestamp, "10/Oct/2023:13:55:36 +0000");
    assert_eq!((row.method.as_str(), row.url.as_str()), ("GET", "/x"));
    assert_eq!(row.status, 301);
    assert_eq!((row.user_agent.as_str(), row.host.as_str()), ("ua", "cmsn.info"));
    assert!(parse_row(&format, "junk").is_none());
}

#[test]
fn a_row_may_lack_agent_and_host() {
    let mut g: Vec<Option<String>> =
        ["", "ip", "t", "GET", "/", "x"].iter().map(|s| Some(s.to_string())).collect();
    let row = row_from_groups(&g).unwrap();
    assert_eq!((row.status, row.user_agent.as_str(), row.host.as_str()), (0, "-", "-"));
    g[2] = None;
    assert!(row_from_groups(&g).is_none());
}

#[test]
fn hosts_are_added_to_lines() {
    let mut e = Enricher::new().ok().unwrap();
    let line = "1.1.1.1 - - [x] \"GET / HTTP/1.1\" 200 1 \"-\" \"ua\" 1 0 [ns-back-service-80] [] up 1";
    assert_eq!(e.enrich(line), format!("{} \"api.cmsn.info\"", line));
    assert_eq!(e.enrich("no service here"), "no service here");
    assert_eq!((e.total_lines(), e.enriched_lines()), (2, 1));
}

#[test]
fn hosts_of_services() {
    assert_eq!(host_domain("ns-front-service-80"), "cmsn.info");
    assert_eq!(host_domain("ns-back-service-80"), "api.cmsn.info");
    assert_eq!(host_domain("umami-3000"), "umami.cmsn.info");
    assert_eq!(host_domain("grafana"), "grafana.cmsn.info");
    assert_eq!(host_domain("other"), "-");
}
