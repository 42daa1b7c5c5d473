use traffic_analyzer::bot_route;
use traffic_analyzer::dwell::{bucket_counts, dwell_bucket, repeat_ratio};
use traffic_analyzer::heatmap::transition_heatmap;
use traffic_analyzer::ingress::{timed_matcher, Request};
use traffic_analyzer::ip_route;
use traffic_analyzer::ratio::Ratio;
use traffic_analyzer::route;
use traffic_analyzer::stamp::{is_normalizable, normalize_offset, read_time, TimeError};
use traffic_analyzer::transitions::{MarkovDetector, TransitionTable};
use traffic_analyzer::visits::{
    analyze_sessions, dwell_times, in_time_order, session_path_row, session_trace, SessionTrace,
    VisitLog, WebEvent,
};

const VISIT: &str = "0123456789abcdef0123456789abcdef";

fn event(url: &str, at: i64) -> WebEvent {
    WebEvent { url_path: url.to_string(), created_at: at }
}

fn strings(list: &[&str]) -> Vec<String> {
    list.iter().map(|s| s.to_string()).collect()
}

fn dump_line(time: &str, url: &str, kind: &str, visit: &str) -> String {
    let mut columns = vec!["x"; 14];
    columns[3] = time;
    columns[4] = url;
    columns[10] = kind;
    columns[12] = visit;
    columns.join("\t")
}

fn log_line(ip: &str, time: &str, url: &str, status: u32, agent: &str, host: &str) -> String {
    format!(
        "{} - - [{}] \"GET {} HTTP/1.1\" {} 512 \"-\" \"{}\" 100 0.005 [svc] [] up 200 \"{}\"",
        ip, time, url, status, agent, host
    )
}

#[test]
fn times_are_read() {
    let format = "%Y-%m-%d %H:%M:%S%.f%z";
    assert_eq!(read_time("1970-01-01 00:00:01.5+0000", format), Ok(1500));
    assert_eq!(read_time("2024-03-01 09:00:00 +0900", format), Ok(1709251200000));
}

#[test]
fn times_that_cannot_be_read() {
    let format = "%Y-%m-%d %H:%M:%S%z";
    assert_eq!(read_time("2024-13-01 00:00:00+0000", format), Err(TimeError::OutOfRange));
    assert_eq!(read_time("2024-xx-01 00:00:00+0000", format), Err(TimeError::Invalid));
    assert_eq!(read_time("2024-01-", format), Err(TimeError::TooShort));
    assert_eq!(read_time("2024-01-01 00:00:00+0000 x", format), Err(TimeError::TooLong));
    assert_eq!(read_time("12:30 +0000", "%H:%M %z"), Err(TimeError::NotEnough));
    assert_eq!(
        read_time("Mon 2024-01-02 00:00:00+0000", "%a %Y-%m-%d %H:%M:%S%z"),
        Err(TimeError::Impossible)
    );
    assert_eq!(read_time("2024", "%"), Err(TimeError::BadFormat));
}

#[test]
fn offsets_are_filled_up() {
    assert_eq!(normalize_offset("2024-01-01 00:00:00+09"), "2024-01-01 00:00:00+0900");
    assert_eq!(normalize_offset("2024-01-01 00:00:00-03"), "2024-01-01 00:00:00-0300");
    assert_eq!(normalize_offset("2024-01-01 00:00:00"), "2024-01-01 00:00:00 +0000");
    assert_eq!(normalize_offset("2024-01-01 00:00:00+0900"), "2024-01-01 00:00:00+0900");
    assert_eq!(normalize_offset("2024-01-01 00:00:00-0300"), "2024-01-01 00:00:00-0300");
    assert!(!is_normalizable("short") && is_normalizable("sho+t") && is_normalizable("0123456789"));
}

#[test]
fn categories_of_pages() {
    for path in ["/", "", "  ", "\"/\"", "'/'", "/list/3", "/t/abc", "/tag"] {
        assert_eq!(route::categorize_path(path), "[List]");
    }
    assert_eq!(route::categorize_path("/search?q=x"), "[Search]");
    assert_eq!(route::categorize_path("/category/1"), "[Search]");
    assert_eq!(route::categorize_path("/i/5"), "[Detail]");
    assert_eq!(route::categorize_path("/post/5"), "[Detail]");
    assert_eq!(route::categorize_path("/users/me"), "[users]");
    assert_eq!(route::categorize_path("about"), "[about]");
    assert_eq!(route::categorize_path("//"), "[Other]");
}

#[test]
fn categories_of_requests() {
    for path in ["/", "?q=1", "/?q=1", "/api/items?page=2", "/items/list", "/t/x"] {
        assert_eq!(ip_route::categorize_path(path), "[List]");
    }
    assert_eq!(ip_route::categorize_path("/search?q=/i/"), "[Search]");
    assert_eq!(ip_route::categorize_path("/i/5"), "[Detail]");
    assert_eq!(ip_route::categorize_path("/post/5?x=/t"), "[Detail]");
    assert_eq!(ip_route::categorize_path("/users/me"), "");
}

#[test]
fn page_views_are_told_from_other_lines() {
    let good = dump_line(" 2024-01-01 00:00:00+00 ", " /i/1 ", " 1 ", VISIT);
    let v = route::parse_page_view(&good).unwrap();
    assert_eq!(v.visit_id, VISIT);
    assert_eq!(v.url_path, "/i/1");
    assert_eq!(v.created_at, "2024-01-01 00:00:00+00");
    assert!(route::parse_page_view(&dump_line("t", "/", "2", VISIT)).is_none());
    assert!(route::parse_page_view(&dump_line("t", "/", "1", &VISIT[1..])).is_none());
    assert!(route::parse_page_view("a\tb").is_none());
    for start in ["--", "CREATE", "ALTER", "COPY"] {
        assert!(route::parse_page_view(&format!("{}{}", start, good)).is_none());
    }
    assert!(route::parse_page_view("\\.").is_none());
}

#[test]
fn page_views_are_filed_under_their_visits() {
    let mut log = VisitLog::new();
    let other = VISIT.replace('0', "f");
    for (time, visit) in [
        ("1970-01-01 00:00:02+00", VISIT),
        ("1970-01-01 00:00:01", other.as_str()),
        ("bad time here", VISIT),
    ] {
        let line = dump_line(time, "/i/1", "1", visit);
        assert!(route::is_readable(&line));
        let bad = route::read_line(&mut log, &line);
        assert_eq!(bad.is_some(), time.starts_with("bad"));
        if let Some(b) = bad {
            assert_eq!(b.text, "bad time here");
            assert_eq!(b.error, TimeError::Invalid);
        }
    }
    assert!(route::read_line(&mut log, "-- comment").is_none());
    assert_eq!((log.len(), log.event_count()), (2, 3));
    assert_eq!(log.visit_id(0), VISIT);
    let times: Vec<i64> = log.events(0).iter().map(|e| e.created_at).collect();
    assert_eq!(times, [2000, 0]);
    assert_eq!(log.events(1)[0].created_at, 1000);
    assert!(!route::is_readable(&dump_line("2024", "/", "1", VISIT)));
}

#[test]
fn events_are_put_in_order_of_time() {
    let ordered = in_time_order(&vec![event("c", 3), event("a", 1), event("b", 1)]);
    let urls: Vec<&str> = ordered.iter().map(|e| e.url_path.as_str()).collect();
    assert_eq!(urls, ["a", "b", "c"]);
    assert_eq!(dwell_times(&ordered), [0, 2]);
    assert!(dwell_times(&vec![]).is_empty());
    assert_eq!(dwell_times(&vec![event("", i64::MIN), event("", i64::MAX)]), [u64::MAX]);
}

#[test]
fn a_visit_becomes_a_trace() {
    let events = vec![event("/i/1", 3000), event("/", 1000), event("/x/y", 6500)];
    let t = session_trace::<route::Pages>("v", &events, 3).unwrap();
    assert_eq!(t.categories, ["[List]", "[Detail]", "[x]"]);
    assert_eq!(t.dwell_ms, [2000, 3500]);
    assert!(session_trace::<route::Pages>("v", &events, 4).is_none());
    let t = session_trace::<ip_route::Requests>("v", &events, 3).unwrap();
    assert_eq!(t.categories, ["[List]", "[Detail]"]);
    assert_eq!(t.dwell_ms, [2000, 3500]);
    let few = vec![event("/", 1), event("/x", 2)];
    assert!(session_trace::<ip_route::Requests>("v", &few, 1).is_none());
}

fn log_of(visits: &[(&str, &[(&str, i64)])]) -> VisitLog {
    let mut log = VisitLog::new();
    for (id, events) in visits {
        for (url, at) in events.iter() {
            log.file(id, event(url, *at));
        }
    }
    log
}

#[test]
fn visits_are_summed_up() {
    let log = log_of(&[
        ("a", &[("/", 0), ("/i/1", 1), ("/", 2), ("/i/2", 3)]),
        ("b", &[("/", 0)]),
        ("c", &[("/search", 9), ("/", 5)]),
    ]);
    let r = analyze_sessions::<route::Pages>(&log, 2);
    assert_eq!((r.traces.len(), r.skipped_count, r.uncategorized_count), (2, 1, 0));
    assert_eq!(r.all_states, ["[Detail]", "[List]", "[Search]"]);
    assert_eq!(r.transitions.count("[List]", "[Detail]"), 2);
    assert_eq!(r.transitions.count("[Detail]", "[List]"), 1);
    assert_eq!(r.transitions.count("[List]", "[Search]"), 1);
    assert_eq!(r.transitions.count("[Search]", "[List]"), 0);
    let categories: usize = r.traces.iter().map(|t| t.categories.len()).sum();
    let counted: usize = (0..r.transitions.len()).map(|i| r.transitions.row(i).count).sum();
    assert_eq!(counted + r.traces.len(), categories);
    for t in &r.traces {
        assert!(t.categories.len() >= 2 && t.dwell_ms.len() + 1 >= t.categories.len());
    }
}

#[test]
fn rows_of_paths() {
    let trace = SessionTrace {
        visit_id: "v".to_string(),
        categories: strings(&["[List]", "[Detail]", "[List]"]),
        dwell_ms: vec![1500, 20],
    };
    assert_eq!(
        session_path_row(&trace, &strings(&["1.50", "0.02"])),
        "v,\"[List](1.50s) ➔ [Detail](0.02s) ➔ [List]\""
    );
}

#[test]
fn the_model_has_the_shares_of_each_row() {
    let mut t = TransitionTable::new();
    t.record(&strings(&["A", "B", "A", "B", "A", "C"]));
    t.record(&strings(&["A"]));
    t.record(&vec![]);
    t.add_to("Z", "A", 0);
    assert_eq!(t.len(), 4);
    let m = MarkovDetector::train(&t);
    assert_eq!(m.state_alpha, Ratio { num: 1, den: 10000 });
    let got: Vec<(&str, &str, u64, u64)> = m
        .tpm
        .iter()
        .map(|s| (s.from.as_str(), s.to.as_str(), s.probability.num, s.probability.den))
        .collect();
    assert_eq!(got, [("A", "B", 2, 3), ("B", "A", 2, 2), ("A", "C", 1, 3)]);
    for from in ["A", "B"] {
        let rows: Vec<&Ratio> =
            m.tpm.iter().filter(|s| s.from == from).map(|s| &s.probability).collect();
        assert!(rows.iter().all(|r| r.den == rows[0].den && r.num <= r.den));
        assert_eq!(rows.iter().map(|r| r.num).sum::<u64>(), rows[0].den);
    }
}

#[test]
fn every_counted_step_is_in_the_model() {
    let mut t = TransitionTable::new();
    t.record(&strings(&["A", "A", "B", "C", "A", "B"]));
    let m = MarkovDetector::train(&t);
    for i in 0..t.len() {
        let row = t.row(i);
        let share = m.tpm.iter().find(|s| s.from == row.from && s.to == row.to).unwrap();
        assert_eq!(share.probability.num, row.count as u64);
    }
    assert_eq!(m.tpm.len(), t.len());
}

#[test]
fn row_sums_of_a_table() {
    let mut t = TransitionTable::new();
    t.add_to("A", "B", 5);
    t.add_to("A", "C", 2);
    t.add_to("A", "B", 1);
    t.add_to("B", "A", 4);
    let sums = t.row_sums();
    assert_eq!((sums.get("A"), sums.get("B"), sums.get("C")), (8, 4, 0));
    assert_eq!((t.count("A", "B"), t.count("B", "B")), (6, 0));
}

#[test]
fn times_go_to_the_nearest_half_second() {
    for (ms, bucket) in [(0, 0), (249, 0), (250, 1), (500, 1), (749, 1), (750, 2), (1200, 2)] {
        assert_eq!(dwell_bucket(ms), bucket);
        assert_eq!(dwell_bucket(ms), ((ms as f64 / 1000.0) * 2.0).round() as u64);
    }
    assert_eq!(dwell_bucket(u64::MAX), 36893488147419103);
}

#[test]
fn equal_times_are_counted() {
    assert_eq!(bucket_counts(&vec![500, 1000, 600, 300, 5000]), [3, 1, 1]);
    assert_eq!(repeat_ratio(&vec![500, 1000, 600, 300, 5000]), Ratio { num: 3, den: 5 });
    assert_eq!(repeat_ratio(&vec![]), Ratio { num: 0, den: 0 });
    assert_eq!(repeat_ratio(&vec![7, 7]), Ratio { num: 2, den: 2 });
}

#[test]
fn going_back_and_forth_makes_a_bot() {
    let bot = strings(&["[List]", "[Detail]", "[List]", "[Detail]", "[List]", "[Detail]"]);
    assert_eq!(bot_route::loop_ratio(&bot), Ratio { num: 5, den: 5 });
    assert!(bot_route::is_bot(&bot));
    assert!(!bot_route::is_bot(&bot[1..].to_vec()));
    let mut mixed = bot.clone();
    mixed[5] = "[Search]".to_string();
    assert_eq!(bot_route::loop_ratio(&mixed), Ratio { num: 4, den: 5 });
    assert!(!bot_route::is_bot(&mixed));
    assert_eq!(bot_route::loop_ratio(&vec![]), Ratio { num: 0, den: 0 });
}

#[test]
fn bots_and_others_are_kept_apart() {
    let log = log_of(&[
        ("bot", &[("/", 0), ("/i/1", 1), ("/", 2), ("/i/2", 3), ("/", 4), ("/i/3", 5)]),
        ("human", &[("/", 0), ("/search", 1), ("/i/1", 2)]),
        ("short", &[("/", 0), ("/", 1)]),
    ]);
    let r = bot_route::analyze_sessions(&log);
    assert_eq!((r.human_count, r.bot_count), (1, 1));
    assert_eq!(r.is_bot, [true, false]);
    assert_eq!(r.human_count + r.bot_count, r.traces.len());
    assert_eq!(r.bot_transitions.count("[List]", "[Detail]"), 3);
    assert_eq!(r.bot_transitions.count("[Detail]", "[List]"), 2);
    assert_eq!(r.human_transitions.count("[List]", "[Search]"), 1);
    assert_eq!(r.human_transitions.count("[List]", "[Detail]"), 0);
    assert_eq!(r.all_states, ["[Detail]", "[List]", "[Search]"]);
}

#[test]
fn categories_are_counted() {
    let counts = bot_route::category_counts(&strings(&["b", "a", "b"]));
    assert_eq!((counts.len(), counts.get("b"), counts.get("a")), (2, 2, 1));
}

fn request(url: &str, status: &str, agent: &str) -> Request {
    Request {
        ip: "8.8.8.8".to_string(),
        method: "GET".to_string(),
        url: url.to_string(),
        status: status.to_string(),
        user_agent: agent.to_string(),
        host: "cmsn.info".to_string(),
    }
}

#[test]
fn page_requests() {
    assert!(ip_route::is_page_request(&request("/i/1", "200", "Mozilla")));
    assert!(ip_route::is_page_request(&request("/i/1", "99999999999", "Mozilla")));
    assert!(!ip_route::is_page_request(&request("/i/1", "400", "Mozilla")));
    assert!(!ip_route::is_page_request(&request("/i/1", "200", "SomeBot/1.0")));
    assert!(!ip_route::is_page_request(&request("/i/1.PNG", "200", "Mozilla")));
}

#[test]
fn requests_without_a_time_are_left_out() {
    let mut log = VisitLog::new();
    let q = request("/i/1", "200", "Mozilla");
    ip_route::file_request(&mut log, &q, Err(TimeError::Invalid));
    ip_route::file_request(&mut log, &q, Ok(0));
    assert_eq!(log.len(), 0);
    ip_route::file_request(&mut log, &q, Ok(5));
    assert_eq!((log.visit_id(0).as_str(), log.events(0)[0].created_at), ("8.8.8.8", 5));
}

#[test]
fn lines_of_the_access_log_are_read() {
    let format = timed_matcher().ok().unwrap();
    let mut log = VisitLog::new();
    let t = "01/Jan/1970:00:00:01 +0000";
    for line in [
        log_line("8.8.8.8", t, "/i/1", 200, "Mozilla", "cmsn.info"),
        log_line("8.8.8.8", t, "/i/1", 200, "Mozilla", "other.org"),
        log_line("10.8.8.8", t, "/i/1", 200, "Mozilla", "cmsn.info"),
        "junk".to_string(),
    ] {
        assert!(ip_route::read_line(&mut log, &format, &line).is_none());
    }
    let bad = log_line("8.8.8.8", "yesterday", "/i/1", 200, "Mozilla", "cmsn.info");
    let b = ip_route::read_line(&mut log, &format, &bad).unwrap();
    assert_eq!((b.text.as_str(), b.error), ("yesterday", TimeError::Invalid));
    assert_eq!(log.event_count(), 1);
    assert_eq!(log.events(0)[0].created_at, 1000);
}

#[test]
fn idle_addresses_begin_new_visits() {
    let gap = ip_route::SESSION_GAP_MS;
    let log = log_of(&[
        ("a", &[("/3", 2 * gap), ("/1", 1), ("/2", gap), ("/4", 9 * gap)]),
        ("b", &[("/1", 7)]),
    ]);
    let visits = ip_route::split_visits(&log);
    let listed: Vec<(&str, Vec<&str>)> = (0..visits.len())
        .map(|i| {
            let urls = visits.events(i).iter().map(|e| e.url_path.as_str()).collect();
            (visits.visit_id(i).as_str(), urls)
        })
        .collect();
    assert_eq!(
        listed,
        [("a#0", vec!["/1", "/2"]), ("a#1", vec!["/3"]), ("a#2", vec!["/4"]), ("b#0", vec!["/1"])]
    );
    assert_eq!(visits.event_count(), log.event_count());
    for i in 0..visits.len() {
        for pair in visits.events(i).windows(2) {
            let idle = pair[1].created_at - pair[0].created_at;
            assert!(0 <= idle && idle < gap);
        }
    }
}

#[test]
fn half_an_hour_begins_a_new_visit() {
    let format = timed_matcher().ok().unwrap();
    for (second, expected) in [("13:29:59", 1), ("13:30:00", 2), ("13:30:01", 2)] {
        let mut log = VisitLog::new();
        for time in ["13:00:00", second] {
            let at = format!("10/Oct/2023:{} +0000", time);
            let line = log_line("1.2.3.4", &at, "/i/1", 200, "Mozilla", "cmsn.info");
            assert!(ip_route::read_line(&mut log, &format, &line).is_none());
        }
        let visits = ip_route::split_visits(&log);
        assert_eq!((visits.len(), visits.event_count()), (expected, 2));
        assert_eq!(visits.visit_id(0), "1.2.3.4#0");
        if expected == 2 {
            assert_eq!(visits.visit_id(1), "1.2.3.4#1");
            assert_eq!((visits.events(0).len(), visits.events(1).len()), (1, 1));
        }
    }
}

#[test]
fn the_visits_of_an_address_have_its_events() {
    let gap = ip_route::SESSION_GAP_MS;
    let log = log_of(&[
        ("a", &[("/x", 5 * gap), ("/y", 1), ("/x", 1), ("/z", 3 * gap), ("/y", 2)]),
        ("a#0", &[("/q", 4), ("/q", 9 * gap)]),
    ]);
    let visits = ip_route::split_visits(&log);
    for i in 0..log.len() {
        let mut entry: Vec<(i64, &str)> =
            log.events(i).iter().map(|e| (e.created_at, e.url_path.as_str())).collect();
        let mut found: Vec<(i64, &str)> = Vec::new();
        for k in 0..visits.len() {
            let (owner, _) = visits.visit_id(k).rsplit_once('#').unwrap();
            if owner == log.visit_id(i) {
                found.extend(visits.events(k).iter().map(|e| (e.created_at, e.url_path.as_str())));
            }
        }
        entry.sort();
        found.sort();
        assert_eq!(found, entry);
    }
}

#[test]
fn only_short_visits_count_as_skipped() {
    let mut log = VisitLog::new();
    for i in 0..30 {
        log.file("plain", event("/about", 1000 * i));
        log.file("listed", event("/i/1", 1000 * i));
    }
    for i in 0..29 {
        log.file("short", event("/i/1", 1000 * i));
    }
    let r = analyze_sessions::<ip_route::Requests>(&log, ip_route::MIN_EVENTS);
    assert_eq!((r.traces.len(), r.skipped_count, r.uncategorized_count), (1, 1, 1));
    assert_eq!(r.traces[0].visit_id, "listed");
}

#[test]
fn automatic_agents() {
    for agent in ["uptime-kuma/1.0", "googlebot", "some-bot"] {
        assert!(ip_route::is_automatic_agent(agent));
    }
    for agent in ["", "mozilla/5.0", "curl", "SomeBOT"] {
        assert!(!ip_route::is_automatic_agent(agent));
    }
}

#[test]
fn a_heatmap_has_a_cell_for_each_step() {
    let mut t = TransitionTable::new();
    t.add_to("[A]", "[B]", 3);
    t.add_to("[A]", "[A]", 1);
    let h = transition_heatmap(&t, &strings(&["[A]", "[B]"])).unwrap();
    assert_eq!(h.side, 440);
    assert_eq!(h.names, ["A", "B"]);
    assert_eq!(h.cells.len(), 4);
    let ab = h.cells[1];
    assert_eq!((ab.x0, ab.y0, ab.x1, ab.y1), (220, 100, 340, 220));
    assert_eq!((ab.count, ab.sum, ab.light), (3, 4, true));
    assert_eq!((ab.red, ab.green), (105, 142));
    assert_eq!((h.cells[0].red, h.cells[0].green, h.cells[0].light), (205, 217, false));
    assert_eq!((h.cells[2].red, h.cells[2].green), (255, 255));
    assert_eq!(h.cells[0].x1, h.cells[1].x0);
    assert_eq!(h.cells[0].y1, h.cells[2].y0);
    assert!(transition_heatmap(&t, &vec![]).is_none());
}

#[test]
fn shades_agree_with_the_probability() {
    for sum in 1..60usize {
        let mut last = (255, 255);
        for count in 0..=sum {
            let mut t = TransitionTable::new();
            t.add_to("x", "x", count);
            t.add_to("x", "y", sum - count);
            let h = transition_heatmap(&t, &strings(&["x"])).unwrap();
            let p = count as f64 / sum as f64;
            let c = h.cells[0];
            assert_eq!(c.red, (255.0 - p * 200.0) as u8);
            assert_eq!(c.green, (255.0 - p * 150.0) as u8);
            assert_eq!(c.light, p > 0.5);
            assert!(c.red <= last.0 && c.green <= last.1);
            last = (c.red, c.green);
        }
        assert_eq!(last, (55, 105));
    }
}

#[test]
fn the_order_of_listing_plays_no_part() {
    let one = log_of(&[
        ("bot", &[("/", 0), ("/i/1", 7), ("/", 20), ("/i/2", 31), ("/", 40), ("/i/3", 55)]),
        ("human", &[("/", 0), ("/search", 1), ("/users", 2)]),
        ("short", &[("/", 0)]),
    ]);
    let other = log_of(&[
        ("short", &[("/", 0)]),
        ("human", &[("/users", 2), ("/", 0), ("/search", 1)]),
        ("bot", &[("/i/3", 55), ("/", 40), ("/i/2", 31), ("/", 20), ("/i/1", 7), ("/", 0)]),
    ]);
    let (a, b) = (bot_route::analyze_sessions(&one), bot_route::analyze_sessions(&other));
    assert_eq!((a.human_count, a.bot_count), (b.human_count, b.bot_count));
    assert_eq!(a.all_states, b.all_states);
    for from in &a.all_states {
        for to in &a.all_states {
            assert_eq!(a.bot_transitions.count(from, to), b.bot_transitions.count(from, to));
            assert_eq!(a.human_transitions.count(from, to), b.human_transitions.count(from, to));
        }
    }
    for (i, t) in a.traces.iter().enumerate() {
        let j = b.traces.iter().position(|u| u.visit_id == t.visit_id).unwrap();
        assert_eq!(t.categories, b.traces[j].categories);
        assert_eq!(t.dwell_ms, b.traces[j].dwell_ms);
        assert_eq!(a.is_bot[i], b.is_bot[j]);
    }
    let (a, b) =
        (analyze_sessions::<route::Pages>(&one, 2), analyze_sessions::<route::Pages>(&other, 2));
    assert_eq!((a.traces.len(), a.skipped_count), (b.traces.len(), b.skipped_count));
    assert_eq!(a.uncategorized_count, b.uncategorized_count);
    assert_eq!(a.all_states, b.all_states);
    assert_eq!(a.transitions.len(), b.transitions.len());
}

#[test]
fn scaling_a_row_leaves_its_probabilities() {
    let mut t = TransitionTable::new();
    let mut u = TransitionTable::new();
    for (from, to, n) in [("A", "B", 2), ("A", "C", 1), ("B", "A", 5)] {
        t.add_to(from, to, n);
    }
    for (from, to, n) in [("B", "B", 9), ("A", "C", 7), ("A", "B", 14)] {
        u.add_to(from, to, n);
    }
    let (s, m) = (MarkovDetector::train(&t), MarkovDetector::train(&u));
    for share in s.tpm.iter().filter(|x| x.from == "A") {
        let other = m.tpm.iter().find(|x| x.from == share.from && x.to == share.to).unwrap();
        let (a, b) = (share.probability, other.probability);
        assert_eq!(a.num * b.den, b.num * a.den);
    }
    assert_eq!(u.row_sums().get("A"), 7 * t.row_sums().get("A"));
}
