use wifi_picker::{
    intersection, parse_known_listing, parse_scan_listing, progress_bar, Benchmark, ListError,
    Step,
};

fn strings(v: &[&str]) -> Vec<String> {
    v.iter().map(|s| s.to_string()).collect()
}

fn scan_row(in_use: &str, bssid: &str, ssid: &str, mode: &str) -> String {
    format!("{:<8}{:<19}{:<12}{}", in_use, bssid, ssid, mode)
}

fn run(candidates: Vec<String>, outcomes: &[Option<Option<i64>>]) -> Benchmark {
    let mut bench = Benchmark::new(candidates);
    for outcome in outcomes {
        match (bench.next_step(), outcome) {
            (Step::Connect(_), None) => bench.connect_result(false),
            (Step::Connect(_), Some(download)) => {
                bench.connect_result(true);
                assert!(matches!(bench.next_step(), Step::Probe(_)));
                bench.probe_result(*download);
            }
            (step, _) => panic!("unexpected step {:?}", step),
        }
    }
    assert_eq!(bench.next_step(), Step::Finished);
    bench
}

#[test]
fn intersection_keeps_visible_order_and_duplicates() {
    let visible = strings(&["b", "a", "c", "a"]);
    let known = strings(&["a", "b", "x"]);
    assert_eq!(intersection(&visible, &known), strings(&["b", "a", "a"]));
    let visible = strings(&["a"]);
    let known = strings(&["a", "a"]);
    assert_eq!(intersection(&visible, &known), strings(&["a", "a"]));
}

#[test]
fn intersection_with_an_empty_side_is_empty() {
    let some = strings(&["a", "b"]);
    assert!(intersection(&some, &[]).is_empty());
    assert!(intersection(&[], &some).is_empty());
}

#[test]
fn intersection_compares_exactly() {
    let visible = strings(&["Home", "home", "Home "]);
    let known = strings(&["Home"]);
    assert_eq!(intersection(&visible, &known), strings(&["Home"]));
}

#[test]
fn scan_listing_reads_identifier_column() {
    let text = [
        scan_row("IN-USE", "BSSID", "SSID", "MODE"),
        scan_row("", "11:22:33:44:55:66", "HomeNet", "Infra"),
        scan_row("*", "11:22:33:44:55:67", "CoffeeShop", "Infra"),
        scan_row("", "11:22:33:44:55:68", "--", "Infra"),
        scan_row("", "11:22:33:44:55:69", "Neighbor5G", "Infra"),
    ]
    .join("\n");
    assert_eq!(
        parse_scan_listing(&text),
        Ok(strings(&["HomeNet", "CoffeeShop", "Neighbor5G"]))
    );
}

#[test]
fn scan_listing_handles_crlf_and_token_at_line_end() {
    let text = "X SSID\r\nabHome\r\nabCafe x\r\n";
    assert_eq!(parse_scan_listing(text), Ok(strings(&["Home", "Cafe"])));
}

#[test]
fn scan_placeholder_line_gives_no_identifier() {
    let text = "XY SSID\nabc-- rest\nabcNet\nabc--\n";
    assert_eq!(parse_scan_listing(text), Ok(strings(&["Net"])));
}

#[test]
fn scan_placeholder_prefix_is_an_identifier() {
    let text = "XY SSID\nabc--x rest\n";
    assert_eq!(parse_scan_listing(text), Ok(strings(&["--x"])));
}

#[test]
fn scan_short_line_gives_no_identifier() {
    let text = "XY SSID\na\nabc\n\nabcNet\n";
    assert_eq!(parse_scan_listing(text), Ok(strings(&["Net"])));
}

#[test]
fn scan_listing_without_header_fails() {
    assert_eq!(parse_scan_listing(""), Err(ListError::MissingHeader));
}

#[test]
fn scan_listing_without_identifier_column_fails() {
    assert_eq!(
        parse_scan_listing("IN-USE BSSID MODE\n  x y z\n"),
        Err(ListError::MissingIdColumn)
    );
    assert_eq!(parse_scan_listing("SSID MODE\nHome Infra\n"), Err(ListError::MissingIdColumn));
}

#[test]
fn scan_listing_with_header_only_is_empty() {
    assert_eq!(parse_scan_listing("IN-USE BSSID SSID\n"), Ok(vec![]));
}

#[test]
fn known_listing_reads_first_tokens() {
    let text = "NAME        UUID  TYPE  DEVICE\nHomeNet     1234  wifi  wlan0\nNeighbor5G\t5678  wifi  --\n";
    assert_eq!(parse_known_listing(text), Ok(strings(&["HomeNet", "Neighbor5G"])));
}

#[test]
fn known_listing_with_malformed_record_fails() {
    let text = "NAME UUID\nHomeNet 1\nBroken\nLater 2\n";
    assert_eq!(parse_known_listing(text), Err(ListError::MalformedRecord(2)));
}

#[test]
fn known_listing_without_lines_is_empty() {
    assert_eq!(parse_known_listing(""), Ok(vec![]));
    assert_eq!(parse_known_listing("NAME UUID\n"), Ok(vec![]));
}

#[test]
fn benchmark_steps_one_candidate_at_a_time() {
    let mut bench = Benchmark::new(strings(&["a", "b"]));
    assert_eq!(bench.next_step(), Step::Connect(0));
    bench.connect_result(true);
    assert_eq!(bench.next_step(), Step::Probe(0));
    bench.probe_result(None);
    assert_eq!(bench.completed(), 1);
    assert_eq!(bench.next_step(), Step::Connect(1));
    bench.connect_result(false);
    assert_eq!(bench.completed(), 2);
    assert_eq!(bench.next_step(), Step::Finished);
    assert_eq!(bench.best(), None);
}

#[test]
fn benchmark_increasing_downloads_pick_last() {
    let bench = run(
        strings(&["a", "b", "c", "d"]),
        &[Some(Some(-5)), Some(Some(3)), Some(Some(10)), Some(Some(11))],
    );
    assert_eq!(bench.best(), Some((3, 11)));
}

#[test]
fn benchmark_all_failures_give_no_best() {
    let bench = run(strings(&["a", "b", "c"]), &[None, Some(None), None]);
    assert_eq!(bench.best(), None);
    assert_eq!(bench.completed(), 3);
}

#[test]
fn benchmark_tie_keeps_first() {
    let bench = run(strings(&["a", "b", "c"]), &[Some(Some(7)), None, Some(Some(7))]);
    assert_eq!(bench.best(), Some((0, 7)));
}

#[test]
fn benchmark_without_candidates_is_finished() {
    let bench = Benchmark::new(vec![]);
    assert_eq!(bench.next_step(), Step::Finished);
    assert_eq!(bench.best(), None);
}

#[test]
fn benchmark_keeps_highest_not_latest() {
    let bench = run(
        strings(&["a", "b", "c"]),
        &[Some(Some(4)), Some(Some(9)), Some(Some(6))],
    );
    assert_eq!(bench.best(), Some((1, 9)));
}

#[test]
fn end_to_end_home_wins() {
    let scan = [
        scan_row("IN-USE", "BSSID", "SSID", "MODE"),
        scan_row("", "11:22:33:44:55:66", "HomeNet", "Infra"),
        scan_row("", "11:22:33:44:55:67", "CoffeeShop", "Infra"),
        scan_row("", "11:22:33:44:55:68", "--", "Infra"),
        scan_row("", "11:22:33:44:55:69", "Neighbor5G", "Infra"),
    ]
    .join("\n");
    let visible = parse_scan_listing(&scan).unwrap();
    let known = parse_known_listing("NAME UUID\nHomeNet 1\nNeighbor5G 2\n").unwrap();
    let candidates = intersection(&visible, &known);
    assert_eq!(candidates, strings(&["HomeNet", "Neighbor5G"]));
    let bench = run(candidates, &[Some(Some(42)), None]);
    let (index, download) = bench.best().unwrap();
    assert_eq!(bench.candidates()[index], "HomeNet");
    assert_eq!(download, 42);
}

#[test]
fn progress_bar_shows_done_and_left() {
    assert_eq!(progress_bar(2, 5), "[##---]");
    assert_eq!(progress_bar(0, 0), "[]");
    assert_eq!(progress_bar(3, 3), "[###]");
}
