use gacha::cache::{find_recent_gacha_url, CacheError};
use gacha::gacha_url::{
    filetime_to_unix_secs, is_expired, normalize_gacha_url, request_base_url, strip_pagination_params,
    GachaUrlError, QueryParam, ENDPOINT, dedup_params,
};
use gacha::log::{FetchError, FetchState, GachaLog, GachaLogData, GachaLogEntry};
use gacha::text::{find_str, str_le};
use gacha::uigf::{
    convect_gacha_logs_to_uigf, gacha_logs_into_uigf, sort_by_id, uigf_gacha_type, UIGFGachaLogEntry, UigfError,
};

fn entry(id: &str, gacha_type: &str) -> GachaLogEntry {
    GachaLogEntry {
        uid: String::from("100000001"),
        gacha_type: String::from(gacha_type),
        item_id: String::new(),
        count: String::from("1"),
        time: String::from("2021-09-17 12:00:00"),
        name: String::from("Amber"),
        lang: String::from("en-us"),
        item_type: String::from("Character"),
        rank_type: String::from("4"),
        id: String::from(id),
    }
}

fn page(first_id: u64, n: u64) -> Option<GachaLogData> {
    let mut list = Vec::new();
    for k in 0..n {
        list.push(entry(&format!("{:019}", first_id - k), "301"));
    }
    Some(GachaLogData {
        page: String::from("1"),
        size: String::from("20"),
        total: String::from("0"),
        list,
        region: String::from("cn_gf01"),
    })
}

fn happy_url() -> String {
    format!("https://host{}?authkey=K&region=R&lang=en", ENDPOINT)
}

fn param(k: &str, v: &str) -> QueryParam {
    QueryParam { key: String::from(k), value: String::from(v) }
}

fn keys_values(params: &[QueryParam]) -> Vec<(String, String)> {
    params.iter().map(|p| (p.key.clone(), p.value.clone())).collect()
}

#[test]
fn normalize_keeps_auth_params() {
    let n = normalize_gacha_url(&happy_url()).unwrap();
    assert_eq!(n.base, format!("https://host{}", ENDPOINT));
    assert_eq!(
        keys_values(&n.params),
        vec![
            (String::from("authkey"), String::from("K")),
            (String::from("region"), String::from("R")),
            (String::from("lang"), String::from("en")),
        ]
    );
}

#[test]
fn normalize_drops_pagination_keys() {
    let url = format!("https://host{}?authkey=K&gacha_type=301&page=3&size=6&end_id=77&lang=en", ENDPOINT);
    let n = normalize_gacha_url(&url).unwrap();
    assert_eq!(
        keys_values(&n.params),
        vec![(String::from("authkey"), String::from("K")), (String::from("lang"), String::from("en"))]
    );
}

#[test]
fn normalize_decodes_percent_escapes() {
    let url = format!("https://host{}?authkey=a%2Bb%3D&x=y+z", ENDPOINT);
    let n = normalize_gacha_url(&url).unwrap();
    assert_eq!(
        keys_values(&n.params),
        vec![(String::from("authkey"), String::from("a+b=")), (String::from("x"), String::from("y z"))]
    );
}

#[test]
fn normalize_is_idempotent() {
    let n = normalize_gacha_url(&happy_url()).unwrap();
    let again = format!("{}?authkey=K&region=R&lang=en", n.base);
    let m = normalize_gacha_url(&again).unwrap();
    assert_eq!(m.base, n.base);
    assert_eq!(keys_values(&m.params), keys_values(&n.params));
    let stripped = strip_pagination_params(&n.params);
    assert_eq!(keys_values(&stripped), keys_values(&n.params));
}

#[test]
fn normalize_rejects_url_without_endpoint() {
    assert!(matches!(normalize_gacha_url("https://host/other?authkey=K"), Err(GachaUrlError::MalformedUrl)));
}

#[test]
fn strip_keeps_order_of_other_params() {
    let params = vec![param("page", "1"), param("b", "2"), param("size", "20"), param("a", "1")];
    let stripped = strip_pagination_params(&params);
    assert_eq!(
        keys_values(&stripped),
        vec![(String::from("b"), String::from("2")), (String::from("a"), String::from("1"))]
    );
}

#[test]
fn request_url_carries_kept_params() {
    let url = format!("https://host{}?authkey=K&page=2&lang=en", ENDPOINT);
    let built = request_base_url(&url).unwrap().unwrap();
    assert_eq!(built, format!("https://host{}?authkey=K&lang=en", ENDPOINT));
}

#[test]
fn find_str_finds_first_occurrence() {
    assert_eq!(find_str("abcabc", "bc"), Some(1));
    assert_eq!(find_str("abc", "x"), None);
    assert_eq!(find_str("ab", "abc"), None);
    assert!(str_le("1000", "1001"));
    assert!(!str_le("1001", "1000"));
    assert!(str_le("", "a"));
}

#[test]
fn filetime_of_happy_path_scenario() {
    assert_eq!(filetime_to_unix_secs(132800000000000000), 1635526400);
    assert_eq!(filetime_to_unix_secs(116444736000000000), 0);
}

#[test]
fn url_expires_after_a_day() {
    let now = 1_700_000_000;
    assert!(is_expired(now - 25 * 3600, now));
    assert!(is_expired(now - 86400, now));
    assert!(!is_expired(now - 86399, now));
}

#[test]
fn pagination_makes_k_plus_one_requests() {
    let k = 3u64;
    let mut state = FetchState::new();
    let mut requests = 0u32;
    let mut sent = Vec::new();
    while !state.finished {
        let req = state.next_request();
        requests += 1;
        assert_eq!(req.request_no, requests);
        sent.push(req.end_id.clone());
        let n = if (requests as u64) <= k { 20 } else { 0 };
        state.on_response(page(9_000_000 - 20 * (requests as u64 - 1), n));
    }
    assert_eq!(requests, 4);
    assert_eq!(state.entries.len(), 60);
    assert_eq!(sent[0], "0");
    assert_eq!(sent[1], format!("{:019}", 9_000_000 - 19));
    assert_eq!(sent[2], format!("{:019}", 9_000_000 - 39));
}

#[test]
fn cursor_is_last_id_of_previous_page() {
    let mut state = FetchState::new();
    state.next_request();
    state.on_response(page(500, 20));
    let req = state.next_request();
    assert_eq!(req.end_id, format!("{:019}", 481));
}

#[test]
fn mid_stream_null_data_ends_category() {
    let mut state = FetchState::new();
    state.next_request();
    assert_eq!(state.on_response(page(100, 20)), 1);
    state.next_request();
    assert_eq!(state.on_response(None), 0);
    assert!(state.finished);
    assert_eq!(state.entries.len(), 20);
    assert_eq!(state.count, 2);
}

#[test]
fn pacing_sleeps_before_each_burst_and_after_pages() {
    let mut state = FetchState::new();
    let mut total = 0u64;
    for r in 0..7u64 {
        let req = state.next_request();
        assert_eq!(req.sleep_secs, if r % 5 == 0 { 3 } else { 0 });
        total += req.sleep_secs;
        total += state.on_response(page(10_000 - 20 * r, 20));
    }
    assert_eq!(total, 3 * 2 + 7);
}

#[test]
fn remap_of_each_category() {
    assert_eq!(uigf_gacha_type("100").as_deref(), Some("100"));
    assert_eq!(uigf_gacha_type("200").as_deref(), Some("200"));
    assert_eq!(uigf_gacha_type("301").as_deref(), Some("301"));
    assert_eq!(uigf_gacha_type("302").as_deref(), Some("302"));
    assert_eq!(uigf_gacha_type("400").as_deref(), Some("301"));
    assert_eq!(uigf_gacha_type("500"), None);
}

#[test]
fn remap_keeps_raw_category() {
    let u = UIGFGachaLogEntry::from_official(&entry("1", "400"), true).unwrap();
    assert_eq!(u.uigf_gacha_type, "301");
    assert_eq!(u.gacha_type, "400");
    assert_eq!(u.uid.as_deref(), Some("100000001"));
    let v = UIGFGachaLogEntry::from_official(&entry("1", "200"), false).unwrap();
    assert_eq!(v.uid, None);
    assert_eq!(v.count.as_deref(), Some("1"));
}

#[test]
fn unknown_category_is_an_error() {
    let logs = vec![entry("1", "301"), entry("2", "999")];
    match convect_gacha_logs_to_uigf(&logs, true) {
        Err(UigfError::UnknownCategory(g)) => assert_eq!(g, "999"),
        _ => panic!("expected an unknown category"),
    }
    assert!(matches!(
        gacha_logs_into_uigf("app", "1.0", "2021-09-17 12:00:00", 0, &logs),
        Err(UigfError::UnknownCategory(_))
    ));
}

#[test]
fn empty_history_is_an_error() {
    assert!(matches!(
        gacha_logs_into_uigf("app", "1.0", "2021-09-17 12:00:00", 0, &Vec::new()),
        Err(UigfError::EmptyHistory)
    ));
}

#[test]
fn export_sorts_by_id_and_fills_info() {
    let mut logs = Vec::new();
    for t in ["301", "302", "200", "100"] {
        for k in 0..20u64 {
            let id = 1_000_000 + (k * 4) + (t.as_bytes()[0] as u64 % 4);
            logs.push(entry(&format!("{:019}", id), t));
        }
    }
    let doc = gacha_logs_into_uigf("Genshin Gacha", "0.1.0", "2021-09-17 12:00:00", 1631880000, &logs).unwrap();
    assert_eq!(doc.list.len(), 80);
    for w in doc.list.windows(2) {
        assert!(w[0].id <= w[1].id);
    }
    assert_eq!(doc.info.uigf_version, "v2.2");
    assert_eq!(doc.info.uid, "100000001");
    assert_eq!(doc.info.lang, "en-us");
    assert_eq!(doc.info.export_time, "2021-09-17 12:00:00");
    assert_eq!(doc.info.export_timestamp, Some(1631880000));
    assert_eq!(doc.info.export_app, "Genshin Gacha");
    assert_eq!(doc.info.export_app_version, "0.1.0");
}

#[test]
fn sort_keeps_duplicates_non_decreasing() {
    let logs = vec![entry("3", "301"), entry("1", "301"), entry("3", "400"), entry("2", "100")];
    let converted = convect_gacha_logs_to_uigf(&logs, true).unwrap();
    let sorted = sort_by_id(converted);
    let ids: Vec<&str> = sorted.iter().map(|u| u.id.as_str()).collect();
    assert_eq!(ids, vec!["1", "2", "3", "3"]);
    assert_eq!(sorted[2].gacha_type, "301");
    assert_eq!(sorted[3].gacha_type, "400");
}

fn record(filetime: u64, url: &str) -> Vec<u8> {
    let mut out = b"\x00\x01junk".to_vec();
    out.extend_from_slice(&filetime.to_le_bytes());
    out.extend_from_slice(url.as_bytes());
    out.push(0);
    out
}

#[test]
fn scanner_finds_url_and_timestamp() {
    let url = happy_url();
    let data = record(132800000000000000, &url);
    let found = find_recent_gacha_url(&data).unwrap();
    assert_eq!(found.filetime, 132800000000000000);
    assert_eq!(found.url, url.as_bytes().to_vec());
    assert_eq!(found.position, 14);
}

#[test]
fn scanner_prefers_latest_timestamp() {
    let newer = format!("https://a{}?authkey=NEW", ENDPOINT);
    let older = format!("https://b{}?authkey=OLD", ENDPOINT);
    let mut data = record(200, &newer);
    data.extend(record(100, &older));
    let found = find_recent_gacha_url(&data).unwrap();
    assert_eq!(found.url, newer.as_bytes().to_vec());
}

#[test]
fn scanner_tie_goes_to_later_offset() {
    let first = format!("https://a{}?authkey=ONE", ENDPOINT);
    let second = format!("https://b{}?authkey=TWO", ENDPOINT);
    let mut data = record(500, &first);
    data.extend(record(500, &second));
    let found = find_recent_gacha_url(&data).unwrap();
    assert_eq!(found.url, second.as_bytes().to_vec());
}

#[test]
fn scanner_skips_urls_without_authkey() {
    let bare = format!("https://a{}?authkey=&lang=en", ENDPOINT);
    let data = record(500, &bare);
    assert!(matches!(find_recent_gacha_url(&data), Err(CacheError::NotFound)));
}

#[test]
fn scanner_random_bytes_not_found() {
    let mut x: u64 = 0x2545F4914F6CDD1D;
    let mut data = Vec::with_capacity(1 << 20);
    for _ in 0..(1 << 20) {
        x ^= x << 13;
        x ^= x >> 7;
        x ^= x << 17;
        data.push((x >> 24) as u8);
    }
    assert!(matches!(find_recent_gacha_url(&data), Err(CacheError::NotFound)));
}

#[test]
fn scanner_empty_file_not_found() {
    assert!(matches!(find_recent_gacha_url(&[]), Err(CacheError::NotFound)));
}

#[test]
fn error_code_without_data_is_rejected() {
    let mut state = FetchState::new();
    state.next_request();
    let log = GachaLog { retcode: -101, message: String::from("authkey timeout"), data: None };
    match state.on_log(log) {
        Err(FetchError::RemoteRejected { retcode, message }) => {
            assert_eq!(retcode, -101);
            assert_eq!(message, "authkey timeout");
        },
        Ok(_) => panic!("expected a rejection"),
    }
    assert!(!state.finished);
    assert_eq!(state.count, 0);
}

#[test]
fn error_code_with_data_is_success() {
    let mut state = FetchState::new();
    state.next_request();
    let log = GachaLog { retcode: 7, message: String::from("odd"), data: page(40, 20) };
    assert_eq!(state.on_log(log).unwrap(), 1);
    assert_eq!(state.entries.len(), 20);
    let ok = GachaLog { retcode: 0, message: String::from("OK"), data: None };
    assert_eq!(state.on_log(ok).unwrap(), 0);
    assert!(state.finished);
}

#[test]
fn normalize_keeps_last_value_of_repeated_key() {
    let url = format!("https://host{}?authkey=A&lang=en&authkey=B&page=1", ENDPOINT);
    let n = normalize_gacha_url(&url).unwrap();
    assert_eq!(
        keys_values(&n.params),
        vec![(String::from("authkey"), String::from("B")), (String::from("lang"), String::from("en"))]
    );
}

#[test]
fn dedup_leaves_distinct_keys_alone() {
    let params = vec![param("b", "1"), param("a", "2")];
    assert_eq!(keys_values(&dedup_params(&params)), keys_values(&params));
    let repeated = vec![param("a", "1"), param("b", "2"), param("a", "3")];
    assert_eq!(
        keys_values(&dedup_params(&repeated)),
        vec![(String::from("a"), String::from("3")), (String::from("b"), String::from("2"))]
    );
}

#[test]
fn empty_first_page_makes_one_request() {
    let mut state = FetchState::new();
    let req = state.next_request();
    assert_eq!(req.sleep_secs, 3);
    assert_eq!(state.on_response(page(10, 0)), 0);
    assert!(state.finished);
    assert_eq!(state.count, 1);
    assert!(state.entries.is_empty());
}

#[test]
fn scanner_ignores_authkey_inside_another_key() {
    let inner = format!("https://a{}?xauthkey=1&lang=en", ENDPOINT);
    let data = record(500, &inner);
    assert!(matches!(find_recent_gacha_url(&data), Err(CacheError::NotFound)));
    let after_amp = format!("https://a{}?lang=en&authkey=Z", ENDPOINT);
    let found = find_recent_gacha_url(&record(500, &after_amp)).unwrap();
    assert_eq!(found.url, after_amp.as_bytes().to_vec());
}

#[test]
fn request_url_is_none_for_unparseable_base() {
    let url = format!("no-scheme{}?authkey=K", ENDPOINT);
    assert_eq!(request_base_url(&url).unwrap(), None);
}

#[test]
fn first_unknown_category_is_reported() {
    let logs = vec![entry("1", "301"), entry("2", "777"), entry("3", "888")];
    match gacha_logs_into_uigf("app", "1.0", "2021-09-17 12:00:00", 0, &logs) {
        Err(UigfError::UnknownCategory(g)) => assert_eq!(g, "777"),
        _ => panic!("expected an unknown category"),
    }
}

#[test]
fn export_keeps_input_order_of_equal_ids() {
    let logs = vec![entry("5", "302"), entry("4", "100"), entry("5", "200"), entry("5", "301")];
    let doc = gacha_logs_into_uigf("app", "1.0", "2021-09-17 12:00:00", 0, &logs).unwrap();
    let types: Vec<&str> = doc.list.iter().map(|u| u.gacha_type.as_str()).collect();
    assert_eq!(types, vec!["100", "302", "200", "301"]);
}
