use canonical_heuristics::cli::{advance, files, has_flag, parse_flag, seeded_steps, seq_list};
use canonical_heuristics::search::{least, median, Budget, Search};
use canonical_heuristics::status::{gpu_used_mb, hwm_kb, rss_kb};
use canonical_heuristics::text::{chars_of, parse_number, trim, word};

fn args(words: &[&str]) -> Vec<String> {
    words.iter().map(|w| w.to_string()).collect()
}

#[test]
fn a_flag_has_the_argument_after_it() {
    let a = args(&["--seq", "8", "--seed", "3", "--seq", "9"]);
    assert_eq!(parse_flag(&a, "--seq", "64"), "8");
    assert_eq!(parse_flag(&a, "--seed", "1"), "3");
    assert_eq!(parse_flag(&a, "--dir", "."), ".");
    assert_eq!(parse_flag(&args(&["--seq"]), "--seq", "64"), "64");
    assert_eq!(parse_flag(&[], "--seq", "64"), "64");
    assert_eq!(parse_flag(&args(&["--a", "--b", "c"]), "--b", ""), "c");
}

#[test]
fn flags_are_found_anywhere() {
    let a = args(&["x", "--uniform"]);
    assert!(has_flag(&a, "--uniform"));
    assert!(has_flag(&a, "x"));
    assert!(!has_flag(&a, "--uni"));
    assert!(!has_flag(&[], "--uniform"));
}

#[test]
fn files_are_neither_flags_nor_their_values() {
    let a = args(&["--timeout-secs", "15", "--limit", "50000", "a.bin", "b.bin"]);
    assert_eq!(files(&a), args(&["a.bin", "b.bin"]));
    assert_eq!(files(&args(&["a.bin", "--limit", "5", "", "a.bin"])), args(&["a.bin", "", "a.bin"]));
    assert_eq!(files(&args(&["5", "--limit", "5"])), args(&[]));
    assert_eq!(files(&[]), args(&[]));
}

#[test]
fn uniform_takes_no_value() {
    assert_eq!(files(&args(&["--uniform", "a.bin"])), args(&["a.bin"]));
    assert_eq!(files(&args(&["--uniform", "--limit", "5", "a.bin"])), args(&["a.bin"]));
}

#[test]
fn sequence_lengths_are_separated_by_commas() {
    assert_eq!(seq_list("32,64,128", 8), Some(vec![32, 64, 128]));
    assert_eq!(seq_list("", 8), Some(vec![8]));
    assert_eq!(seq_list(",,", 8), Some(vec![8]));
    assert_eq!(seq_list("1,,+2,", 8), Some(vec![1, 2]));
    assert_eq!(seq_list("1,x", 8), None);
    assert_eq!(seq_list("1, 2", 8), None);
    assert_eq!(seq_list("18446744073709551616", 8), None);
}

#[test]
fn seeded_steps_follow_the_generator() {
    let mut s: u64 = 7;
    let mut expected = Vec::new();
    for _ in 0..50 {
        s = s.wrapping_mul(6364136223846793005).wrapping_add(1);
        expected.push(((s >> 33) % 12) as i64);
    }
    assert_eq!(seeded_steps(50, 7), expected);
    assert!(seeded_steps(200, 1).iter().all(|&step| (0..12).contains(&step)));
    assert_eq!(seeded_steps(1, 1), vec![((6364136223846793006u64 >> 33) % 12) as i64]);
    assert_eq!(seeded_steps(0, 1), Vec::<i64>::new());
    assert_eq!(advance(0), 1);
    assert_eq!(advance(1), 6364136223846793006);
    assert_eq!(advance(u64::MAX), 12082607849862758612);
}

#[test]
fn memory_is_read_from_a_status_report() {
    let status = "Name:\tx\r\nVmHWM:\t   4096 kB\nVmRSS:\t    123 kB\nVmRSS:\t 9 kB\n";
    assert_eq!(rss_kb(status), 123);
    assert_eq!(hwm_kb(status), 4096);
    assert_eq!(rss_kb(""), 0);
    assert_eq!(rss_kb("VmRSS:"), 0);
    assert_eq!(rss_kb("VmRSS: x kB\nVmRSS: 5"), 0);
    assert_eq!(rss_kb(" VmRSS: 5"), 0);
    assert_eq!(rss_kb("VmRSS:+5\u{3000}kB"), 5);
    assert_eq!(hwm_kb("VmHWM: 18446744073709551616"), 0);
    assert_eq!(hwm_kb("VmHWM: 18446744073709551615\r\n"), u64::MAX);
}

#[test]
fn a_process_is_found_in_a_report() {
    let text = |mb: Option<Vec<char>>| mb.map(|cs| cs.into_iter().collect::<String>());
    let report = "11, 100\n 12 , 250.5 , x\r\n13\n";
    assert_eq!(text(gpu_used_mb(report, 11)), Some("100".to_string()));
    assert_eq!(text(gpu_used_mb(report, 12)), Some("250.5".to_string()));
    assert_eq!(text(gpu_used_mb(report, 13)), None);
    assert_eq!(text(gpu_used_mb(report, 14)), None);
    assert_eq!(text(gpu_used_mb("bad\n12, 5\n", 12)), None);
    assert_eq!(text(gpu_used_mb("", 12)), None);
}

#[test]
fn text_is_cut_at_white_space() {
    assert_eq!(trim(&chars_of(" \t a b \u{85}")), &['a', ' ', 'b']);
    assert_eq!(trim(&chars_of(" \n")), &[] as &[char]);
    assert_eq!(word(&chars_of("  ab c")), Some(&['a', 'b'][..]));
    assert_eq!(word(&chars_of("  ")), None);
}

#[test]
fn every_white_space_character_is_known() {
    for c in '\0'..=char::MAX {
        assert_eq!(trim(&[c]).is_empty(), c.is_whitespace(), "{c:?}");
    }
}

#[test]
fn numbers_are_parsed_as_the_standard_library_does() {
    for s in ["0", "7", "+7", "007", "255", "256", "", "+", "-1", "1 ", "++1", "1a", "٣"] {
        assert_eq!(
            parse_number(&chars_of(s), 255),
            s.parse::<u8>().ok().map(u64::from),
            "{s:?}"
        );
    }
}

#[test]
fn a_search_stops_at_a_solution() {
    let budget = Budget { timeout: 100, limit: 10 };
    let mut search = Search::new();
    assert!(search.run && !search.found);
    assert!(search.tick(99, 9, &budget));
    assert!(search.run);
    search.solution();
    assert!(!search.run && search.found);
    assert!(search.tick(99, 9, &budget));
    assert!(!search.run);
    search.finish();
    assert!(!search.tick(0, 0, &budget));
}

#[test]
fn a_search_stops_at_its_budget() {
    let budget = Budget { timeout: 100, limit: 10 };
    let mut search = Search::new();
    assert!(!search.tick(100, 0, &budget));
    assert!(!search.run && !search.found);
    let mut search = Search::new();
    assert!(!search.tick(0, 10, &budget));
    assert!(!search.run);
    let mut search = Search::new();
    search.finish();
    assert!(search.cancelled && !search.run);
}

#[test]
fn the_median_is_in_the_middle() {
    assert_eq!(median(&[5]), 5);
    assert_eq!(median(&[9, 1]), 9);
    assert_eq!(median(&[9, 1, 4]), 4);
    assert_eq!(median(&[3, 3, 1, 3]), 3);
    assert_eq!(median(&[4, 3, 2, 1]), 3);
    let times = [2.5f64, 0.125, 7.0, 1e-3, 2.75];
    let bits: Vec<u64> = times.iter().map(|t| t.to_bits()).collect();
    assert_eq!(f64::from_bits(median(&bits)), 2.5);
    assert_eq!(least(&bits).map(f64::from_bits), Some(1e-3));
    assert_eq!(least(&[]), None);
}
