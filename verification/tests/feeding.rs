use vidzy::feeder::{Feeder, MpvStatics};
use vidzy::helpers::{app_rand, nanos, wh_next_seeds, wh_rand};

fn pairs(v: &[(&str, &str)]) -> Vec<(String, String)> {
    v.iter().map(|(a, b)| (a.to_string(), b.to_string())).collect()
}

fn config() -> Vec<(String, String)> {
    pairs(&[
        ("feeder.order", "random"),
        ("feeder.filter.size.minMB", "+2"),
        ("feeder.items.tv", "/m/tv"),
        ("feeder.items.xxclips", "/m/xx"),
        ("feeder.filter.blacklist.tv", "sample|trailer"),
        ("feeder.filter.blacklist.xx*", "promo"),
        ("feeder.filter.blacklist.*", "ad"),
    ])
}

fn sized(v: &[(&str, u64)]) -> Vec<(String, u64)> {
    v.iter().map(|(a, b)| (a.to_string(), *b)).collect()
}

#[test]
fn feeder_reads_its_configuration() {
    let f = Feeder::new(&config());
    assert_eq!(f.item_count(), 2);
    assert_eq!(f.item_name(0), "tv".to_string());
    assert_eq!(f.item_path(1), "/m/xx".to_string());
}

#[test]
fn feeder_refuses_missing_order() {
    let cfg = pairs(&[("feeder.filter.size.minMB", "1")]);
    assert!(Feeder::try_new(&cfg).is_none());
}

#[test]
fn feeder_refuses_bad_size() {
    let cfg = pairs(&[("feeder.order", "o"), ("feeder.filter.size.minMB", "12x")]);
    assert!(Feeder::try_new(&cfg).is_none());
    let cfg = pairs(&[("feeder.order", "o"), ("feeder.filter.size.minMB", "-1")]);
    assert!(Feeder::try_new(&cfg).is_none());
    let cfg = pairs(&[("feeder.order", "o"), ("feeder.filter.size.minMB", "")]);
    assert!(Feeder::try_new(&cfg).is_none());
}

#[test]
fn feeder_refuses_size_overflow() {
    let cfg = pairs(&[("feeder.order", "o"), ("feeder.filter.size.minMB", "17592186044416")]);
    assert!(Feeder::try_new(&cfg).is_none());
    let cfg = pairs(&[("feeder.order", "o"), ("feeder.filter.size.minMB", "17592186044415")]);
    assert!(Feeder::try_new(&cfg).is_some());
}

#[test]
fn blacklist_words_per_library() {
    let f = Feeder::new(&config());
    // "tv" has no star: its words twice (name matches), the others' words
    // only where the prefix matches: "*" cuts "tv" to "" + "*" == "*".
    assert_eq!(
        f.blacklist_for(0),
        vec!["sample", "trailer", "sample", "trailer", "ad"].iter().map(|s| s.to_string()).collect::<Vec<_>>()
    );
    assert_eq!(
        f.blacklist_for(1),
        vec!["sample", "trailer", "promo", "ad"].iter().map(|s| s.to_string()).collect::<Vec<_>>()
    );
}

#[test]
fn filter_drops_small_and_blacklisted_files() {
    let f = Feeder::new(&config());
    let mb = 1024 * 1024;
    let entries = sized(&[
        ("/m/tv/show.mkv", 3 * mb),
        ("/m/tv/tiny.mkv", 2 * mb - 1),
        ("/m/tv/edge.mkv", 2 * mb),
        ("/m/tv/SAMPLE.mkv", 5 * mb),
        ("/m/tv/Bad.mkv", 5 * mb),
    ]);
    assert_eq!(
        f.filter(0, &entries),
        vec!["/m/tv/show.mkv".to_string(), "/m/tv/edge.mkv".to_string()]
    );
}

#[test]
fn empty_word_blocks_everything() {
    let cfg = pairs(&[
        ("feeder.order", "o"),
        ("feeder.filter.size.minMB", "0"),
        ("feeder.items.a", "/a"),
        ("feeder.filter.blacklist.a", "x||y"),
    ]);
    let f = Feeder::new(&cfg);
    assert!(f.filter(0, &sized(&[("/a/file", 10)])).is_empty());
}

#[test]
fn quiet_library_names_start_with_xx() {
    let f = Feeder::new(&config());
    assert!(!f.is_quiet_lib(0));
    assert!(f.is_quiet_lib(1));
}

#[test]
fn register_and_listing_dir() {
    let f = Feeder::new(&config());
    let mut pls = MpvStatics { lib: 0, show_idx: 3, file_idx: 4 };
    f.register(&mut pls, 1);
    assert_eq!(pls, MpvStatics { lib: 1, show_idx: 3, file_idx: 4 });
    let dirs = vec!["/m/xx/a".to_string(), "/m/xx/b".to_string()];
    assert_eq!(f.listing_dir(&pls, &dirs, 1), "/m/xx/b".to_string());
    assert_eq!(f.listing_dir(&pls, &dirs, 2), "/m/xx".to_string());
}

#[test]
fn settle_pick_records_position() {
    let mut pls = MpvStatics { lib: 1, show_idx: 0, file_idx: 0 };
    assert_eq!(Feeder::settle_pick(&mut pls, 2, &vec![]), None);
    assert_eq!(pls, MpvStatics { lib: 1, show_idx: 0, file_idx: 0 });
    let passed = vec!["p0".to_string(), "p1".to_string(), "p2".to_string()];
    let got = Feeder::settle_pick(&mut pls, 2, &passed).unwrap();
    assert_eq!(pls.show_idx, 2);
    assert_eq!(pls.lib, 1);
    assert_eq!(got, passed[pls.file_idx]);
}

#[test]
fn settle_tagged_copies_position() {
    let mut pls = MpvStatics { lib: 0, show_idx: 0, file_idx: 0 };
    let other = MpvStatics { lib: 1, show_idx: 5, file_idx: 1 };
    let passed = vec!["p0".to_string(), "p1".to_string()];
    assert_eq!(Feeder::settle_tagged(&mut pls, &other, &passed), Some("p1".to_string()));
    assert_eq!(pls, other);
}

#[test]
fn settle_more_picks_a_passed_file() {
    let passed = vec!["p0".to_string(), "p1".to_string()];
    let got = Feeder::settle_more(&passed).unwrap();
    assert!(passed.contains(&got));
    assert_eq!(Feeder::settle_more(&vec![]), None);
}

#[test]
fn draws_stay_in_range() {
    for _ in 0..50 {
        assert!(Feeder::draw_dir(3) <= 3);
        if let Some(d) = Feeder::draw_other_dir(&MpvStatics { lib: 0, show_idx: 1, file_idx: 0 }, 3) {
            assert!(d <= 3 && d != 1);
        }
        assert!(app_rand(7) < 7);
    }
    assert_eq!(Feeder::draw_dir(0), 0);
    assert_eq!(app_rand(1), 0);
    assert_eq!(app_rand(0), 0);
}

#[test]
fn nanos_is_below_one_second() {
    assert!(nanos().unwrap() < 1_000_000_000);
}

#[test]
fn wichmann_hill_step_and_midpoint() {
    assert_eq!(wh_next_seeds([1, 1, 1]), [171, 172, 170]);
    assert_eq!(wh_next_seeds([30000, 30000, 30000]), [(171u64 * 30000 % 30269) as u16, (172u64 * 30000 % 30307) as u16, (170u64 * 30000 % 30323) as u16]);
    assert_eq!(wh_rand(10, 2, 3), 4);
    assert_eq!(wh_rand(10, 9, 0), 9);
    assert_eq!(wh_rand(1, 0, 0), 0);
}

#[test]
fn other_dir_draw_cases() {
    let pls = MpvStatics { lib: 0, show_idx: 0, file_idx: 0 };
    for _ in 0..20 {
        assert_eq!(Feeder::draw_other_dir(&pls, 0), Some(0));
    }
    let far = MpvStatics { lib: 0, show_idx: 9, file_idx: 0 };
    for _ in 0..20 {
        let d = Feeder::draw_other_dir(&far, 3).unwrap();
        assert!(d <= 3);
    }
}

#[test]
fn other_dir_judges_a_draw() {
    let pls = MpvStatics { lib: 0, show_idx: 2, file_idx: 0 };
    assert_eq!(Feeder::other_dir(&pls, 3, 2), None);
    assert_eq!(Feeder::other_dir(&pls, 3, 1), Some(1));
    assert_eq!(Feeder::other_dir(&pls, 3, 3), Some(3));
    let zero = MpvStatics { lib: 0, show_idx: 0, file_idx: 0 };
    assert_eq!(Feeder::other_dir(&zero, 0, 0), Some(0));
}

#[test]
fn tagged_copy_right_after_pick_gives_same_file() {
    let passed = vec!["p0".to_string(), "p1".to_string(), "p2".to_string()];
    let mut src = MpvStatics { lib: 1, show_idx: 0, file_idx: 0 };
    let picked = Feeder::settle_pick(&mut src, 2, &passed).unwrap();
    let mut tag = MpvStatics { lib: 0, show_idx: 7, file_idx: 9 };
    assert_eq!(Feeder::settle_tagged(&mut tag, &src, &passed), Some(picked));
    assert_eq!(tag, src);
}

#[test]
fn filtering_twice_keeps_the_result() {
    let f = Feeder::new(&config());
    let mb = 1024 * 1024;
    let entries = sized(&[
        ("/m/tv/show.mkv", 3 * mb),
        ("/m/tv/tiny.mkv", mb),
        ("/m/tv/ad.mkv", 5 * mb),
        ("/m/tv/edge.mkv", 2 * mb),
    ]);
    let once = f.filter(0, &entries);
    let again_entries: Vec<(String, u64)> =
        entries.iter().filter(|e| once.contains(&e.0)).cloned().collect();
    assert_eq!(f.filter(0, &again_entries), once);
}
