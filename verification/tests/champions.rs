use mimic::champions::{
    champion_icon_asset, champions_from, name_in, order_champions, playable, profile_icon_asset, Champion,
    Champions,
};

#[test]
fn skips_the_placeholder_entry() {
    let summary = vec![(-1, "None".to_owned()), (157, "Yasuo".to_owned()), (18, "Tristana".to_owned())];
    let champions = champions_from(summary);
    assert_eq!(champions.iter().map(|champion| champion.id).collect::<Vec<_>>(), [157, 18]);
}

#[test]
fn an_empty_cache_lists_nothing() {
    let champions = Champions::new("/tmp/mimic-test");
    assert!(playable(Vec::new()).is_empty());
    assert_eq!(name_in(&playable(Vec::new()), 157), None);
    assert!(champions.icon_path(157).ends_with("cache/champion-icons/157.png"));
    assert!(champions.profile_icon_path(7175).ends_with("cache/profile-icons/7175.jpg"));
    assert_eq!(champions.mastery(157), 0);
}

#[test]
fn game_mode_copies_are_not_listed() {
    let cached = vec![Champion { id: 103, name: "Ahri".into() }, Champion { id: 60103, name: "Ahri".into() }];
    assert_eq!(playable(cached), [Champion { id: 103, name: "Ahri".into() }]);
}

#[test]
fn champions_are_cached_by_name() {
    let list = vec![Champion { id: 157, name: "Yasuo".into() }, Champion { id: 18, name: "annie".into() }, Champion { id: 1, name: "Brand".into() }];
    let names: Vec<String> = order_champions(list).into_iter().map(|c| c.name).collect();
    assert_eq!(names, ["annie", "Brand", "Yasuo"]);
}

#[test]
fn mastery_is_the_last_one_reported() {
    let mut champions = Champions::new("/data");
    champions.set_mastery(vec![(157, 10), (18, 5), (157, 30)]);
    assert_eq!(champions.mastery(157), 30);
    assert_eq!(champions.mastery(18), 5);
    assert_eq!(profile_icon_asset(7), "/lol-game-data/assets/v1/profile-icons/7.jpg");
    assert_eq!(champion_icon_asset(157), "/lol-game-data/assets/v1/champion-icons/157.png");
}
