use mimic::json::Json;
use mimic::platform::{install_candidates, install_from_product_settings, installs_from_riot_client_installs, LeagueInstall};

fn object(members: Vec<(&str, Json)>) -> Json {
    Json::Object(members.into_iter().map(|(k, v)| (k.to_owned(), v)).collect())
}

#[test]
fn reads_install_path_from_product_settings() {
    let yaml = "locale_data:\n    default_locale: \"en_US\"\nproduct_install_full_path: \"D:/Games/League of Legends\"\nproduct_install_root: \"D:/Games/\"\n";
    assert_eq!(install_from_product_settings(yaml), Some("D:/Games/League of Legends".to_owned()));
    assert_eq!(install_from_product_settings(""), None);
    assert_eq!(install_from_product_settings("product_install_full_path: \"\""), None);
}

fn client_installs() -> Json {
    let client = || Json::Str("C:/Riot Games/Riot Client/RiotClientServices.exe".to_owned());
    object(vec![
        (
            "associated_client",
            object(vec![("C:/Riot Games/League of Legends (PBE)/", client()), ("C:/Riot Games/League of Legends/", client())]),
        ),
        ("rc_default", client()),
    ])
}

#[test]
fn reads_live_installs_from_riot_client_installs() {
    assert_eq!(installs_from_riot_client_installs(Some(&client_installs())), ["C:/Riot Games/League of Legends/"]);
    assert!(installs_from_riot_client_installs(None).is_empty());
    assert!(installs_from_riot_client_installs(Some(&object(vec![]))).is_empty());
}

#[test]
fn looks_in_riot_metadata_before_the_default_folder() {
    let candidates = install_candidates("product_install_full_path: D:/LoL\r\n", Some(&client_installs()));
    assert_eq!(candidates, ["D:/LoL", "C:/Riot Games/League of Legends/", "C:\\Riot Games\\League of Legends"]);
}

#[test]
fn an_install_is_only_accepted_with_its_client() {
    assert_eq!(LeagueInstall::at("D:/LoL", false), None);
    let install = LeagueInstall::at("D:/LoL", true).unwrap();
    assert_eq!(install.root(), "D:/LoL");
    assert_eq!(install.persisted_settings(), "D:/LoL/Config/PersistedSettings.json");
    assert_eq!(LeagueInstall::client_exe("D:/LoL/"), "D:/LoL/LeagueClient.exe");
}
