use steam_core::accounts::{
    check_auto_login, clear_loginusers_auto_login, current_account, find_account, list_accounts, plan_switch,
    prepare_loginusers_auto_login, remove_config_account, remove_login_user, userdata_account_id, SwitchOutcome,
};
use steam_core::autologin::{explain_write_failure, read_auto_login, write_auto_login};
use steam_core::error::SteamError;
use steam_core::metadata::RankBook;
use steam_core::model::SteamAccount;
use steam_core::ranks::{DEFAULT_TEMPLATE, UNRANKED};
use steam_core::vdf::{dump, parse};

const LOGINUSERS: &str = r#"
"users"
{
	"76561198000000001"
	{
		"AccountName"		"first-account"
		"PersonaName"		"First"
		"MostRecent"		"1"
		"AllowAutoLogin"		"1"
		"RememberPassword"		"1"
		"Timestamp"		"1700000000"
	}
	"76561198000000002"
	{
		"AccountName"		"second-account"
		"PersonaName"		"Second"
		"MostRecent"		"0"
		"Timestamp"		"1600000000"
	}
}
"#;

const CONFIG: &str = r#"
"InstallConfigStore"
{
	"Software"
	{
		"Valve"
		{
			"Steam"
			{
				"Accounts"
				{
					"first-account"
					{
						"SteamID"		"76561198000000001"
					}
				}
			}
		}
	}
}
"#;

const REGISTRY: &str = "\"Registry\"\n{\n\t\"HKCU\"\n\t{\n\t\t\"Software\"\n\t\t{\n\t\t\t\"Valve\"\n\t\t\t{\n\t\t\t\t\"Steam\"\n\t\t\t\t{\n\t\t\t\t\t\"AutoLoginUser\"\t\t\"first-account\"\n\t\t\t\t}\n\t\t\t}\n\t\t}\n\t}\n}\n";

fn account(steam_id: &str, name: &str) -> SteamAccount {
    SteamAccount {
        steam_id: steam_id.to_string(),
        account_name: name.to_string(),
        persona_name: name.to_string(),
        avatar_path: None,
        most_recent: false,
        remember_password: false,
        allow_auto_login: false,
        wants_offline_mode: false,
        skip_offline_mode_warning: false,
        timestamp: None,
    }
}

#[test]
fn accounts_without_cached_avatar_still_have_an_initial() {
    let account = SteamAccount {
        steam_id: "76561198000000003".to_string(),
        account_name: String::new(),
        persona_name: String::new(),
        avatar_path: None,
        most_recent: false,
        remember_password: false,
        allow_auto_login: false,
        wants_offline_mode: false,
        skip_offline_mode_warning: false,
        timestamp: None,
    };
    assert_eq!(account.display_name(), "76561198000000003");
    assert_eq!(account.avatar_initial(), "7");
}

#[test]
fn listing_puts_the_most_recent_account_first() {
    let data = parse(LOGINUSERS).expect("loginusers parses");
    let accounts = list_accounts(&data);
    assert_eq!(accounts.len(), 2);
    assert_eq!(accounts[0].account_name, "first-account");
    assert_eq!(accounts[0].display_name(), "First");
    assert!(accounts[0].most_recent);
    assert!(!accounts[1].most_recent);
    assert_eq!(accounts[0].avatar_initial(), "F");
    assert_eq!(accounts[0].timestamp, Some(1_700_000_000));
    assert!(accounts[0].remember_password);
}

#[test]
fn listing_breaks_ties_by_flag_then_lower_cased_name() {
    let text = "\"users\"\n{\n\"1\" { \"AccountName\" \"zed\" }\n\"2\" { \"AccountName\" \"Alpha\" }\n\"3\" { \"AccountName\" \"beta\" \"MostRecent\" \"true\" }\n\"4\" \"not an object\"\n}\n";
    let accounts = list_accounts(&parse(text).expect("parses"));
    let names: Vec<&str> = accounts.iter().map(|a| a.account_name.as_str()).collect();
    assert_eq!(names, vec!["beta", "Alpha", "zed"]);
}

#[test]
fn a_document_without_users_lists_nothing() {
    assert!(list_accounts(&parse("\"other\" { }").expect("parses")).is_empty());
}

#[test]
fn accounts_are_found_by_id_login_or_persona_name() {
    let accounts = list_accounts(&parse(LOGINUSERS).expect("parses"));
    assert_eq!(find_account(&accounts, "76561198000000002").map(|a| a.account_name.as_str()), Some("second-account"));
    assert_eq!(find_account(&accounts, "FIRST-ACCOUNT").map(|a| a.steam_id.as_str()), Some("76561198000000001"));
    assert_eq!(find_account(&accounts, "second").map(|a| a.steam_id.as_str()), Some("76561198000000002"));
    assert!(find_account(&accounts, "nobody").is_none());
}

#[test]
fn the_current_account_is_the_flagged_one_or_the_latest() {
    let mut accounts = vec![account("1", "a"), account("2", "b"), account("3", "c")];
    accounts[0].timestamp = Some(5);
    accounts[1].timestamp = Some(9);
    accounts[2].timestamp = Some(9);
    assert_eq!(current_account(&accounts).map(|a| a.steam_id.as_str()), Some("3"));
    accounts[0].most_recent = true;
    assert_eq!(current_account(&accounts).map(|a| a.steam_id.as_str()), Some("1"));
    assert!(current_account(&Vec::new()).is_none());
}

#[test]
fn switching_flags_only_the_target_account() {
    let mut data = parse(LOGINUSERS).expect("parses");
    prepare_loginusers_auto_login(&mut data, "76561198000000002", 1_800_000_000);
    let accounts = list_accounts(&data);
    let second = accounts.iter().find(|a| a.account_name == "second-account").expect("second account");
    assert!(second.most_recent);
    assert!(second.allow_auto_login);
    assert!(second.remember_password);
    assert_eq!(second.timestamp, Some(1_800_000_000));
    let first = accounts.iter().find(|a| a.account_name == "first-account").expect("first account");
    assert!(!first.most_recent);
    assert!(!first.allow_auto_login);
    assert_eq!(current_account(&accounts).map(|a| a.account_name.as_str()), Some("second-account"));
}

#[test]
fn clearing_leaves_no_account_to_log_into() {
    let mut data = parse(LOGINUSERS).expect("parses");
    clear_loginusers_auto_login(&mut data);
    let accounts = list_accounts(&data);
    assert!(accounts.iter().all(|account| !account.most_recent));
    assert!(accounts.iter().all(|account| !account.allow_auto_login));
}

#[test]
fn removing_an_account_edits_both_files() {
    let mut data = parse(LOGINUSERS).expect("parses");
    remove_login_user(&mut data, "76561198000000001");
    let accounts = list_accounts(&data);
    assert_eq!(accounts.len(), 1);
    assert_eq!(accounts[0].account_name, "second-account");

    let mut config = parse(CONFIG).expect("config parses");
    assert!(remove_config_account(&mut config, "First-Account"));
    assert!(!remove_config_account(&mut config, "first-account"));
    let section = config
        .path(&["InstallConfigStore", "Software", "Valve", "Steam", "Accounts"])
        .expect("accounts section");
    assert!(section.get("first-account").is_none());

    let mut empty = parse("\"other\" { }").expect("parses");
    assert!(!remove_config_account(&mut empty, "first-account"));
}

#[test]
fn userdata_ids_are_the_low_part_of_individual_ids() {
    assert_eq!(userdata_account_id("76561197999999001").unwrap(), 39_733_273);
    assert_eq!(userdata_account_id("76561198000000001").unwrap(), 39_734_273);
    for bad in ["../outside", "", "39734273", "76561197960265728", "18446744073709551615", "+76561198000000001", "18446744073709551616"] {
        match userdata_account_id(bad) {
            Err(SteamError::Config(message)) => {
                assert_eq!(message, format!("Refusing to delete userdata for invalid steamid: {bad}"))
            }
            other => panic!("{bad} gave {other:?}"),
        }
    }
}

#[test]
fn switch_plans_follow_the_running_client() {
    let first = account("76561198000000001", "first-account");
    let second = account("76561198000000002", "second-account");

    let plan = plan_switch(Some(&second), "second", true, true, Some(&first)).expect("plan");
    assert_eq!(plan.outcome, SwitchOutcome::Switched { account_name: "second-account".to_string() });
    assert!(plan.stop_first && plan.write_auto_login && plan.launch);
    assert_eq!(plan.flag_steam_id.as_deref(), Some("76561198000000002"));

    let plan = plan_switch(Some(&first), "first", true, true, Some(&first)).expect("plan");
    assert!(plan.outcome.already_active());
    assert_eq!(plan.outcome.account_name(), "first-account");
    assert!(!plan.launch && !plan.write_auto_login);

    let plan = plan_switch(Some(&first), "first", true, false, Some(&first)).expect("plan");
    assert!(plan.outcome.started());
    assert!(plan.launch && !plan.stop_first);

    let plan = plan_switch(None, "someone", false, true, None).expect("plan");
    assert_eq!(plan.outcome.account_name(), "someone");
    assert!(!plan.stop_first && !plan.launch && plan.write_auto_login);
    assert!(plan.flag_steam_id.is_none());

    match plan_switch(None, "", true, false, None) {
        Err(SteamError::Config(message)) => assert_eq!(message, "Cannot switch to an empty account name."),
        other => panic!("unexpected {other:?}"),
    }
}

#[test]
fn a_write_that_did_not_stick_is_reported() {
    assert!(check_auto_login("second-account", "second-account").is_ok());
    match check_auto_login("first-account", "second-account") {
        Err(SteamError::Config(message)) => assert_eq!(
            message,
            "Steam kept the previous auto-login account (\"first-account\" instead of \"second-account\"). The registry file may be read-only or the Steam client is rewriting it."
        ),
        other => panic!("unexpected {other:?}"),
    }
}

#[test]
fn auto_login_is_written_then_read_back() {
    let mut registry = parse(REGISTRY).expect("registry parses");
    assert_eq!(read_auto_login(&registry), "first-account");

    write_auto_login(&mut registry, "new-account").expect("write");
    assert_eq!(read_auto_login(&registry), "new-account");
    let text = dump(&registry);
    assert!(text.contains("\"RememberPassword\"\t\t\"1\""));
    assert!(text.contains("\"AlreadyLoggedIn\"\t\t\"0\""));

    write_auto_login(&mut registry, "").expect("clear");
    assert_eq!(read_auto_login(&registry), "");
    assert!(dump(&registry).contains("\"RememberPassword\"\t\t\"0\""));
}

#[test]
fn a_text_in_the_way_of_the_registry_section_is_replaced() {
    let mut registry = parse("\"Registry\" \"flat\"").expect("parses");
    write_auto_login(&mut registry, "player").expect("section created");
    assert_eq!(read_auto_login(&registry), "player");
    let mut empty = parse("").expect("parses");
    write_auto_login(&mut empty, "player").expect("section created");
    assert_eq!(read_auto_login(&empty), "player");
}

#[test]
fn permission_errors_name_the_write_protection() {
    let text = explain_write_failure("/home/me/.steam/registry.vdf", "Unable to write x: Permission denied (os error 13)");
    assert!(text.starts_with("Unable to write x: Permission denied (os error 13). /home/me/.steam/registry.vdf may be write-protected"));
    assert!(text.ends_with("`sudo chattr -i /home/me/.steam/registry.vdf` and retry."));
    assert_eq!(explain_write_failure("/x", "disk full"), "disk full");
}

#[test]
fn ranks_round_trip_through_the_book() {
    let first = account("76561198000000001", "first");
    let mut book = RankBook::default();
    assert_eq!(book.choice_for(&first).value, UNRANKED);
    assert_eq!(book.choice_for(&first).template, DEFAULT_TEMPLATE);

    let stored = book.set_rank(&first, "marvel-rivals", "Diamond 2");
    assert_eq!(stored.value, "Diamond 2");
    let choice = book.choice_for(&first);
    assert_eq!(choice.template, "marvel-rivals");
    assert_eq!(choice.value, "Diamond 2");
    assert_eq!(book.choice_for(&account("76561198000000009", "other")).value, UNRANKED);
}

#[test]
fn each_template_keeps_its_own_ladder_in_the_book() {
    let player = account("76561198000000001", "player");
    let mut book = RankBook::default();
    book.set_rank(&player, "overwatch", "Emerald 2");
    assert_eq!(book.choice_for(&player).value, "Emerald 2");
    book.set_rank(&player, "cs2", "Global Elite");
    let choice = book.choice_for(&player);
    assert_eq!(choice.template, "cs2");
    assert_eq!(choice.value, "Global Elite");
    book.set_rank(&player, "cs2", "Diamond 3");
    assert_eq!(book.choice_for(&player).value, UNRANKED);
    book.set_rank(&player, "cs2-premier", "21 340");
    assert_eq!(book.choice_for(&player).value, "21340");
    let unknown = book.set_rank(&player, "no-such-game", "Gold 1");
    assert_eq!(unknown.template, DEFAULT_TEMPLATE);
    assert_eq!(book.accounts.len(), 1);
}

#[test]
fn switches_target_the_login_name_of_the_account_found() {
    let found = account("76561198000000001", "first-account");
    assert_eq!(steam_core::accounts::switch_target(Some(&found), "First"), "first-account");
    assert_eq!(steam_core::accounts::switch_target(None, "typed-name"), "typed-name");
    assert_eq!(steam_core::accounts::switch_target(None, ""), "");
}

#[test]
fn names_match_ignoring_ascii_case_only() {
    assert!(steam_core::text::eq_ignore_ascii_case("First-Account", "first-account"));
    assert!(!steam_core::text::eq_ignore_ascii_case("Émile", "émile2"));
    assert!(!steam_core::text::eq_ignore_ascii_case("É", "é"));
    assert!(steam_core::text::eq_ignore_ascii_case("", ""));
}

#[test]
fn userdata_deletion_stays_strictly_inside_userdata() {
    let root = "/steam/userdata";
    assert_eq!(steam_core::accounts::userdata_folder(root, 39734273), "/steam/userdata/39734273");
    assert!(steam_core::accounts::check_userdata_target(root, "/steam/userdata/39734273").is_ok());
    match steam_core::accounts::check_userdata_target(root, "/elsewhere/saves") {
        Err(error) => assert_eq!(error.to_string(), "Refusing to delete path outside userdata: /elsewhere/saves"),
        Ok(()) => panic!("a target outside userdata is refused"),
    }
    assert!(steam_core::accounts::check_userdata_target(root, "/steam/userdata").is_err());
    assert!(steam_core::accounts::check_userdata_target(root, "/steam/userdata/").is_err());
    assert!(steam_core::accounts::check_userdata_target(root, "/steam/userdata2/1").is_err());
    for bad in ["../outside", "", "39734273", "76561197960265728", "18446744073709551615"] {
        assert!(userdata_account_id(bad).is_err());
    }
}
