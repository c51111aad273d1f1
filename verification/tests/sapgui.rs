use sapvault::model::SapLaunch;
use sapvault::sapgui::{build_arguments, mask_password, normalize_client, shortcut_text};

fn launch() -> SapLaunch {
    SapLaunch {
        system_id: "PRD".to_string(),
        client: "1".to_string(),
        language: "ZH".to_string(),
        guiparm: "/H/sap-prd.example/S/3200".to_string(),
        service_uuid: "s-prd".to_string(),
        transaction: "se80".to_string(),
        maximize: true,
    }
}

#[test]
fn command_line_mode_carries_the_password() {
    let args = build_arguments(&launch(), "USER01", "S3cret!", true);
    assert!(args.contains(&"-system=PRD".to_string()));
    assert!(args.contains(&"-client=001".to_string()));
    assert!(args.contains(&"-guiparm=/H/sap-prd.example/S/3200".to_string()));
    assert!(args.contains(&"-user=USER01".to_string()));
    assert!(args.contains(&"-language=ZH".to_string()));
    assert!(args.contains(&"-pw=S3cret!".to_string()));
    assert!(args.contains(&"-maxgui".to_string()));
    assert!(args.contains(&"-type=Transaction".to_string()));
    assert!(args.contains(&"-command=se80".to_string()));
}

#[test]
fn clipboard_mode_keeps_the_user_but_never_the_password() {
    let args = build_arguments(&launch(), "USER01", "S3cret!", false);
    assert!(!args.iter().any(|arg| arg.starts_with("-pw=")));
    assert!(args.contains(&"-user=USER01".to_string()));
    assert!(args.iter().any(|arg| arg.starts_with("-system=")));
}

#[test]
fn logon_group_connection_strings_keep_the_system_id() {
    let group = SapLaunch {
        system_id: "PRD".to_string(),
        guiparm: "/R/PRD/G/SPACE".to_string(),
        client: "100".to_string(),
        ..Default::default()
    };
    let args = build_arguments(&group, "USER01", "", false);
    assert!(args.contains(&"-system=PRD".to_string()));
    assert!(args.contains(&"-guiparm=/R/PRD/G/SPACE".to_string()));
    assert!(args.contains(&"-client=100".to_string()));

    let routed = SapLaunch {
        system_id: "PRD".to_string(),
        guiparm: "/H/10.0.0.1/S/3299/M/sapmsgsrv/S/3600/G/SPACE".to_string(),
        ..Default::default()
    };
    let args = build_arguments(&routed, "", "", false);
    assert!(args.contains(&"-system=PRD".to_string()));
    assert!(args.contains(&"-guiparm=/H/10.0.0.1/S/3299/M/sapmsgsrv/S/3600/G/SPACE".to_string()));
}

#[test]
fn optional_arguments_are_dropped_when_empty() {
    let bare = SapLaunch {
        system_id: "DEV".to_string(),
        ..Default::default()
    };
    let args = build_arguments(&bare, "", "", false);
    assert_eq!(args, vec!["-system=DEV".to_string()]);
}

#[test]
fn clients_are_padded_to_three_digits() {
    assert_eq!(normalize_client("1"), "001");
    assert_eq!(normalize_client("10"), "010");
    assert_eq!(normalize_client("100"), "100");
    assert_eq!(normalize_client(" 200 "), "200");
    assert_eq!(normalize_client(""), "");
}

#[test]
fn shortcut_file_matches_the_format_sap_gui_writes() {
    let text = shortcut_text(&launch(), "USER01", "PRD [SPACE]", r"C:\Users\me\Documents\SAP\SAP GUI");
    assert!(text.starts_with("[System]\r\n"));
    assert!(text.contains("Description=PRD [SPACE]\r\n"));
    assert!(text.contains("SystemID=PRD\r\n"));
    assert!(text.contains("Client=001\r\n"));
    assert!(text.contains("[User]\r\nName=USER01\r\nLanguage=ZH\r\n"));
    assert!(text.contains("[Function]\r\nTitle=SAP\r\nCommand=se80\r\n"));
    assert!(text.contains("[Configuration]\r\nWorkDir=C:\\Users\\me\\Documents\\SAP\\SAP GUI\r\n"));
    assert!(text.contains("[Options]\r\nReuse=1\r\n"));
    assert!(text.ends_with("\r\n"));
    assert!(!text.contains("GuiParm"));
    assert!(!text.contains("pw="));
}

#[test]
fn shortcut_file_defaults_to_the_easy_access_transaction() {
    let bare = SapLaunch {
        system_id: "DEV".to_string(),
        guiparm: "/H/dev.example/S/3200".to_string(),
        ..Default::default()
    };
    let text = shortcut_text(&bare, "", "", "");
    assert!(text.contains("Description=DEV\r\n"));
    assert!(text.contains("SystemID=DEV\r\n"));
    assert!(text.contains("[Function]\r\nTitle=SAP\r\nCommand=S000\r\n"));
    assert!(!text.contains("[User]"));
    assert!(!text.contains("[Configuration]"));
    assert!(text.contains("[Options]\r\nReuse=1\r\n"));
}

#[test]
fn displayed_arguments_never_leak_the_password() {
    let args = build_arguments(&launch(), "USER01", "S3cret!", true);
    let shown = mask_password(&args);
    assert!(shown.contains(&"-pw=***".to_string()));
    assert!(!shown.iter().any(|arg| arg.contains("S3cret!")));
}

#[test]
fn masking_keeps_every_other_argument() {
    let args = build_arguments(&launch(), "USER01", "S3cret!", true);
    let shown = mask_password(&args);
    assert_eq!(shown.len(), args.len());
    for (a, b) in args.iter().zip(shown.iter()) {
        if !a.starts_with("-pw=") {
            assert_eq!(a, b);
        }
    }
}
