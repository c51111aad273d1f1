use sapvault::landscape::Collector;
use sapvault::saplogon::{
    classify_include, connection_string, count_system_id, find_system, include_to_path, instance_from_port,
    percent_decode, resolve, resolve_shortcut_references, IncludeSource, LandscapeLoad, LandscapeParts, SapSystem,
};

const SAMPLE: &str = r#"<?xml version="1.0" encoding="utf-8"?>
<Landscape version="1" updated="20260101000000" origin="" generator="RSLSMT">
  <Workspaces>
    <Workspace name="生产系统" uuid="w-1" expanded="1">
      <Node name="财务" uuid="n-1">
        <Item uuid="i-1" serviceid="s-prd"/>
      </Node>
    </Workspace>
  </Workspaces>
  <Services>
    <Service uuid="s-prd" name="PRD 生产机" server="sap-prd.example.com:3200" type="SAPGUI"
             sncop="-1" mode="1" systemid="PRD" dcpg="2" sapcpg="1100"/>
    <Service uuid="s-p20" name="P20 登录组" server="SPACE" msid="m-1" type="SAPGUI" systemid="P20"/>
    <Service uuid="s-iqb" name="IQB 直接连接" server="10.1.101.82:3300" type="SAPGUI" systemid="IQB"/>
    <Service uuid="s-dev" name="DEV 开发机" server="dev.example.com:3200" type="SAPGUI" systemid="DEV"/>
    <Service uuid="s-dev-sc" name="DEV 快捷方式" type="SAPGUI" systemid="DEV" sapguiid="s-dev"
             client="300" language="EN" user="SHORTCUTUSER"/>
    <Service uuid="s-web" name="Fiori" type="FIORI" url="https://fiori.example.com/sap/bc/ui5_ui5"/>
    <Service uuid="s-ref" name="PRD 快捷方式" type="Reference" systemid="PRD" client="100"
             user="TESTUSER" language="ZH"/>
  </Services>
  <Routers>
    <Router name="/H/saprouter.example" uuid="r-1" router="/H/saprouter.example"/>
    <Router name="/H/sapgateway.example/S/3456/H/" uuid="r-2" router="/H/sapgateway.example/S/3456/H/"/>
  </Routers>
  <Messageservers>
    <Messageserver name="P20" uuid="m-1" host="sapms.example.com" port="3600"/>
  </Messageservers>
</Landscape>"#;

fn collect(xml: &str) -> Vec<SapSystem> {
    let mut collector = Collector::new();
    let mut warnings: Vec<String> = Vec::new();
    collector.run(xml, "sample.xml", &mut warnings);
    assert!(warnings.is_empty(), "unexpected warnings: {warnings:?}");
    let mut parts = LandscapeParts::new();
    parts.absorb(collector);
    let mut systems: Vec<SapSystem> = parts
        .services
        .iter()
        .map(|service| resolve(service, &parts.routers, &parts.messages, &parts.items))
        .collect();
    resolve_shortcut_references(&mut systems);
    systems
}

fn system<'a>(systems: &'a [SapSystem], id: &str) -> &'a SapSystem {
    systems
        .iter()
        .find(|system| system.system_id == id)
        .unwrap_or_else(|| panic!("system {id} missing"))
}

#[test]
fn parses_an_application_server_entry() {
    let systems = collect(SAMPLE);
    let prd = system(&systems, "PRD");
    assert_eq!(prd.kind, "applicationServer");
    assert_eq!(prd.host, "sap-prd.example.com");
    assert_eq!(prd.port, "3200");
    assert_eq!(prd.instance, "00");
    assert_eq!(prd.guiparm, "/H/sap-prd.example.com/S/3200");
    assert_eq!(prd.workspace, "生产系统 / 财务");
    assert!(prd.is_launchable());
}

#[test]
fn parses_a_logon_group_entry_through_the_message_server() {
    let systems = collect(SAMPLE);
    let p20 = system(&systems, "P20");
    assert_eq!(p20.kind, "serverGroup");
    assert_eq!(p20.group, "SPACE");
    assert_eq!(p20.message_server, "sapms.example.com");
    assert_eq!(p20.message_server_port, "3600");
    assert_eq!(p20.host, "sapms.example.com");
    assert_eq!(p20.guiparm, "/H/sapms.example.com/S/3600/G/SPACE");
}

#[test]
fn derives_the_instance_number_from_the_port() {
    let systems = collect(SAMPLE);
    let iqb = system(&systems, "IQB");
    assert_eq!(iqb.instance, "01");
    assert_eq!(iqb.port, "3300");
}

#[test]
fn reads_web_entries_and_saved_shortcuts() {
    let systems = collect(SAMPLE);
    let web = systems.iter().find(|system| system.entry_type == "FIORI").expect("fiori entry");
    assert_eq!(web.kind, "web");
    assert_eq!(web.host, "fiori.example.com");
    assert!(!web.is_launchable());

    let reference = systems.iter().find(|system| system.entry_type == "Reference").expect("reference entry");
    assert_eq!(reference.client, "100");
    assert_eq!(reference.user, "TESTUSER");
    assert_eq!(reference.language, "ZH");
}

#[test]
fn repeated_system_ids_stay_separate() {
    let systems = collect(SAMPLE);
    assert_eq!(count_system_id(&systems, "PRD"), 2);
    let by_sid = find_system(&systems, "", "PRD").expect("unique launchable entry");
    assert_eq!(by_sid.kind, "applicationServer");
    let pinned = find_system(&systems, "s-ref", "PRD").expect("pinned by uuid");
    assert_eq!(pinned.entry_type, "Reference");
    assert_eq!(find_system(&systems, "", "P20").unwrap().service_uuid, "s-p20");
}

#[test]
fn ambiguous_system_ids_are_reported_as_such() {
    let ambiguous = r#"<Landscape>
  <Services>
    <Service uuid="a" name="A" server="a.example.com:3200" type="SAPGUI" systemid="LMS"/>
    <Service uuid="b" name="B" server="b.example.com:3200" type="SAPGUI" systemid="LMS"/>
  </Services>
</Landscape>"#;
    let systems = collect(ambiguous);
    assert_eq!(count_system_id(&systems, "LMS"), 2);
    assert!(find_system(&systems, "", "LMS").is_none());
    assert_eq!(find_system(&systems, "b", "LMS").unwrap().host, "b.example.com");
}

#[test]
fn routers_are_prepended_to_the_connection_string() {
    let router = SapSystem {
        router: "/H/router.example".to_string(),
        ..Default::default()
    };
    assert_eq!(
        connection_string(&router, "sap.example.com", "3200"),
        "/H/router.example/S/3299/H/sap.example.com/S/3200"
    );
    let with_port = SapSystem {
        router: "/H/router.example/S/3298".to_string(),
        ..Default::default()
    };
    assert_eq!(
        connection_string(&with_port, "sap.example.com", "3200"),
        "/H/router.example/S/3298/H/sap.example.com/S/3200"
    );
    let documented = SapSystem {
        router: "/H/sapgateway.mycorp.com/S/3456/H/".to_string(),
        ..Default::default()
    };
    assert_eq!(
        connection_string(&documented, "sap.example.com", "3200"),
        "/H/sapgateway.mycorp.com/S/3456/H/sap.example.com/S/3200"
    );
}

#[test]
fn saved_shortcuts_inherit_the_connection_they_point_at() {
    let systems = collect(SAMPLE);
    let shortcut = systems.iter().find(|system| system.service_uuid == "s-dev-sc").expect("shortcut entry");
    assert_eq!(shortcut.sapgui_id, "s-dev");
    assert_eq!(shortcut.host, "dev.example.com");
    assert_eq!(shortcut.guiparm, "/H/dev.example.com/S/3200");
    assert!(shortcut.is_launchable());
    assert_eq!(shortcut.client, "300");
    assert_eq!(shortcut.user, "SHORTCUTUSER");
    assert_eq!(shortcut.system_id, "DEV");
    assert_eq!(shortcut.name, "DEV 快捷方式");
}

#[test]
fn a_system_reachable_through_a_router_gets_the_full_chain() {
    let xml = r#"<Landscape>
  <Routers>
    <Router uuid="r-9" name="gateway" router="/H/sapgateway.mycorp.com/S/3456/H/"/>
  </Routers>
  <Services>
    <Service uuid="s-1" name="CD2" type="SAPGUI" systemid="CD2" server="cd2.example.com:3200" routerid="r-9"/>
  </Services>
</Landscape>"#;
    let systems = collect(xml);
    assert_eq!(systems[0].guiparm, "/H/sapgateway.mycorp.com/S/3456/H/cd2.example.com/S/3200");
}

#[test]
fn parses_child_element_layouts() {
    let legacy = r#"<Landscape>
  <Services>
    <Service uuid="x" name="DEV" type="SAPGUI">
      <System id="DEV"/>
      <Connection>
        <Server>dev.example.com:3200</Server>
        <Client>200</Client>
        <Language>EN</Language>
      </Connection>
    </Service>
  </Services>
</Landscape>"#;
    let systems = collect(legacy);
    assert_eq!(systems.len(), 1);
    let dev = &systems[0];
    assert_eq!(dev.system_id, "DEV");
    assert_eq!(dev.host, "dev.example.com");
    assert_eq!(dev.client, "200");
    assert_eq!(dev.language, "EN");
}

#[test]
fn include_urls_become_windows_paths() {
    assert_eq!(
        include_to_path("file:///C:/Users/lhm49/AppData/Roaming/SAP/Common/SAPUILandscapeGlobal.xml"),
        Some(r"C:\Users\lhm49\AppData\Roaming\SAP\Common\SAPUILandscapeGlobal.xml".to_string())
    );
    assert_eq!(include_to_path(""), None);
}

#[test]
fn remote_includes_are_classified_as_remote() {
    assert!(matches!(
        classify_include("https://corp.example.com/saplandscapes/AdditionalSAPUILandscape_1.xml"),
        IncludeSource::Remote(_)
    ));
    assert!(matches!(classify_include("  "), IncludeSource::Ignored));
    match classify_include("file:///C:/definitely-missing/SAPUILandscapeGlobal.xml") {
        IncludeSource::Local(path) => assert_eq!(path, r"C:\definitely-missing\SAPUILandscapeGlobal.xml"),
        _ => panic!("a file include is local"),
    }
}

#[test]
fn percent_escapes_are_decoded() {
    assert_eq!(percent_decode("SAP%20GUI"), "SAP GUI");
    assert_eq!(percent_decode("100%"), "100%");
    assert_eq!(percent_decode("%zz"), "%zz");
}

#[test]
fn instance_numbers_need_a_sap_port() {
    assert_eq!(instance_from_port("3200"), "00");
    assert_eq!(instance_from_port("3399"), "");
    assert_eq!(instance_from_port("80"), "");
    assert_eq!(instance_from_port("x"), "");
}

#[test]
fn a_syntax_error_is_reported() {
    let mut collector = Collector::new();
    let mut warnings: Vec<String> = Vec::new();
    collector.run("<Landscape><Services></Landscape>", "broken.xml", &mut warnings);
    assert_eq!(warnings.len(), 1);
    assert!(warnings[0].starts_with("XML 解析中断："));
}

#[test]
fn the_list_puts_launchable_entries_first() {
    let mut parts = LandscapeParts::new();
    let mut collector = Collector::new();
    let mut warnings: Vec<String> = Vec::new();
    collector.run(SAMPLE, "sample.xml", &mut warnings);
    parts.absorb(collector);
    let systems = parts.assemble();
    assert_eq!(systems.len(), 7);
    let first_other = systems.iter().position(|system| !system.is_launchable()).unwrap();
    assert!(systems[first_other..].iter().all(|system| !system.is_launchable()));
    assert_eq!(systems[0].system_id, "DEV");
}

/// Runs the load loop over files held in memory, the way the application
/// runs it over the disk.
fn load_from(files: &[(&str, &str)], defaults: Vec<String>, extra: &Vec<String>) -> sapvault::saplogon::Landscape {
    let mut load = LandscapeLoad::new(defaults, extra);
    while let Some((path, depth)) = load.next() {
        match files.iter().find(|(name, _)| *name == path) {
            None => load.missing(&path, depth),
            Some((_, text)) => {
                if load.begin(&path) {
                    load.read(text.as_bytes(), &path, depth);
                }
            }
        }
    }
    load.finish()
}

#[test]
fn loading_follows_local_includes_and_skips_remote_ones() {
    let main = r#"<Landscape><Includes>
        <Include url="file:///C:/SAP/global.xml" index="0"/>
        <Include url="https://intranet.example/landscape.xml" index="1"/>
      </Includes>
      <Services><Service uuid="a" name="A" server="a.example:3200" type="SAPGUI" systemid="AAA"/></Services>
    </Landscape>"#;
    let global = r#"<Landscape><Services>
        <Service uuid="b" name="B" server="b.example:3300" type="SAPGUI" systemid="BBB"/>
      </Services></Landscape>"#;
    let landscape = load_from(
        &[("C:\\main.xml", main), ("C:\\SAP\\global.xml", global)],
        vec!["C:\\main.xml".to_string()],
        &Vec::new(),
    );
    assert_eq!(landscape.files, vec!["C:\\main.xml".to_string(), "C:\\SAP\\global.xml".to_string()]);
    assert_eq!(landscape.systems.len(), 2);
    assert_eq!(landscape.systems[0].system_id, "AAA");
    assert_eq!(landscape.systems[1].system_id, "BBB");
    assert_eq!(landscape.systems[1].instance, "01");
    assert_eq!(
        landscape.warnings,
        vec!["已跳过远程 include（本程序不联网）：https://intranet.example/landscape.xml".to_string()]
    );
}

#[test]
fn missing_files_are_reported_only_when_the_user_named_them() {
    let landscape = load_from(
        &[],
        vec!["C:\\default.xml".to_string()],
        &vec!["  C:\\mine.xml  ".to_string(), "   ".to_string()],
    );
    assert!(landscape.files.is_empty());
    assert!(landscape.systems.is_empty());
    assert_eq!(landscape.warnings, vec!["找不到文件：C:\\mine.xml".to_string()]);
}

#[test]
fn a_file_that_includes_itself_is_read_once() {
    let looping = r#"<Landscape><Includes><Include url="file:///C:/loop.xml"/></Includes>
      <Services><Service uuid="l" name="L" server="l.example:3200" type="SAPGUI" systemid="LLL"/></Services>
    </Landscape>"#;
    let landscape = load_from(&[("C:\\loop.xml", looping)], vec![], &vec!["C:\\loop.xml".to_string()]);
    assert_eq!(landscape.files, vec!["C:\\loop.xml".to_string()]);
    assert_eq!(landscape.systems.len(), 1);
    assert!(landscape.warnings.is_empty());
}

#[test]
fn includes_deeper_than_four_levels_are_dropped() {
    let mut load = LandscapeLoad::new(vec![], &Vec::new());
    load.queue.push(("deep.xml".to_string(), 5));
    load.queue.push(("ok.xml".to_string(), 4));
    load.queue.push(("deeper.xml".to_string(), 9));
    assert_eq!(load.next(), Some(("ok.xml".to_string(), 4)));
    assert_eq!(load.next(), None);
    assert!(load.queue.is_empty());
}

#[test]
fn an_unreadable_file_is_warned_about() {
    let mut load = LandscapeLoad::new(vec![], &Vec::new());
    load.unreadable("C:\\x.xml", "拒绝访问");
    assert_eq!(load.warnings, vec!["无法读取 C:\\x.xml：拒绝访问".to_string()]);
}
