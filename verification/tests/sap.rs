use sapvault::model::now_string;
use sapvault::sap::{
    domain_suffixes, duplicate_system_ids, host_from_router, host_from_server, host_from_url, include_to_path, is_ip,
    landscape_candidates, parse_file, LandscapeCollection, LandscapeReport, SapSystem,
};

const SAMPLE: &str = r#"<?xml version="1.0" encoding="utf-8"?>
<Landscape version="1" updated="2023-07-26T14:14:41" generator="RSLSMT">
  <Workspaces>
    <Workspace name="生产" uuid="w1" expanded="0">
      <Node uuid="n1" name="财务" expanded="0" hidden="0">
        <Item uuid="i1" serviceid="s-prod"/>
      </Node>
    </Workspace>
  </Workspaces>
  <Services>
    <Service uuid="s-prod" name="PRD 生产机" server="prd.sap.corp.example:3200" type="SAPGUI"
             sncop="-1" mode="1" systemid="PRD" client="100" language="ZH" dcpg="2"/>
    <Service uuid="s-prod2" name="PRD 备用" server="10.20.30.40:3200" type="SAPGUI"
             systemid="PRD" client="200"/>
    <Service uuid="s-dev" name="DEV" msid="ms-dev" server="SPACE" type="SAPGUI"
             systemid="DEV" routerid="r1" client="100"/>
    <Service uuid="s-fio" name="Fiori" type="FIORI" url="https://fiori.corp.example:8443/sap/bc/ui2/flp"/>
    <Service uuid="s-nwbc" name="NWBC" type="NWBC" url="http://nwbc.corp.example:8010/nwbc"/>
  </Services>
  <Routers>
    <Router name="/H/router.corp.example" uuid="r1" router="/H/router.corp.example/S/3299" description="r"/>
  </Routers>
  <Messageservers>
    <Messageserver name="DEV" uuid="ms-dev" host="msdev.corp.example" port="3601"/>
  </Messageservers>
</Landscape>"#;

/// Reads landscape files held in memory the way the application reads them
/// from disk: each given path, then the files its includes point at.
fn parse_files(paths: &[&str], disk: &[(&str, &str)]) -> LandscapeReport {
    fn collect(c: &mut LandscapeCollection, path: &str, depth: usize, disk: &[(&str, &str)]) {
        let Some((_, content)) = disk.iter().find(|(name, _)| *name == path) else { return };
        if !c.begin(path, path, depth) {
            return;
        }
        let includes = c.absorb(path, parse_file(content.as_bytes(), path));
        for target in includes {
            if let Some(next) = include_to_path(&target, None, '\\') {
                collect(c, &next, depth + 1, disk);
            }
        }
    }
    let mut c = LandscapeCollection::new();
    let given: Vec<String> = paths.iter().map(|p| p.to_string()).collect();
    for path in landscape_candidates(&given, Vec::new()) {
        collect(&mut c, &path, 0, disk);
    }
    c.report(now_string())
}

#[test]
fn parses_and_resolves_hosts() {
    let report = parse_files(&["SAPUILandscape.xml"], &[("SAPUILandscape.xml", SAMPLE)]);
    assert_eq!(report.systems.len(), 5);

    let prd = report.resolve("PRD");
    assert_eq!(prd.len(), 2, "duplicate system ids must all be returned");
    assert!(prd.iter().any(|system| system.hosts.contains(&"prd.sap.corp.example".to_string())));
    assert!(prd.iter().any(|system| system.hosts.contains(&"10.20.30.40".to_string())));

    let dev = report.resolve("dev");
    assert_eq!(dev.len(), 1);
    assert!(dev[0].hosts.contains(&"msdev.corp.example".to_string()));
    assert!(dev[0].hosts.contains(&"router.corp.example".to_string()));

    let fiori = report.systems.iter().find(|system| system.service_type == "FIORI").unwrap();
    assert_eq!(fiori.hosts, vec!["fiori.corp.example".to_string()]);

    assert_eq!(prd.iter().find(|system| system.service_id == "s-prod").unwrap().workspace, "生产 / 财务");
    assert!(report.hosts_for("PRD").contains(&"corp.example".to_string()));
}

#[test]
fn duplicate_system_ids_are_reported_with_all_hosts() {
    let report = parse_files(&["SAPUILandscape.xml"], &[("SAPUILandscape.xml", SAMPLE)]);
    let duplicate = report.duplicates.iter().find(|item| item.system_id == "PRD").unwrap();
    assert_eq!(duplicate.count, 2);
    assert!(duplicate.hosts.contains(&"10.20.30.40".to_string()));
    assert!(duplicate.hosts.contains(&"prd.sap.corp.example".to_string()));
}

#[test]
fn follows_include_files() {
    let global = r#"<Landscape version="1"><Services>
                 <Service uuid="g1" name="G" server="g.corp.example:3200" type="SAPGUI" systemid="G1"/>
               </Services></Landscape>"#;
    let local = r#"<Landscape version="1"><Services>
                     <Service uuid="l1" name="L" server="l.corp.example:3200" type="SAPGUI" systemid="L1"/>
                   </Services>
                   <Includes><Include url="file:///C:/sap/SAPUILandscapeGlobal.xml" index="0"/></Includes></Landscape>"#;
    let report = parse_files(
        &["C:\\sap\\SAPUILandscape.xml"],
        &[("C:\\sap\\SAPUILandscape.xml", local), ("C:\\sap\\SAPUILandscapeGlobal.xml", global)],
    );
    assert_eq!(report.files.len(), 2);
    assert_eq!(report.resolve("G1").len(), 1);
    assert_eq!(report.resolve("L1").len(), 1);
}

#[test]
fn missing_paths_are_ignored() {
    let report = parse_files(&["C:\\definitely\\not\\here.xml"], &[]);
    assert!(report.systems.is_empty());
    assert!(report.files.is_empty());
}

#[test]
fn systems_are_sorted_by_id_then_name() {
    let report = parse_files(&["SAPUILandscape.xml"], &[("SAPUILandscape.xml", SAMPLE)]);
    let keys: Vec<(String, String)> = report.systems.iter().map(|s| (s.system_id.clone(), s.name.clone())).collect();
    let mut sorted = keys.clone();
    sorted.sort();
    assert_eq!(keys, sorted);
    assert_eq!(report.systems[0].system_id, "");
    assert_eq!(report.duplicates.len(), 1);
    assert_eq!(duplicate_system_ids(&report.systems).len(), 1);
}

#[test]
fn a_malformed_attribute_fails_the_file_with_a_warning() {
    let broken = r#"<Landscape><Services><Service uuid=s1 systemid="X"/></Services></Landscape>"#;
    let report = parse_files(&["broken.xml"], &[("broken.xml", broken)]);
    assert!(report.systems.is_empty());
    assert_eq!(report.files, vec!["broken.xml".to_string()]);
    assert_eq!(report.warnings.len(), 1);
    assert!(report.warnings[0].starts_with("broken.xml 解析失败：XML 解析失败："), "{:?}", report.warnings);
}

#[test]
fn includes_are_not_followed_too_deep() {
    let looped = r#"<Landscape><Includes><Include url="file:///self.xml"/></Includes></Landscape>"#;
    let report = parse_files(&["self.xml"], &[("self.xml", looped)]);
    // The file includes itself: it is read once.
    assert_eq!(report.files.len(), 1);
    let mut c = LandscapeCollection::new();
    assert!(!c.begin("deep.xml", "deep.xml", 7));
    assert_eq!(c.warnings, vec!["包含层级过深，已跳过：deep.xml".to_string()]);
}

#[test]
fn include_urls_and_candidates() {
    assert_eq!(include_to_path("file:///C:/a%20b/x.xml", None, '\\'), Some("C:\\a b\\x.xml".to_string()));
    assert_eq!(include_to_path("  ", Some("C:\\sap"), '\\'), None);
    assert_eq!(include_to_path(" more.xml ", Some("C:\\sap"), '\\'), Some("C:\\sap\\more.xml".to_string()));
    assert_eq!(include_to_path("more.xml", Some("/etc/sap/"), '/'), Some("/etc/sap/more.xml".to_string()));
    assert_eq!(include_to_path("more.xml", None, '\\'), None);
    assert_eq!(landscape_candidates(&vec![" ".to_string()], vec!["d".to_string()]), vec!["d".to_string()]);
    assert_eq!(landscape_candidates(&vec![" a ".to_string(), "".to_string()], vec!["d".to_string()]), vec!["a".to_string()]);
}

#[test]
fn domain_suffixes_expand_left_to_right() {
    assert_eq!(
        domain_suffixes("de1saps331.euip.devcorp.net"),
        vec!["de1saps331.euip.devcorp.net", "euip.devcorp.net", "devcorp.net"]
    );
    assert_eq!(domain_suffixes("10.1.2.3"), vec!["10.1.2.3"]);
    assert_eq!(domain_suffixes("intranet"), vec!["intranet"]);
}

#[test]
fn server_placeholders_do_not_become_hosts() {
    assert_eq!(host_from_server("SPACE"), None);
    assert_eq!(host_from_server("sapmsP20"), None);
    assert_eq!(host_from_server(""), None);
    assert_eq!(host_from_server("prd.sap.corp.example:3200"), Some("prd.sap.corp.example".to_string()));
}

#[test]
fn router_and_url_hosts() {
    assert_eq!(host_from_router("/H/router.corp.example/S/3299"), Some("router.corp.example".to_string()));
    assert_eq!(host_from_router("/S/3299"), None);
    assert_eq!(host_from_url("https://fiori.corp.example:8443/sap/bc/ui2/flp"), Some("fiori.corp.example".to_string()));
    assert_eq!(host_from_url("http://user@nwbc.corp.example:8010/nwbc"), Some("nwbc.corp.example".to_string()));
    assert_eq!(host_from_url("https://[::1]:8443/x"), Some("::1".to_string()));
    assert_eq!(host_from_url("no scheme"), None);
}

#[test]
fn ip_addresses_are_recognised() {
    assert!(is_ip("10.20.30.40"));
    assert!(is_ip("fe80::1"));
    assert!(!is_ip("prd.sap.corp.example"));
    assert!(!is_ip("intranet"));
}

fn system(id: &str, sid: &str, hosts: &[&str], domains: &[&str]) -> SapSystem {
    SapSystem {
        service_id: id.to_string(),
        system_id: sid.to_string(),
        hosts: hosts.iter().map(|h| h.to_string()).collect(),
        domains: domains.iter().map(|h| h.to_string()).collect(),
        ..Default::default()
    }
}

#[test]
fn resolve_returns_every_connection_of_a_system_id() {
    let report = LandscapeReport {
        systems: vec![
            system("a", "PRD", &["prd.corp.example"], &["prd.corp.example", "corp.example"]),
            system("b", "PRD", &["10.20.30.40"], &["10.20.30.40"]),
            system("c", "DEV", &["dev.corp.example"], &["dev.corp.example", "corp.example"]),
        ],
        ..Default::default()
    };
    assert_eq!(report.resolve(" prd ").len(), 2);
    assert_eq!(report.resolve("").len(), 0);
    assert_eq!(
        report.hosts_for("PRD"),
        vec!["prd.corp.example", "corp.example", "10.20.30.40"]
    );
}
