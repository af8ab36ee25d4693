use astra_lite::indi::drivers::{DriverItem, Drivers, DriversError, XmlElement};
use astra_lite::indi::drivers_xml::{drivers_from_text, drivers_from_texts};

fn elem(name: &str, attrs: &[(&str, &str)], children: Vec<XmlElement>, text: Option<&str>) -> XmlElement {
    XmlElement {
        name: name.to_string(),
        attributes: attrs.iter().map(|(k, v)| (k.to_string(), v.to_string())).collect(),
        children,
        text: text.map(|t| t.to_string()),
    }
}

fn device(label: &str, manufacturer: Option<&str>, driver: &str) -> XmlElement {
    let mut attrs = vec![("label", label)];
    if let Some(m) = manufacturer {
        attrs.push(("manufacturer", m));
    }
    elem(
        "device",
        &attrs,
        vec![
            elem("driver", &[("name", "Caption")], vec![], Some(driver)),
            elem("version", &[], vec![], Some("1.0")),
        ],
        None,
    )
}

fn group(name: &str, devices: Vec<XmlElement>) -> XmlElement {
    elem("devGroup", &[("group", name)], devices, None)
}

#[test]
fn driver_item_from_xml() {
    let item = DriverItem::from_xml(&device("ZWO CCD", Some("ZWO"), "indi_asi_ccd")).unwrap();
    assert_eq!(item.device, "ZWO CCD");
    assert_eq!(item.manufacturer, "ZWO");
    assert_eq!(item.driver_caption, "Caption");
    assert_eq!(item.driver, "indi_asi_ccd");
    assert_eq!(item.version, "1.0");
    let item = DriverItem::from_xml(&device("Simulator", None, "indi_simulator_ccd")).unwrap();
    assert_eq!(item.manufacturer, "[Undefined]");
}

#[test]
fn driver_item_from_xml_errors() {
    let no_label = elem("device", &[], vec![], None);
    match DriverItem::from_xml(&no_label) {
        Err(e) => assert_eq!(e.to_string(), "`device` without `label` attribute"),
        Ok(_) => panic!("read without a label"),
    }
    let no_driver = elem("device", &[("label", "X")], vec![], None);
    assert!(matches!(DriverItem::from_xml(&no_driver), Err(DriversError::MissingChild(c)) if c == "driver"));
    let no_text = elem(
        "device",
        &[("label", "X")],
        vec![
            elem("driver", &[("name", "N")], vec![], Some("d")),
            elem("version", &[], vec![], None),
        ],
        None,
    );
    assert!(matches!(DriverItem::from_xml(&no_text), Err(DriversError::MissingText(c)) if c == "version"));
}

#[test]
fn drivers_merge_groups_and_sort() {
    let list = elem(
        "driversList",
        &[],
        vec![
            group("CCDs", vec![device("b cam", Some("Zeta"), "d1"), device("A cam", Some("alpha"), "d2")]),
            elem("comment", &[], vec![], None),
            group("Focusers", vec![device("Foc", None, "d3")]),
            group("CCDs", vec![device("a cam", Some("Alpha"), "d4")]),
        ],
        None,
    );
    let mut drivers = Drivers::new_empty();
    drivers.append_file_data(&list).unwrap();
    assert_eq!(drivers.groups.len(), 2);
    let ccds = drivers.get_group_by_name("CCDs").unwrap();
    assert_eq!(ccds.items.len(), 3);
    drivers.sort_group_items();
    let ccds = drivers.get_group_by_name("CCDs").unwrap();
    let names: Vec<&str> = ccds.items.iter().map(|i| i.driver.as_str()).collect();
    // by manufacturer, then device, letter case aside; the two alike keep their order
    assert_eq!(names, vec!["d2", "d4", "d1"]);
    assert_eq!(ccds.get_item_by_device_name("b cam").unwrap().driver, "d1");
    assert!(ccds.get_item_by_device_name("B cam").is_none());
    assert!(matches!(drivers.get_group_by_name("Mounts"), Err(DriversError::GroupNotFound(g)) if g == "Mounts"));
}

#[test]
fn drivers_sort_keeps_equal_ones_in_order() {
    let list = elem(
        "driversList",
        &[],
        vec![group("G", vec![device("Cam", Some("M"), "first"), device("cam", Some("m"), "second")])],
        None,
    );
    let mut drivers = Drivers::new_empty();
    drivers.append_file_data(&list).unwrap();
    drivers.sort_group_items();
    let names: Vec<&str> = drivers.groups[0].items.iter().map(|i| i.driver.as_str()).collect();
    assert_eq!(names, vec!["first", "second"]);
}

#[test]
fn drivers_stop_at_a_group_without_name() {
    let list = elem(
        "driversList",
        &[],
        vec![group("CCDs", vec![device("Cam", None, "d1")]), elem("devGroup", &[], vec![], None), group("Other", vec![])],
        None,
    );
    let mut drivers = Drivers::new_empty();
    let res = drivers.append_file_data(&list);
    assert!(matches!(res, Err(DriversError::MissingAttribute(e, a)) if e == "devGroup" && a == "group"));
    assert_eq!(drivers.groups.len(), 1);
}

const CCD_LIST: &str = r#"<?xml version="1.0" encoding="UTF-8"?>
<driversList>
  <!-- cameras -->
  <devGroup group="CCDs">
    <device label="b cam" manufacturer="Zeta">
      <driver name="Zeta driver">indi_b</driver>
      <version>1.2</version>
    </device>
    <device label="A cam" manufacturer="alpha">
      <driver name="Alpha driver">indi_<![CDATA[a]]></driver>
      <version>2.0</version>
    </device>
  </devGroup>
</driversList>
"#;

#[test]
fn drivers_read_from_xml_text() {
    let drivers = drivers_from_text(CCD_LIST.as_bytes()).unwrap().unwrap();
    assert_eq!(drivers.groups.len(), 1);
    let ccds = drivers.get_group_by_name("CCDs").unwrap();
    let names: Vec<&str> = ccds.items.iter().map(|i| i.driver.as_str()).collect();
    assert_eq!(names, vec!["indi_a", "indi_b"]);
    assert_eq!(ccds.items[0].driver_caption, "Alpha driver");
    assert_eq!(ccds.items[1].version, "1.2");
    assert!(drivers_from_text(b"<driversList><devGroup>").is_none());
    let no_name = "<driversList><devGroup><device label=\"x\"/></devGroup></driversList>";
    assert!(matches!(drivers_from_text(no_name.as_bytes()), Some(Err(DriversError::MissingAttribute(e, a))) if e == "devGroup" && a == "group"));
}

#[test]
fn drivers_read_from_xml_files_skip_other_documents() {
    let other = b"<skeletons><devGroup group=\"Mounts\"/></skeletons>".to_vec();
    let broken = b"not xml at all".to_vec();
    let focusers = br#"<driversList><devGroup group="Focusers"><device label="Foc"><driver name="F">indi_f</driver><version>1</version></device></devGroup></driversList>"#.to_vec();
    let texts = vec![CCD_LIST.as_bytes().to_vec(), other, broken, focusers];
    let drivers = drivers_from_texts(&texts).unwrap();
    let names: Vec<&str> = drivers.groups.iter().map(|g| g.name.as_str()).collect();
    assert_eq!(names, vec!["CCDs", "Focusers"]);
    assert_eq!(drivers.get_group_by_name("Focusers").unwrap().items[0].driver, "indi_f");
    let bad = b"<driversList><devGroup/></driversList>".to_vec();
    assert!(matches!(drivers_from_texts(&[bad]), Err(DriversError::MissingAttribute(..))));
    assert_eq!(drivers_from_texts(&[]).unwrap().groups.len(), 0);
}
