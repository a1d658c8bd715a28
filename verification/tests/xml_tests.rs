use newflasher::xml_parser::{
    boot_delivery_from_document, partition_delivery_from_document, DocumentError,
    platform_from_groups, BootConfiguration, attribute_value, boot_delivery_from_events, boot_platform_id, configuration_applies,
    is_bootloader_image, partition_delivery_from_events, pop_element, BootDeliveryParser,
    XmlAttribute, XmlError, XmlEvent,
};

fn attr(name: &str, value: &str) -> XmlAttribute {
    XmlAttribute { name: name.to_string(), value: value.to_string() }
}

fn start(name: &str, attributes: Vec<XmlAttribute>) -> XmlEvent {
    XmlEvent::StartElement { name: name.to_string(), attributes }
}

fn end(name: &str) -> XmlEvent {
    XmlEvent::EndElement { name: name.to_string() }
}

fn configuration(name: &str, platform: &str, hash: &str) -> Vec<XmlEvent> {
    let value = format!("PLATFORM_ID=\"{platform}\";PLF_ROOT_HASH=\"{hash}\"");
    vec![
        start("CONFIGURATION", vec![attr("NAME", name)]),
        start("ATTRIBUTES", vec![attr("VALUE", &value)]),
        end("ATTRIBUTES"),
        start("HWCONFIG", vec![attr("REVISION", "R1")]),
        end("HWCONFIG"),
        start("HWCONFIG", vec![attr("REVISION", "R2")]),
        end("HWCONFIG"),
        start("BOOT_CONFIG", vec![]),
        start("FILE", vec![attr("PATH", "boot/config.ta")]),
        end("FILE"),
        end("BOOT_CONFIG"),
        start("BOOT_IMAGES", vec![]),
        start("FILE", vec![attr("PATH", "xbl.sin")]),
        end("FILE"),
        XmlEvent::Other,
        start("FILE", vec![attr("PATH", "bootloader.sin")]),
        end("FILE"),
        end("BOOT_IMAGES"),
        end("CONFIGURATION"),
    ]
}

#[test]
fn boot_delivery_reads_configurations() {
    let mut events = vec![start("BOOT_DELIVERY", vec![attr("SPACE_ID", "S1"), attr("OTHER", "x")])];
    events.extend(configuration("first", "002270E1", &"AB".repeat(24)));
    events.extend(configuration("second", "002270E2", &"CD".repeat(16)));
    events.push(end("BOOT_DELIVERY"));
    let bd = boot_delivery_from_events(&events).unwrap().unwrap();
    assert_eq!(bd.space_id.as_deref(), Some("S1"));
    assert_eq!(bd.configurations.len(), 2);
    let c = &bd.configurations[0];
    assert_eq!(c.name, "first");
    assert_eq!(c.platform_id, "002270E1");
    assert_eq!(c.plf_root_hash, "AB".repeat(24));
    assert_eq!(c.hw_config_rev, "R1");
    assert_eq!(c.boot_config, "boot/config.ta");
    assert_eq!(c.boot_images, vec!["xbl.sin".to_string(), "bootloader.sin".to_string()]);
    assert_eq!(bd.configurations[1].plf_root_hash, "CD".repeat(16));
}

#[test]
fn boot_delivery_errors_and_aborts() {
    let events = vec![start("BOOT_DELIVERY", vec![]), end("OTHER")];
    assert!(matches!(boot_delivery_from_events(&events), Some(Err(XmlError::StackOutOfSync))));
    let events = vec![end("BOOT_DELIVERY")];
    assert!(matches!(boot_delivery_from_events(&events), Some(Err(XmlError::StackUnderflow))));
    // a configuration without its hardware revision cannot be built
    let events = vec![
        start("BOOT_DELIVERY", vec![]),
        start("CONFIGURATION", vec![attr("NAME", "n")]),
        end("CONFIGURATION"),
    ];
    assert!(boot_delivery_from_events(&events).is_none());
    let mut parser = BootDeliveryParser::new();
    assert_eq!(parser.feed(&events[0]), Ok(()));
    assert_eq!(parser.feed(&events[1]), Ok(()));
    assert!(parser.would_abort(&events[2]));
    let bd = parser.finish();
    assert!(bd.space_id.is_none());
    assert!(bd.configurations.is_empty());
}

#[test]
fn partition_delivery_lists_partition_images() {
    let events = vec![
        start("PARTITION_DELIVERY", vec![]),
        start("FILE", vec![attr("PATH", "outside.sin")]),
        end("FILE"),
        start("PARTITION_IMAGES", vec![]),
        start("FILE", vec![attr("PATH", "a.sin")]),
        end("FILE"),
        start("FILE", vec![]),
        end("FILE"),
        start("GROUP", vec![]),
        start("FILE", vec![attr("PATH", "b.sin")]),
        end("FILE"),
        end("GROUP"),
        end("PARTITION_IMAGES"),
        end("PARTITION_DELIVERY"),
    ];
    assert_eq!(
        partition_delivery_from_events(&events),
        Ok(vec!["a.sin".to_string(), "b.sin".to_string()])
    );
    assert_eq!(
        partition_delivery_from_events(&vec![end("X")]),
        Err(XmlError::StackUnderflow)
    );
}

#[test]
fn attribute_lookup_and_element_stack() {
    let attrs = vec![attr("PATH", "one"), attr("PATH", "two")];
    assert_eq!(attribute_value(&attrs, "PATH"), Some("one".to_string()));
    assert_eq!(attribute_value(&attrs, "NAME"), None);
    let mut stack = vec!["A".to_string(), "B".to_string()];
    assert_eq!(pop_element(&mut stack, "B"), Ok(()));
    assert_eq!(stack, vec!["A".to_string()]);
    assert_eq!(pop_element(&mut stack, "B"), Err(XmlError::StackOutOfSync));
    assert!(stack.is_empty());
    let mut other = vec!["A".to_string(), "B".to_string()];
    assert_eq!(pop_element(&mut other, "A"), Err(XmlError::StackOutOfSync));
    assert_eq!(other, vec!["A".to_string()]);
    let mut empty: Vec<String> = vec![];
    assert_eq!(pop_element(&mut empty, "B"), Err(XmlError::StackUnderflow));
    assert!(empty.is_empty());
}

#[test]
fn boot_configuration_selection() {
    assert_eq!(boot_platform_id("202270E1"), "002270E1");
    let events = configuration("c", "002270E1", &"AB".repeat(16));
    let mut all = vec![start("BOOT_DELIVERY", vec![])];
    all.extend(events);
    let bd = boot_delivery_from_events(&all).unwrap().unwrap();
    let bc = &bd.configurations[0];
    let hash = format!("00{}FF", "AB".repeat(16));
    assert!(configuration_applies(bc, "002270E1", &hash));
    assert!(!configuration_applies(bc, "002270E2", &hash));
    assert!(!configuration_applies(bc, "002270E1", "00"));
    assert!(is_bootloader_image("boot/bootloader_X.sin"));
    assert!(!is_bootloader_image("boot/xbl.sin"));
}

#[test]
fn platform_from_capture_groups() {
    let mut b = BootConfiguration::builder();
    let groups = vec![Some("all".to_string()), Some("002270E1".to_string()), Some("AB".to_string())];
    assert!(platform_from_groups(&groups, &mut b));
    assert_eq!(b.platform_id, "002270E1");
    assert_eq!(b.plf_root_hash, "AB");
    let mut b = BootConfiguration::builder();
    assert!(!platform_from_groups(&vec![Some("all".to_string()), None, Some("AB".to_string())], &mut b));
    assert_eq!(b.platform_id, "");
    assert!(!platform_from_groups(&vec![Some("all".to_string())], &mut b));
}

const BOOT_DOC: &str = r#"<?xml version="1.0"?>
<BOOT_DELIVERY SPACE_ID="S1">
  <!-- a comment -->
  <CONFIGURATION NAME="first">
    <ATTRIBUTES VALUE="PLATFORM_ID=&quot;002270E1&quot;;PLF_ROOT_HASH=&quot;ABABABABABABABABABABABABABABABAB&quot;"/>
    <HWCONFIG REVISION="R1"/>
    <BOOT_CONFIG><FILE PATH="boot/config.ta"/></BOOT_CONFIG>
    <BOOT_IMAGES><FILE PATH="xbl.sin"/><FILE PATH="bootloader.sin"/></BOOT_IMAGES>
  </CONFIGURATION>
</BOOT_DELIVERY>
"#;

#[test]
fn boot_delivery_read_from_a_document() {
    let bd = boot_delivery_from_document(BOOT_DOC.as_bytes()).unwrap().unwrap();
    assert_eq!(bd.space_id.as_deref(), Some("S1"));
    assert_eq!(bd.configurations.len(), 1);
    let c = &bd.configurations[0];
    assert_eq!(c.name, "first");
    assert_eq!(c.platform_id, "002270E1");
    assert_eq!(c.plf_root_hash, "AB".repeat(16));
    assert_eq!(c.hw_config_rev, "R1");
    assert_eq!(c.boot_config, "boot/config.ta");
    assert_eq!(c.boot_images, vec!["xbl.sin".to_string(), "bootloader.sin".to_string()]);
}

#[test]
fn delivery_documents_that_are_refused() {
    let broken = "<BOOT_DELIVERY><CONFIGURATION>";
    assert!(matches!(boot_delivery_from_document(broken.as_bytes()), Some(Err(DocumentError::Reader(_)))));
    let incomplete = "<BOOT_DELIVERY><CONFIGURATION NAME=\"n\"></CONFIGURATION></BOOT_DELIVERY>";
    assert!(boot_delivery_from_document(incomplete.as_bytes()).is_none());
    assert!(matches!(partition_delivery_from_document(b"<A></B>"), Err(DocumentError::Reader(_))));
}

#[test]
fn partition_delivery_read_from_a_document() {
    let doc = r#"<PARTITION_DELIVERY>
  <FILE PATH="outside.sin"/>
  <PARTITION_IMAGES>
    <FILE PATH="a.sin"/>
    <GROUP><FILE PATH="b.sin"/></GROUP>
  </PARTITION_IMAGES>
</PARTITION_DELIVERY>"#;
    let files = partition_delivery_from_document(doc.as_bytes()).unwrap();
    assert_eq!(files, vec!["a.sin".to_string(), "b.sin".to_string()]);
}
