use fix_ardour_lv2_index::diag::Diagnostic;
use fix_ardour_lv2_index::lv2::{Plugin, Plugins};
use fix_ardour_lv2_index::patch::{patch, Patcher, PatchedSession, PortId, PortMap, Replacement};
use fix_ardour_lv2_index::session::{ByteRange, Processor};

fn one_plugin(uri: &[u8], num_ports: u32, ports: &[(&[u8], u32)]) -> Plugins {
    let mut plugin = Plugin::new(num_ports);
    for (symbol, index) in ports {
        plugin.add_port(symbol.to_vec(), *index);
    }
    let mut plugins = Plugins::new();
    plugins.add(uri.to_vec(), plugin);
    plugins
}

fn run(xml: &str, plugins: &Plugins) -> (Vec<u8>, Vec<Diagnostic>) {
    let mut diags = Vec::new();
    let session = patch(xml, plugins, &mut diags).expect("well-formed xml");
    let out = session.render(&mut diags);
    (out, diags)
}

const SESSION: &str = "<Session>\n  <Route>\n    <Processor type=\"lv2\" unique-id=\"urn:x\">\n      <AutomationList automation-id=\"parameter-2\"/>\n      <Controllable parameter=\"2\" symbol=\"gain\"/>\n    </Processor>\n  </Route>\n</Session>\n";

#[test]
fn resolved_symbol_rewrites_both_occurrences() {
    let plugins = one_plugin(b"urn:x", 12, &[(b"gain", 5)]);
    let (out, diags) = run(SESSION, &plugins);
    let expected = SESSION.replace("parameter-2", "parameter-5").replace(
        "parameter=\"2\"",
        "parameter=\"5\"",
    );
    assert_eq!(String::from_utf8(out).unwrap(), expected);
    assert!(diags.is_empty());
}

#[test]
fn unknown_plugin_leaves_text_untouched_with_diagnostic() {
    let plugins = Plugins::new();
    let (out, diags) = run(SESSION, &plugins);
    assert_eq!(out, SESSION.as_bytes());
    assert_eq!(diags.len(), 1);
    assert!(matches!(&diags[0], Diagnostic::PluginNotFound { uri } if uri == b"urn:x"));
}

#[test]
fn unresolved_symbol_gets_fallback_index() {
    let plugins = one_plugin(b"urn:x", 8, &[]);
    let (out, diags) = run(SESSION, &plugins);
    let expected = SESSION.replace("parameter-2", "parameter-8").replace(
        "parameter=\"2\"",
        "parameter=\"8\"",
    );
    assert_eq!(String::from_utf8(out).unwrap(), expected);
    assert!(diags.iter().any(
        |d| matches!(d, Diagnostic::PortNotFound { uri, symbol } if uri == b"urn:x" && symbol == b"gain"),
    ));
}

#[test]
fn document_without_references_is_unchanged() {
    let xml = "<Session>\n  <Route>\n    <IO name=\"a\"/>\n  </Route>\n</Session>\n";
    let plugins = one_plugin(b"urn:x", 4, &[(b"gain", 1)]);
    let (out, diags) = run(xml, &plugins);
    assert_eq!(out, xml.as_bytes());
    assert!(diags.is_empty());
}

#[test]
fn correct_document_is_unchanged() {
    let plugins = one_plugin(b"urn:x", 12, &[(b"gain", 2)]);
    let (out, diags) = run(SESSION, &plugins);
    assert_eq!(out, SESSION.as_bytes());
    assert!(diags.is_empty());
}

#[test]
fn second_run_makes_no_further_edits() {
    let plugins = one_plugin(b"urn:x", 12, &[(b"gain", 7)]);
    let (once, _) = run(SESSION, &plugins);
    let once_text = String::from_utf8(once).unwrap();
    let (twice, diags) = run(&once_text, &plugins);
    assert_eq!(twice, once_text.as_bytes());
    assert!(diags.is_empty());
}

#[test]
fn second_run_after_fallback_makes_no_further_edits() {
    let plugins = one_plugin(b"urn:x", 8, &[]);
    let (once, _) = run(SESSION, &plugins);
    let once_text = String::from_utf8(once).unwrap();
    let (twice, _) = run(&once_text, &plugins);
    assert_eq!(twice, once_text.as_bytes());
}

#[test]
fn non_digit_index_is_left_untouched() {
    let xml = "<Session>\n  <Processor type=\"lv2\" unique-id=\"urn:x\">\n    <AutomationList automation-id=\"parameter-2x\"/>\n    <Controllable parameter=\"2a\" symbol=\"gain\"/>\n  </Processor>\n</Session>\n";
    let plugins = one_plugin(b"urn:x", 12, &[(b"gain", 5)]);
    let (out, diags) = run(xml, &plugins);
    assert_eq!(out, xml.as_bytes());
    assert_eq!(
        diags.iter().filter(|d| matches!(d, Diagnostic::BadIndex { .. })).count(),
        2,
    );
}

#[test]
fn distinct_unresolved_symbols_get_distinct_fallbacks() {
    let xml = "<Session>\n  <Processor type=\"lv2\" unique-id=\"urn:x\">\n    <Controllable parameter=\"0\" symbol=\"alpha\"/>\n    <Controllable parameter=\"1\" symbol=\"beta\"/>\n  </Processor>\n</Session>\n";
    let plugins = one_plugin(b"urn:x", 3, &[]);
    let (out, _) = run(xml, &plugins);
    let text = String::from_utf8(out).unwrap();
    assert!(text.contains("parameter=\"3\" symbol=\"alpha\""));
    assert!(text.contains("parameter=\"4\" symbol=\"beta\""));
}

#[test]
fn same_symbol_in_two_elements_resolves_identically() {
    let xml = "<Session>\n  <Processor type=\"lv2\" unique-id=\"urn:x\">\n    <Controllable parameter=\"0\" symbol=\"gain\"/>\n  </Processor>\n  <Processor type=\"lv2\" unique-id=\"urn:x\">\n    <Controllable parameter=\"1\" symbol=\"gain\"/>\n  </Processor>\n</Session>\n";
    // "gain" is unresolvable: both elements must get the same fallback
    let plugins = one_plugin(b"urn:x", 6, &[]);
    let (out, _) = run(xml, &plugins);
    let text = String::from_utf8(out).unwrap();
    assert_eq!(text.matches("parameter=\"6\" symbol=\"gain\"").count(), 2);
}

#[test]
fn missing_identity_attribute_skips_element() {
    let xml = "<Session>\n  <Processor type=\"lv2\">\n    <Controllable parameter=\"2\" symbol=\"gain\"/>\n  </Processor>\n</Session>\n";
    let plugins = one_plugin(b"urn:x", 12, &[(b"gain", 5)]);
    let (out, diags) = run(xml, &plugins);
    assert_eq!(out, xml.as_bytes());
    assert!(matches!(&diags[0], Diagnostic::MissingUri { .. }));
}

#[test]
fn missing_symbol_skips_occurrence() {
    let xml = "<Session>\n  <Processor type=\"lv2\" unique-id=\"urn:x\">\n    <Controllable parameter=\"2\"/>\n  </Processor>\n</Session>\n";
    let plugins = one_plugin(b"urn:x", 12, &[(b"gain", 5)]);
    let (out, diags) = run(xml, &plugins);
    assert_eq!(out, xml.as_bytes());
    assert!(matches!(&diags[0], Diagnostic::MissingSymbol { .. }));
}

#[test]
fn occurrence_without_symbol_association_is_untouched() {
    // an index-holder occurrence whose index never gains a symbol
    let xml = "<Session>\n  <Processor type=\"lv2\" unique-id=\"urn:x\">\n    <AutomationList automation-id=\"parameter-9\"/>\n  </Processor>\n</Session>\n";
    let plugins = one_plugin(b"urn:x", 12, &[(b"gain", 5)]);
    let (out, diags) = run(xml, &plugins);
    assert_eq!(out, xml.as_bytes());
    assert!(diags.is_empty());
}

#[test]
fn non_lv2_processor_is_ignored() {
    let xml = "<Session>\n  <Processor type=\"other\" unique-id=\"urn:x\">\n    <Controllable parameter=\"2\" symbol=\"gain\"/>\n  </Processor>\n</Session>\n";
    let plugins = one_plugin(b"urn:x", 12, &[(b"gain", 5)]);
    let (out, diags) = run(xml, &plugins);
    assert_eq!(out, xml.as_bytes());
    assert!(diags.is_empty());
}

#[test]
fn nested_reference_elements_are_not_discovered() {
    // the outer walk does not descend into a matched reference element
    let xml = "<Session>\n  <Processor type=\"lv2\" unique-id=\"urn:x\">\n    <Processor type=\"lv2\" unique-id=\"urn:y\">\n      <Controllable parameter=\"2\" symbol=\"gain\"/>\n    </Processor>\n  </Processor>\n</Session>\n";
    let mut plugins = one_plugin(b"urn:x", 12, &[(b"gain", 5)]);
    let mut inner = Plugin::new(12);
    inner.add_port(b"gain".to_vec(), 7);
    plugins.add(b"urn:y".to_vec(), inner);
    let (out, _) = run(xml, &plugins);
    // the occurrence belongs to the outer element's block-local walk
    let text = String::from_utf8(out).unwrap();
    assert!(text.contains("parameter=\"5\" symbol=\"gain\""));
}

#[test]
fn malformed_xml_is_a_fatal_error() {
    let plugins = Plugins::new();
    let mut diags = Vec::new();
    assert!(patch("<unclosed", &plugins, &mut diags).is_err());
    assert!(diags.is_empty());
}

#[test]
fn renderer_drops_out_of_order_edit_with_diagnostic() {
    let session = PatchedSession {
        xml: b"aa11bb22cc".to_vec(),
        replacements: vec![
            Replacement { location: ByteRange { start: 2, end: 4 }, value: 9 },
            Replacement { location: ByteRange { start: 3, end: 8 }, value: 7 },
        ],
    };
    let mut diags = Vec::new();
    let out = session.render(&mut diags);
    assert_eq!(out, b"aa9bb22cc".to_vec());
    assert_eq!(diags.len(), 1);
    assert!(matches!(&diags[0], Diagnostic::OverlappingEdit { start: 3, end: 8, value: 7 }));
}

#[test]
fn renderer_drops_out_of_bounds_edit() {
    let session = PatchedSession {
        xml: b"abc".to_vec(),
        replacements: vec![Replacement { location: ByteRange { start: 1, end: 9 }, value: 5 }],
    };
    let mut diags = Vec::new();
    let out = session.render(&mut diags);
    assert_eq!(out, b"abc".to_vec());
    assert_eq!(diags.len(), 1);
}

#[test]
fn embedded_nul_uri_is_reported_and_skipped() {
    let mut diags: Vec<Diagnostic> = Vec::new();
    let mut patcher = Patcher::new();
    let plugins = one_plugin(b"urn:x", 4, &[(b"gain", 1)]);
    let processor = Processor {
        uri: b"urn\0x".to_vec(),
        symbols: vec![(2, b"gain".to_vec())],
        parameters: vec![(2, ByteRange { start: 10, end: 11 })],
    };
    patcher.handle_processor(&plugins, &processor, &mut diags);
    assert_eq!(diags.len(), 2);
    assert!(matches!(&diags[0], Diagnostic::EmbeddedNul { text } if text == b"urn\0x"));
    assert!(matches!(&diags[1], Diagnostic::PluginNotFound { uri } if uri == b"urn\0x"));
    assert!(patcher.replacements.is_empty());
}

#[test]
fn embedded_nul_symbol_is_reported_before_fallback() {
    let mut diags: Vec<Diagnostic> = Vec::new();
    let plugin = Plugin::new(4);
    let mut ports = PortMap::new();
    let id = PortId { uri: b"urn:x".to_vec(), symbol: b"ga\0in".to_vec() };
    assert_eq!(ports.index(&plugin, id, &mut diags), 4);
    assert_eq!(diags.len(), 2);
    assert!(matches!(&diags[0], Diagnostic::EmbeddedNul { text } if text == b"ga\0in"));
    assert!(matches!(&diags[1], Diagnostic::PortNotFound { .. }));
}

#[test]
fn provider_rejects_embedded_nul() {
    let plugins = one_plugin(b"urn:x", 4, &[(b"gain", 1)]);
    assert!(plugins.get(b"urn\0x").is_none());
    let plugin = plugins.get(b"urn:x").unwrap();
    assert_eq!(plugin.port_index(b"ga\0in"), None);
    assert_eq!(plugin.port_index(b"gain"), Some(1));
    assert_eq!(plugin.num_ports(), 4);
}
