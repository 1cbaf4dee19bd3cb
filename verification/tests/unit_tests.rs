use fix_ardour_lv2_index::args::{parse, Args, ArgsError, Input, Output};
use fix_ardour_lv2_index::decimal::{parse_u32, push_decimal};
use fix_ardour_lv2_index::diag::Diagnostic;
use fix_ardour_lv2_index::lv2::Plugin;
use fix_ardour_lv2_index::patch::{PortId, PortMap};
use fix_ardour_lv2_index::session::{ByteRange, Parameter, Processor};

fn decimal_of(v: u32) -> Vec<u8> {
    let mut out = Vec::new();
    push_decimal(v, &mut out);
    out
}

#[test]
fn strict_parse_accepts_digit_runs_only() {
    assert_eq!(parse_u32(b"0"), Some(0));
    assert_eq!(parse_u32(b"007"), Some(7));
    assert_eq!(parse_u32(b"4294967295"), Some(u32::MAX));
    assert_eq!(parse_u32(b"4294967296"), None);
    assert_eq!(parse_u32(b""), None);
    assert_eq!(parse_u32(b"12a"), None);
    assert_eq!(parse_u32(b"-1"), None);
    assert_eq!(parse_u32(b" 1"), None);
}

#[test]
fn decimal_rendering_is_minimal() {
    assert_eq!(decimal_of(0), b"0".to_vec());
    assert_eq!(decimal_of(7), b"7".to_vec());
    assert_eq!(decimal_of(40), b"40".to_vec());
    assert_eq!(decimal_of(u32::MAX), b"4294967295".to_vec());
}

#[test]
fn decimal_round_trip() {
    for v in [0u32, 1, 9, 10, 99, 100, 12345, u32::MAX] {
        assert_eq!(parse_u32(&decimal_of(v)), Some(v));
    }
}

#[test]
fn portmap_caches_and_assigns_distinct_fallbacks() {
    let plugin = Plugin::new(3);
    let mut ports = PortMap::new();
    let mut diags: Vec<Diagnostic> = Vec::new();
    let id = |symbol: &[u8]| PortId { uri: b"urn:x".to_vec(), symbol: symbol.to_vec() };
    let a1 = ports.index(&plugin, id(b"a"), &mut diags);
    let b1 = ports.index(&plugin, id(b"b"), &mut diags);
    let a2 = ports.index(&plugin, id(b"a"), &mut diags);
    assert_eq!(a1, 3);
    assert_eq!(b1, 4);
    assert_eq!(a2, a1);
    assert_eq!(diags.len(), 2);
    assert!(a1 >= plugin.num_ports() && b1 >= plugin.num_ports());
}

#[test]
fn portmap_prefers_provider_answer() {
    let mut plugin = Plugin::new(6);
    plugin.add_port(b"gain".to_vec(), 2);
    let mut ports = PortMap::new();
    let mut diags: Vec<Diagnostic> = Vec::new();
    let id = PortId { uri: b"urn:x".to_vec(), symbol: b"gain".to_vec() };
    assert_eq!(ports.index(&plugin, id, &mut diags), 2);
    assert!(diags.is_empty());
}

#[test]
fn processor_parameters_join_occurrences_with_symbols() {
    let processor = Processor {
        uri: b"urn:x".to_vec(),
        symbols: vec![(2, b"gain".to_vec())],
        parameters: vec![
            (2, ByteRange { start: 10, end: 11 }),
            (3, ByteRange { start: 20, end: 21 }),
            (2, ByteRange { start: 30, end: 31 }),
        ],
    };
    let params: Vec<Parameter> = processor.parameters();
    assert_eq!(params.len(), 2);
    assert_eq!(params[0].symbol, b"gain".to_vec());
    assert_eq!(params[0].old_index, 2);
    assert_eq!(params[0].location, ByteRange { start: 10, end: 11 });
    assert_eq!(params[1].location, ByteRange { start: 30, end: 31 });
    assert_eq!(processor.uri(), &b"urn:x".to_vec());
}

fn argv(args: &[&str]) -> Vec<Vec<u8>> {
    args.iter().map(|a| a.as_bytes().to_vec()).collect()
}

#[test]
fn args_plain_session_file_rewrites_in_place() {
    match parse(argv(&["session.ardour"])) {
        Ok(Args::Run(ra)) => {
            assert!(matches!(ra.input, Input::Path(p) if p == b"session.ardour"));
            assert!(matches!(ra.output, Output::InPlace));
        },
        _ => panic!("expected a run"),
    }
}

#[test]
fn args_stdin_defaults_to_stdout() {
    match parse(argv(&["-"])) {
        Ok(Args::Run(ra)) => {
            assert!(matches!(ra.input, Input::Stdin));
            assert!(matches!(ra.output, Output::Stdout));
        },
        _ => panic!("expected a run"),
    }
}

#[test]
fn args_output_option_detached_and_attached() {
    match parse(argv(&["-o", "out.ardour", "in.ardour"])) {
        Ok(Args::Run(ra)) => {
            assert!(matches!(ra.output, Output::Path(p) if p == b"out.ardour"));
        },
        _ => panic!("expected a run"),
    }
    match parse(argv(&["-oout.ardour", "in.ardour"])) {
        Ok(Args::Run(ra)) => {
            assert!(matches!(ra.output, Output::Path(p) if p == b"out.ardour"));
        },
        _ => panic!("expected a run"),
    }
    match parse(argv(&["-o-", "in.ardour"])) {
        Ok(Args::Run(ra)) => {
            assert!(matches!(ra.output, Output::Stdout));
        },
        _ => panic!("expected a run"),
    }
}

#[test]
fn args_help_takes_precedence() {
    assert!(matches!(parse(argv(&["--help"])), Ok(Args::Help)));
    assert!(matches!(parse(argv(&["-h"])), Ok(Args::Help)));
    assert!(matches!(parse(argv(&["-oh"])), Ok(Args::Help)) == false);
}

#[test]
fn args_errors() {
    assert!(matches!(parse(argv(&[])), Err(ArgsError::MissingArg)));
    assert!(matches!(parse(argv(&["a", "b"])), Err(ArgsError::UnexpectedArg(_))));
    assert!(matches!(parse(argv(&["--frob", "a"])), Err(ArgsError::BadOption(_))));
    assert!(matches!(parse(argv(&["-x", "a"])), Err(ArgsError::BadShortOption('x'))));
    assert!(matches!(parse(argv(&["a", "-o"])), Err(ArgsError::IncompleteOption(_))));
    assert!(matches!(
        parse(argv(&["-o", "x", "-o", "y", "a"])),
        Err(ArgsError::DuplicateOption(_))
    ));
}

#[test]
fn args_double_dash_ends_options() {
    match parse(argv(&["--", "-o"])) {
        Ok(Args::Run(ra)) => {
            assert!(matches!(ra.input, Input::Path(p) if p == b"-o"));
        },
        _ => panic!("expected a run"),
    }
}
