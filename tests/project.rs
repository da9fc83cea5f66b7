use chordial::graph::OutputRef;
use chordial::project::{
    bytes_equal, contains_whitespace, format_in_line, format_meta_line, format_node_line, format_resource_link, parse_in_line,
    parse_meta_line, parse_node_header, parse_number, parse_output_ref, parse_param_line, parse_res_header,
    parse_resource_link, split_bytes, split_first_bytes, write_decimal, Storage,
};

fn r(node: usize, output: usize) -> OutputRef {
    OutputRef { node, output }
}

#[test]
fn numbers_read_and_write() {
    assert_eq!(parse_number(b"0"), Some(0));
    assert_eq!(parse_number(b"1234"), Some(1234));
    assert_eq!(parse_number(b""), None);
    assert_eq!(parse_number(b"12a"), None);
    assert_eq!(parse_number(b"-1"), None);
    assert_eq!(parse_number(b"18446744073709551615"), Some(usize::MAX));
    assert_eq!(parse_number(b"18446744073709551616"), None);
    let mut out = b"x".to_vec();
    write_decimal(0, &mut out);
    write_decimal(907, &mut out);
    assert_eq!(out, b"x0907".to_vec());
}

#[test]
fn split_keeps_empty_pieces() {
    let pieces = split_bytes(b"a  b ", b' ');
    assert_eq!(pieces, vec![b"a".to_vec(), vec![], b"b".to_vec(), vec![]]);
    assert_eq!(split_bytes(b"", b'.'), vec![Vec::<u8>::new()]);
}

#[test]
fn output_refs() {
    assert_eq!(parse_output_ref(b"3.0"), Some(r(3, 0)));
    assert_eq!(parse_output_ref(b"12.15"), Some(r(12, 15)));
    assert_eq!(parse_output_ref(b"3"), None);
    assert_eq!(parse_output_ref(b"3.0.1"), None);
    assert_eq!(parse_output_ref(b".1"), None);
}

#[test]
fn in_lines() {
    assert_eq!(parse_in_line(b"in"), Some(vec![]));
    assert_eq!(parse_in_line(b"in 1.0 2.3"), Some(vec![r(1, 0), r(2, 3)]));
    assert_eq!(parse_in_line(b"in 1.0  2.3"), None);
    assert_eq!(parse_in_line(b"in 1.0 "), None);
    assert_eq!(parse_in_line(b"inx"), None);
    assert_eq!(parse_in_line(b"param i:3"), None);
}

#[test]
fn in_line_round_trip() {
    assert_eq!(format_in_line(&vec![]), b"in".to_vec());
    let refs = vec![r(0, 0), r(17, 2), r(123456, 15)];
    let line = format_in_line(&refs);
    assert_eq!(line, b"in 0.0 17.2 123456.15".to_vec());
    assert_eq!(parse_in_line(&line), Some(refs));
}

#[test]
fn first_split_and_equality() {
    assert_eq!(split_first_bytes(b"a b c", b' '), Some((b"a".to_vec(), b"b c".to_vec())));
    assert_eq!(split_first_bytes(b"abc", b' '), None);
    assert_eq!(split_first_bytes(b" x", b' '), Some((vec![], b"x".to_vec())));
    assert!(bytes_equal(b"node", b"node"));
    assert!(!bytes_equal(b"node", b"nodes"));
}

#[test]
fn header_lines() {
    assert_eq!(parse_node_header(b"node 4 chordial.sine"), Some((4, b"chordial.sine".to_vec())));
    assert_eq!(parse_node_header(b"node x chordial.sine"), None);
    assert_eq!(parse_node_header(b"nodes 4 a"), None);
    assert_eq!(parse_node_header(b"node 4"), None);
    assert_eq!(parse_resource_link(b"r data"), Some((b"data".to_vec(), None)));
    assert_eq!(parse_resource_link(b"r data 7"), Some((b"data".to_vec(), Some(7))));
    assert_eq!(parse_resource_link(b"r data x"), None);
    assert_eq!(parse_param_line(b"param f:440"), Some(b"f:440".to_vec()));
    assert_eq!(parse_param_line(b"params f:440"), None);
    assert_eq!(parse_meta_line(b"meta name s:Lead Synth"), Some((b"name".to_vec(), b"s:Lead Synth".to_vec())));
    assert_eq!(parse_meta_line(b"meta name"), None);
}

#[test]
fn res_lines() {
    assert_eq!(
        parse_res_header(b"res 2 MidiBlock internal 36"),
        Some((2, b"MidiBlock".to_vec(), Storage::Internal(36)))
    );
    assert_eq!(
        parse_res_header(b"res 0 AudioData external \"a b.wav\""),
        Some((0, b"AudioData".to_vec(), Storage::External(b"\"a b.wav\"".to_vec())))
    );
    assert_eq!(parse_res_header(b"res 0 AudioData elsewhere x"), None);
    assert_eq!(parse_res_header(b"res 0 MidiBlock internal many"), None);
    assert_eq!(parse_res_header(b"res zero MidiBlock internal 3"), None);
}

#[test]
fn header_lines_round_trip() {
    let line = format_node_line(12, b"chordial.midi_clip");
    assert_eq!(line, b"node 12 chordial.midi_clip".to_vec());
    assert_eq!(parse_node_header(&line), Some((12, b"chordial.midi_clip".to_vec())));
    let r = format_resource_link(b"sample", Some(3));
    assert_eq!(r, b"r sample 3".to_vec());
    assert_eq!(parse_resource_link(&r), Some((b"sample".to_vec(), Some(3))));
    assert_eq!(parse_resource_link(&format_resource_link(b"data", None)), Some((b"data".to_vec(), None)));
    let m = format_meta_line(b"color", b"s:dark red");
    assert_eq!(parse_meta_line(&m), Some((b"color".to_vec(), b"s:dark red".to_vec())));
}

#[test]
fn whitespace_detection() {
    assert!(!contains_whitespace(b"MidiBlock"));
    assert!(contains_whitespace(b"Midi Block"));
    assert!(contains_whitespace(b"key\t"));
    assert!(contains_whitespace(b"\nkey"));
    assert!(!contains_whitespace(b""));
}
