use chordial::document::{format_project, parse_project, NodeEntry, Project, ResourceEntry};
use chordial::graph::OutputRef;

fn sample() -> Project {
    Project {
        resources: vec![
            ResourceEntry { id: 0, kind: b"MidiBlock".to_vec(), external: false, data: vec![1, 10, 13, 0, 255] },
            ResourceEntry { id: 3, kind: b"AudioData".to_vec(), external: true, data: b"\"a b.wav\"".to_vec() },
        ],
        nodes: vec![
            NodeEntry {
                id: 0,
                ctor: b"chordial.sink".to_vec(),
                inputs: vec![vec![OutputRef { node: 2, output: 0 }]],
                params: vec![],
                links: vec![],
                meta: vec![],
            },
            NodeEntry {
                id: 2,
                ctor: b"chordial.midi_clip".to_vec(),
                inputs: vec![],
                params: vec![b"f:440".to_vec(), b"s:two words".to_vec()],
                links: vec![(b"data".to_vec(), Some(0)), (b"other".to_vec(), None)],
                meta: vec![(b"name".to_vec(), b"s:Lead".to_vec())],
            },
        ],
    }
}

fn same(a: &Project, b: &Project) {
    assert_eq!(a.resources.len(), b.resources.len());
    for (x, y) in a.resources.iter().zip(&b.resources) {
        assert_eq!((x.id, &x.kind, x.external, &x.data), (y.id, &y.kind, y.external, &y.data));
    }
    assert_eq!(a.nodes.len(), b.nodes.len());
    for (x, y) in a.nodes.iter().zip(&b.nodes) {
        assert_eq!((x.id, &x.ctor, &x.inputs, &x.params), (y.id, &y.ctor, &y.inputs, &y.params));
        assert_eq!((&x.links, &x.meta), (&y.links, &y.meta));
    }
}

#[test]
fn project_file_round_trip() {
    let p = sample();
    assert!(p.writable());
    let text = format_project(&p);
    let back = parse_project(&text).unwrap();
    same(&p, &back);
}

#[test]
fn project_file_layout() {
    let mut p = sample();
    p.resources.truncate(1);
    p.resources[0].data = b"xy".to_vec();
    p.nodes.truncate(1);
    let text = format_project(&p);
    assert_eq!(text, b"res 0 MidiBlock internal 2\nxy\nnode 0 chordial.sink\nin 2.0\n\n".to_vec());
}

#[test]
fn project_file_tolerates_comments_and_crlf() {
    let text = b"; a project\r\nres 1 MidiBlock internal 3\r\nabc\r\n\r\nnode 0 chordial.sink\r\nin\r\nparam b:true\r\nr data 1\r\nmeta k s:v w\r\n\r\nnode 4 chordial.sine\nin 0.0 1.2\n";
    let p = parse_project(text).unwrap();
    assert_eq!(p.resources.len(), 1);
    assert_eq!(p.resources[0].data, b"abc".to_vec());
    assert_eq!(p.nodes.len(), 2);
    assert_eq!(p.nodes[0].inputs, vec![Vec::<OutputRef>::new()]);
    assert_eq!(p.nodes[0].params, vec![b"b:true".to_vec()]);
    assert_eq!(p.nodes[0].links, vec![(b"data".to_vec(), Some(1))]);
    assert_eq!(p.nodes[0].meta, vec![(b"k".to_vec(), b"s:v w".to_vec())]);
    assert_eq!(p.nodes[1].id, 4);
    assert_eq!(p.nodes[1].inputs, vec![vec![OutputRef { node: 0, output: 0 }, OutputRef { node: 1, output: 2 }]]);
}

#[test]
fn project_file_rejects_malformed() {
    // an element that is no resource or node
    assert!(parse_project(b"bogus 1\n").is_none());
    // an input line outside a node
    assert!(parse_project(b"in 1.0\n").is_none());
    // after a blank line the node is closed
    assert!(parse_project(b"node 0 x\n\nin\n").is_none());
    // a payload longer than the file
    assert!(parse_project(b"res 0 MidiBlock internal 9\nab").is_none());
    // an unknown storage word or a bad size
    assert!(parse_project(b"res 0 MidiBlock inline 2\nab\n").is_none());
    assert!(parse_project(b"res 0 MidiBlock internal x\n").is_none());
    assert!(parse_project(b"node 0 x\nin 1.a\n").is_none());
    assert!(parse_project(b"").unwrap().nodes.is_empty());
}

#[test]
fn unwritable_project_is_detected() {
    let mut p = sample();
    p.nodes[1].meta[0].0 = b"two words".to_vec();
    assert!(!p.writable());
    let mut q = sample();
    q.nodes[1].params[0] = b"f:1\n".to_vec();
    assert!(!q.writable());
    let mut r = sample();
    r.resources[0].kind = b"Midi Block".to_vec();
    assert!(!r.writable());
}
