use vstd::prelude::*;

use crate::graph::OutputRef;
use crate::project::{
    bytes_equal, copy_range, external_word, in_line_refs, internal_word, keyword_rest, meta_line,
    node_header, number_of, param_line, parse_in_line, parse_meta_line, parse_node_header,
    parse_number, parse_param_line, parse_resource_link, res_header, resource_link,
    split_first_bytes, SPACE, decimal, node_line, resource_link_line, meta_text, in_line, no_space,
    joined_tokens, ref_token, in_keyword, DOT, lemma_decimal_digits, is_digit, lemma_split_first_concat,
    lemma_split_first_none, lemma_in_line_round_trip, lemma_node_line_round_trip,
    lemma_resource_link_round_trip, lemma_meta_line_round_trip, split_first, push_all,
    write_decimal, format_in_line, format_node_line, format_resource_link, format_meta_line,
};

verus! {

/// Line feed, which ends every line of a project file.
pub const NEWLINE: u8 = 0x0A;

/// Carriage return, tolerated before a line feed.
pub const RETURN: u8 = 0x0D;

/// Semicolon, which starts a comment line.
pub const SEMICOLON: u8 = 0x3B;

/// A resource of a project file, as data.
pub struct ResourceView {
    pub id: usize,
    pub kind: Seq<u8>,
    pub external: bool,
    /// The payload of an internal resource, or the (quoted) path of an
    /// external one.
    pub data: Seq<u8>,
}

/// A node of a project file, as data.
pub struct NodeView {
    pub id: usize,
    pub ctor: Seq<u8>,
    pub inputs: Seq<Seq<OutputRef>>,
    pub params: Seq<Seq<u8>>,
    pub links: Seq<(Seq<u8>, Option<usize>)>,
    pub meta: Seq<(Seq<u8>, Seq<u8>)>,
}

/// A project file's contents, as data.
pub struct ProjectView {
    pub resources: Seq<ResourceView>,
    pub nodes: Seq<NodeView>,
}

/// Index of the line feed that ends the line starting at `pos`, or the end
/// of the text when the last line has none.
pub open spec fn line_end(text: Seq<u8>, pos: int) -> int
    decreases text.len() - pos,
{
    if pos < 0 || pos >= text.len() {
        text.len() as int
    } else if text[pos] == NEWLINE {
        pos
    } else {
        line_end(text, pos + 1)
    }
}

/// A line without a trailing carriage return.
pub open spec fn strip_return(line: Seq<u8>) -> Seq<u8> {
    if line.len() > 0 && line.last() == RETURN {
        line.drop_last()
    } else {
        line
    }
}

/// Where the line after the one at `pos` starts.
pub open spec fn next_line(text: Seq<u8>, pos: int) -> int {
    let e = line_end(text, pos);
    if e < text.len() {
        e + 1
    } else {
        text.len() as int
    }
}

pub open spec fn empty_project() -> ProjectView {
    ProjectView { resources: Seq::empty(), nodes: Seq::empty() }
}

pub open spec fn with_resource(p: ProjectView, r: ResourceView) -> ProjectView {
    ProjectView { resources: p.resources.push(r), ..p }
}

pub open spec fn with_node(p: ProjectView, id: usize, ctor: Seq<u8>) -> ProjectView {
    ProjectView {
        nodes: p.nodes.push(
            NodeView {
                id,
                ctor,
                inputs: Seq::empty(),
                params: Seq::empty(),
                links: Seq::empty(),
                meta: Seq::empty(),
            },
        ),
        ..p
    }
}

/// `p` with its last node replaced.
pub open spec fn with_last(p: ProjectView, n: NodeView) -> ProjectView {
    ProjectView { nodes: p.nodes.update(p.nodes.len() - 1, n), ..p }
}

/// What one line that is not a resource header does to the project read so
/// far. `open` says whether the last node still takes `in`, `param`, `r`
/// and `meta` lines; a blank or comment line ends it, a `node` line starts
/// one. The result is the new project and whether a node is open.
pub open spec fn step_line(line: Seq<u8>, p: ProjectView, open: bool) -> Option<(ProjectView, bool)> {
    let n = p.nodes.last();
    let in_node = open && p.nodes.len() > 0;
    if line.len() == 0 || line[0] == SEMICOLON {
        Some((p, false))
    } else if in_node && in_line_refs(line).is_some() {
        Some((with_last(p, NodeView { inputs: n.inputs.push(in_line_refs(line).unwrap()), ..n }), true))
    } else if in_node && param_line(line).is_some() {
        Some((with_last(p, NodeView { params: n.params.push(param_line(line).unwrap()), ..n }), true))
    } else if in_node && resource_link(line).is_some() {
        Some((with_last(p, NodeView { links: n.links.push(resource_link(line).unwrap()), ..n }), true))
    } else if in_node && meta_line(line).is_some() {
        Some((with_last(p, NodeView { meta: n.meta.push(meta_line(line).unwrap()), ..n }), true))
    } else {
        match node_header(line) {
            Some((id, ctor)) => Some((with_node(p, id, ctor), true)),
            None => None,
        }
    }
}

/// Reads the project file from `pos` on, after `p` was read before it.
/// A `res … internal <n>` line is followed by exactly `n` bytes of payload.
pub open spec fn parse_from(text: Seq<u8>, pos: int, p: ProjectView, open: bool) -> Option<ProjectView>
    decreases text.len() - pos,
{
    if pos < 0 || pos >= text.len() {
        if pos == text.len() {
            Some(p)
        } else {
            None
        }
    } else {
        let line = strip_return(text.subrange(pos, line_end(text, pos)));
        let np = next_line(text, pos);
        if np <= pos {
            None
        } else {
            match res_header(line) {
                Some((id, kind, true, rest)) => match number_of(rest) {
                    Some(n) => if np + n <= text.len() {
                        parse_from(
                            text,
                            np + n,
                            with_resource(
                                p,
                                ResourceView { id, kind, external: false, data: text.subrange(np, np + n) },
                            ),
                            false,
                        )
                    } else {
                        None
                    },
                    None => None,
                },
                Some((id, kind, false, rest)) => parse_from(
                    text,
                    np,
                    with_resource(p, ResourceView { id, kind, external: true, data: rest }),
                    false,
                ),
                None => match step_line(line, p, open) {
                    Some((q, o)) => parse_from(text, np, q, o),
                    None => None,
                },
            }
        }
    }
}

/// The contents of a project file, if it is well formed.
pub open spec fn project_of(text: Seq<u8>) -> Option<ProjectView> {
    parse_from(text, 0, empty_project(), false)
}

/// A resource entry of a project.
pub struct ResourceEntry {
    pub id: usize,
    pub kind: Vec<u8>,
    pub external: bool,
    pub data: Vec<u8>,
}

/// A node entry of a project.
pub struct NodeEntry {
    pub id: usize,
    pub ctor: Vec<u8>,
    pub inputs: Vec<Vec<OutputRef>>,
    pub params: Vec<Vec<u8>>,
    pub links: Vec<(Vec<u8>, Option<usize>)>,
    pub meta: Vec<(Vec<u8>, Vec<u8>)>,
}

/// The resources and nodes a project file lists, in file order.
pub struct Project {
    pub resources: Vec<ResourceEntry>,
    pub nodes: Vec<NodeEntry>,
}

impl ResourceEntry {
    pub open spec fn view(&self) -> ResourceView {
        ResourceView { id: self.id, kind: self.kind@, external: self.external, data: self.data@ }
    }
}

impl NodeEntry {
    pub open spec fn view(&self) -> NodeView {
        NodeView {
            id: self.id,
            ctor: self.ctor@,
            inputs: self.inputs@.map_values(|v: Vec<OutputRef>| v@),
            params: self.params@.map_values(|v: Vec<u8>| v@),
            links: self.links@.map_values(|l: (Vec<u8>, Option<usize>)| (l.0@, l.1)),
            meta: self.meta@.map_values(|m: (Vec<u8>, Vec<u8>)| (m.0@, m.1@)),
        }
    }
}

impl Project {
    pub open spec fn view(&self) -> ProjectView {
        ProjectView {
            resources: self.resources@.map_values(|r: ResourceEntry| r.view()),
            nodes: self.nodes@.map_values(|n: NodeEntry| n.view()),
        }
    }
}

/// Reads the fields of a `res` line, leaving the size of an internal
/// resource unread.
fn read_res_header(line: &[u8]) -> (r: Option<(usize, Vec<u8>, bool, Vec<u8>)>)
    ensures
        match r {
            Some((id, kind, internal, rest)) => res_header(line@) == Some((id, kind@, internal, rest@)),
            None => res_header(line@).is_none(),
        },
{
    let (word, r1) = split_first_bytes(line, SPACE)?;
    if !bytes_equal(word.as_slice(), vec![0x72u8, 0x65u8, 0x73u8].as_slice()) {
        return None;
    }
    let (id, r2) = split_first_bytes(r1.as_slice(), SPACE)?;
    let (kind, r3) = split_first_bytes(r2.as_slice(), SPACE)?;
    let (storage, rest) = split_first_bytes(r3.as_slice(), SPACE)?;
    let n = parse_number(id.as_slice())?;
    let iw = vec![0x69u8, 0x6Eu8, 0x74u8, 0x65u8, 0x72u8, 0x6Eu8, 0x61u8, 0x6Cu8];
    let ew = vec![0x65u8, 0x78u8, 0x74u8, 0x65u8, 0x72u8, 0x6Eu8, 0x61u8, 0x6Cu8];
    proof {
        assert(iw@ =~= internal_word());
        assert(ew@ =~= external_word());
    }
    if bytes_equal(storage.as_slice(), iw.as_slice()) {
        Some((n, kind, true, rest))
    } else if bytes_equal(storage.as_slice(), ew.as_slice()) {
        Some((n, kind, false, rest))
    } else {
        None
    }
}

/// Applies one line that is not a resource header; see `step_line`.
fn apply_line(line: &Vec<u8>, p: &mut Project, open: bool) -> (r: Option<bool>)
    ensures
        match r {
            Some(o) => step_line(line@, old(p).view(), open) == Some((final(p).view(), o)),
            None => step_line(line@, old(p).view(), open).is_none(),
        },
{
    let ghost pv = p.view();
    if line.len() == 0 || line[0] == SEMICOLON {
        return Some(false);
    }
    let in_node = open && p.nodes.len() > 0;
    if in_node {
        let refs = parse_in_line(line.as_slice());
        let param = parse_param_line(line.as_slice());
        let link = parse_resource_link(line.as_slice());
        let meta = parse_meta_line(line.as_slice());
        if refs.is_some() || param.is_some() || link.is_some() || meta.is_some() {
            let mut node = p.nodes.pop().unwrap();
            let ghost nv = node.view();
            proof {
                assert(pv.nodes.last() == nv);
            }
            match refs {
                Some(v) => {
                    node.inputs.push(v);
                    proof {
                        assert(node.view().inputs =~= nv.inputs.push(in_line_refs(line@).unwrap()));
                        assert(node.view() =~= NodeView { inputs: nv.inputs.push(in_line_refs(line@).unwrap()), ..nv });
                    }
                },
                None => match param {
                    Some(v) => {
                        node.params.push(v);
                        proof {
                            assert(node.view().params =~= nv.params.push(param_line(line@).unwrap()));
                            assert(node.view() =~= NodeView { params: nv.params.push(param_line(line@).unwrap()), ..nv });
                        }
                    },
                    None => match link {
                        Some(v) => {
                            node.links.push(v);
                            proof {
                                assert(node.view().links =~= nv.links.push(resource_link(line@).unwrap()));
                                assert(node.view() =~= NodeView { links: nv.links.push(resource_link(line@).unwrap()), ..nv });
                            }
                        },
                        None => {
                            let v = meta.unwrap();
                            node.meta.push(v);
                            proof {
                                assert(node.view().meta =~= nv.meta.push(meta_line(line@).unwrap()));
                                assert(node.view() =~= NodeView { meta: nv.meta.push(meta_line(line@).unwrap()), ..nv });
                            }
                        },
                    },
                },
            }
            let ghost nn = node.view();
            p.nodes.push(node);
            proof {
                assert(p.view().nodes =~= pv.nodes.update(pv.nodes.len() - 1, nn));
                assert(p.view() =~= with_last(pv, nn));
            }
            return Some(true);
        }
    }
    match parse_node_header(line.as_slice()) {
        Some((id, ctor)) => {
            p.nodes.push(
                NodeEntry {
                    id,
                    ctor,
                    inputs: Vec::new(),
                    params: Vec::new(),
                    links: Vec::new(),
                    meta: Vec::new(),
                },
            );
            proof {
                let e = p.nodes@.last();
                assert(e.view().inputs =~= Seq::<Seq<OutputRef>>::empty());
                assert(e.view().params =~= Seq::<Seq<u8>>::empty());
                assert(e.view().links =~= Seq::<(Seq<u8>, Option<usize>)>::empty());
                assert(e.view().meta =~= Seq::<(Seq<u8>, Seq<u8>)>::empty());
                assert(p.view().nodes =~= with_node(pv, id, node_header(line@).unwrap().1).nodes);
                assert(p.view() =~= with_node(pv, id, node_header(line@).unwrap().1));
            }
            Some(true)
        },
        None => None,
    }
}

/// Reads a whole project file.
pub fn parse_project(text: &[u8]) -> (r: Option<Project>)
    ensures
        match r {
            Some(p) => project_of(text@) == Some(p.view()),
            None => project_of(text@).is_none(),
        },
{
    let mut p = Project { resources: Vec::new(), nodes: Vec::new() };
    proof {
        assert(p.view().resources =~= empty_project().resources);
        assert(p.view().nodes =~= empty_project().nodes);
    }
    let mut open = false;
    let n = text.len();
    let mut pos: usize = 0;
    while pos < n
        invariant
            n == text@.len(),
            pos <= n,
            project_of(text@) == parse_from(text@, pos as int, p.view(), open),
        decreases n - pos,
    {
        let mut e = pos;
        while e < n && text[e] != NEWLINE
            invariant
                n == text@.len(),
                pos <= e <= n,
                line_end(text@, pos as int) == line_end(text@, e as int),
            decreases n - e,
        {
            e += 1;
        }
        let mut line = copy_range(text, pos, e);
        if line.len() > 0 && line[line.len() - 1] == RETURN {
            line.pop();
        }
        let np = if e < n {
            e + 1
        } else {
            n
        };
        let ghost pv = p.view();
        proof {
            assert(line_end(text@, pos as int) == e);
            assert(line@ == strip_return(text@.subrange(pos as int, e as int)));
            assert(next_line(text@, pos as int) == np);
        }
        match read_res_header(line.as_slice()) {
            Some((id, kind, true, rest)) => {
                let size = parse_number(rest.as_slice())?;
                if size > n - np {
                    return None;
                }
                let data = copy_range(text, np, np + size);
                p.resources.push(ResourceEntry { id, kind, external: false, data });
                proof {
                    assert(p.view().resources =~= pv.resources.push(p.resources@.last().view()));
                }
                open = false;
                pos = np + size;
            },
            Some((id, kind, false, rest)) => {
                p.resources.push(ResourceEntry { id, kind, external: true, data: rest });
                proof {
                    assert(p.view().resources =~= pv.resources.push(p.resources@.last().view()));
                }
                open = false;
                pos = np;
            },
            None => {
                let o = apply_line(&line, &mut p, open)?;
                open = o;
                pos = np;
            },
        }
    }
    Some(p)
}

/// No byte of `s` ends or breaks a line.
pub open spec fn plain(s: Seq<u8>) -> bool {
    forall|i: int| 0 <= i < s.len() ==> #[trigger] s[i] != NEWLINE && s[i] != RETURN
}

/// A plain word: no line break and no space.
pub open spec fn word(s: Seq<u8>) -> bool {
    plain(s) && no_space(s)
}

proof fn lemma_plain_concat(a: Seq<u8>, b: Seq<u8>)
    requires
        plain(a),
        plain(b),
    ensures
        plain(a + b),
{
    assert forall|i: int| 0 <= i < (a + b).len() implies #[trigger] (a + b)[i] != NEWLINE && (a
        + b)[i] != RETURN by {
        if i < a.len() {
            assert((a + b)[i] == a[i]);
        } else {
            assert((a + b)[i] == b[i - a.len()]);
        }
    }
}

proof fn lemma_plain_decimal(n: nat)
    ensures
        plain(decimal(n)),
        no_space(decimal(n)),
{
    lemma_decimal_digits(n);
    assert forall|i: int| 0 <= i < decimal(n).len() implies #[trigger] decimal(n)[i] != NEWLINE
        && decimal(n)[i] != RETURN by {
        assert(is_digit(decimal(n)[i]));
    }
    assert forall|i: int| 0 <= i < decimal(n).len() implies #[trigger] decimal(n)[i] != SPACE by {
        assert(is_digit(decimal(n)[i]));
    }
}

proof fn lemma_plain_joined(refs: Seq<OutputRef>)
    ensures
        plain(joined_tokens(refs)),
    decreases refs.len(),
{
    if refs.len() > 0 {
        let last = refs.last();
        lemma_plain_decimal(last.node as nat);
        lemma_plain_decimal(last.output as nat);
        lemma_plain_concat(decimal(last.node as nat).push(DOT), decimal(last.output as nat));
        if refs.len() > 1 {
            lemma_plain_joined(refs.drop_last());
            lemma_plain_concat(joined_tokens(refs.drop_last()).push(SPACE), ref_token(last));
        }
    }
}

proof fn lemma_plain_in_line(refs: Seq<OutputRef>)
    ensures
        plain(in_line(refs)),
        in_line(refs).len() >= 2,
        in_line(refs)[0] == 0x69u8,
        in_line(refs)[1] == 0x6Eu8,
{
    lemma_plain_joined(refs);
    if refs.len() > 0 {
        lemma_plain_concat(in_keyword().push(SPACE), joined_tokens(refs));
    }
}

/// Reading a plain line that ends with a line feed gives back the line.
proof fn lemma_read_line(text: Seq<u8>, pos: int, line: Seq<u8>)
    requires
        0 <= pos,
        pos + line.len() < text.len(),
        text.subrange(pos, pos + line.len()) == line,
        text[pos + line.len()] == NEWLINE,
        plain(line),
    ensures
        line_end(text, pos) == pos + line.len(),
        strip_return(text.subrange(pos, line_end(text, pos))) == line,
        next_line(text, pos) == pos + line.len() + 1,
    decreases line.len(),
{
    if line.len() > 0 {
        let rest = line.subrange(1, line.len() as int);
        assert(text.subrange(pos + 1, pos + 1 + rest.len()) =~= rest);
        assert(text[pos] == line[0]);
        lemma_read_line(text, pos + 1, rest);
        assert(rest.len() + 1 == line.len());
        assert(line.last() != RETURN);
    }
}

pub open spec fn res_word() -> Seq<u8> {
    seq![0x72u8, 0x65u8, 0x73u8]
}

pub open spec fn param_word() -> Seq<u8> {
    seq![0x70u8, 0x61u8, 0x72u8, 0x61u8, 0x6Du8]
}

/// The header line of a resource.
pub open spec fn res_line(r: ResourceView) -> Seq<u8> {
    res_word().push(SPACE) + (decimal(r.id as nat).push(SPACE) + (r.kind.push(SPACE) + if r.external {
        external_word().push(SPACE) + r.data
    } else {
        internal_word().push(SPACE) + decimal(r.data.len())
    }))
}

/// A `param` line.
pub open spec fn param_text(v: Seq<u8>) -> Seq<u8> {
    param_word().push(SPACE) + v
}

/// A resource as written: its header line, then the payload and a line
/// feed when it is internal.
pub open spec fn res_bytes(r: ResourceView) -> Seq<u8> {
    if r.external {
        res_line(r).push(NEWLINE)
    } else {
        res_line(r).push(NEWLINE) + r.data.push(NEWLINE)
    }
}

/// Lines, each ended by a line feed.
pub open spec fn lines_of(ls: Seq<Seq<u8>>) -> Seq<u8>
    decreases ls.len(),
{
    if ls.len() == 0 {
        Seq::empty()
    } else {
        lines_of(ls.drop_last()) + ls.last().push(NEWLINE)
    }
}

/// The lines of a node's block, without the blank line that ends it.
pub open spec fn node_lines(n: NodeView) -> Seq<Seq<u8>> {
    seq![node_line(n.id, n.ctor)] + n.inputs.map_values(|r: Seq<OutputRef>| in_line(r))
        + n.params.map_values(|v: Seq<u8>| param_text(v)) + n.links.map_values(
        |l: (Seq<u8>, Option<usize>)| resource_link_line(l.0, l.1),
    ) + n.meta.map_values(|m: (Seq<u8>, Seq<u8>)| meta_text(m.0, m.1))
}

/// A node as written: its block of lines, then a blank line.
pub open spec fn node_bytes(n: NodeView) -> Seq<u8> {
    lines_of(node_lines(n)).push(NEWLINE)
}

pub open spec fn resources_bytes(rs: Seq<ResourceView>) -> Seq<u8>
    decreases rs.len(),
{
    if rs.len() == 0 {
        Seq::empty()
    } else {
        resources_bytes(rs.drop_last()) + res_bytes(rs.last())
    }
}

pub open spec fn nodes_bytes(ns: Seq<NodeView>) -> Seq<u8>
    decreases ns.len(),
{
    if ns.len() == 0 {
        Seq::empty()
    } else {
        nodes_bytes(ns.drop_last()) + node_bytes(ns.last())
    }
}

/// A project as written: its resources, then its nodes.
pub open spec fn project_bytes(p: ProjectView) -> Seq<u8> {
    resources_bytes(p.resources) + nodes_bytes(p.nodes)
}

/// What a project file can hold: kinds, slots and keys are words, and
/// paths, constructor names and values are plain.
pub open spec fn resource_wf(r: ResourceView) -> bool {
    &&& word(r.kind)
    &&& r.data.len() <= usize::MAX
    &&& r.external ==> plain(r.data)
}

pub open spec fn node_wf(n: NodeView) -> bool {
    &&& plain(n.ctor)
    &&& forall|i: int| 0 <= i < n.params.len() ==> plain(#[trigger] n.params[i])
    &&& forall|i: int| 0 <= i < n.links.len() ==> word((#[trigger] n.links[i]).0)
    &&& forall|i: int| 0 <= i < n.meta.len() ==> word((#[trigger] n.meta[i]).0) && plain(n.meta[i].1)
}

pub open spec fn project_wf(p: ProjectView) -> bool {
    &&& forall|i: int| 0 <= i < p.resources.len() ==> resource_wf(#[trigger] p.resources[i])
    &&& forall|i: int| 0 <= i < p.nodes.len() ==> node_wf(#[trigger] p.nodes[i])
}

proof fn lemma_plain_word_line(w: Seq<u8>, rest: Seq<u8>)
    requires
        plain(w),
        plain(rest),
    ensures
        plain(w.push(SPACE) + rest),
{
    assert(plain(w.push(SPACE))) by {
        assert forall|i: int| 0 <= i < w.push(SPACE).len() implies #[trigger] w.push(SPACE)[i]
            != NEWLINE && w.push(SPACE)[i] != RETURN by {
            if i < w.len() {
                assert(w.push(SPACE)[i] == w[i]);
            }
        }
    }
    lemma_plain_concat(w.push(SPACE), rest);
}

/// A resource header line reads back as its fields.
proof fn lemma_res_line(r: ResourceView)
    requires
        resource_wf(r),
    ensures
        plain(res_line(r)),
        res_line(r).len() > 0,
        res_header(res_line(r)) == Some(
            (
                r.id,
                r.kind,
                !r.external,
                if r.external {
                    r.data
                } else {
                    decimal(r.data.len())
                },
            ),
        ),
        !r.external ==> number_of(decimal(r.data.len())) == Some(r.data.len() as usize),
{
    let storage = if r.external {
        external_word()
    } else {
        internal_word()
    };
    let rest = if r.external {
        r.data
    } else {
        decimal(r.data.len())
    };
    lemma_plain_decimal(r.id as nat);
    lemma_plain_decimal(r.data.len());
    lemma_decimal_digits(r.data.len());
    lemma_decimal_digits(r.id as nat);
    let x3 = storage.push(SPACE) + rest;
    let x2 = r.kind.push(SPACE) + x3;
    let x1 = decimal(r.id as nat).push(SPACE) + x2;
    assert(res_line(r) == res_word().push(SPACE) + x1);
    lemma_split_first_concat(res_word(), x1, SPACE);
    lemma_split_first_concat(decimal(r.id as nat), x2, SPACE);
    lemma_split_first_concat(r.kind, x3, SPACE);
    assert(no_space(storage));
    lemma_split_first_concat(storage, rest, SPACE);
    assert(plain(storage));
    assert(plain(res_word()));
    lemma_plain_word_line(storage, rest);
    lemma_plain_word_line(r.kind, x3);
    lemma_plain_word_line(decimal(r.id as nat), x2);
    lemma_plain_word_line(res_word(), x1);
    if !r.external {
        assert(external_word() != internal_word()) by {
            assert(external_word()[0] != internal_word()[0]);
        }
    }
}

/// Reading one plain line that is no resource header moves the parse past
/// it, as `step_line` says.
proof fn lemma_one_line(text: Seq<u8>, q: int, line: Seq<u8>, p: ProjectView, open: bool, p2: ProjectView, open2: bool)
    requires
        0 <= q,
        q + line.len() < text.len(),
        text.subrange(q, q + line.len()) == line,
        text[q + line.len()] == NEWLINE,
        plain(line),
        res_header(line).is_none(),
        step_line(line, p, open) == Some((p2, open2)),
    ensures
        parse_from(text, q, p, open) == parse_from(text, q + line.len() + 1, p2, open2),
{
    lemma_read_line(text, q, line);
}

/// The node after the header and the first `j - 1` lines of its block.
pub open spec fn partial(n: NodeView, j: int) -> NodeView {
    let k = j - 1;
    let ni = n.inputs.len() as int;
    let np = n.params.len() as int;
    let nl = n.links.len() as int;
    let nm = n.meta.len() as int;
    NodeView {
        inputs: n.inputs.take(clamp(k, ni)),
        params: n.params.take(clamp(k - ni, np)),
        links: n.links.take(clamp(k - ni - np, nl)),
        meta: n.meta.take(clamp(k - ni - np - nl, nm)),
        ..n
    }
}

/// `x` held within `[0, hi]`.
pub open spec fn clamp(x: int, hi: int) -> int {
    if x < 0 {
        0
    } else if x > hi {
        hi
    } else {
        x
    }
}

pub open spec fn block_len(n: NodeView) -> int {
    1 + n.inputs.len() as int + n.params.len() as int + n.links.len() as int + n.meta.len() as int
}

pub open spec fn with_nodes(p: ProjectView, nodes: Seq<NodeView>) -> ProjectView {
    ProjectView { nodes, ..p }
}

proof fn lemma_lines_prefix(ls: Seq<Seq<u8>>, j: int, m: int)
    requires
        0 <= j <= m <= ls.len(),
    ensures
        lines_of(ls.take(j)).len() <= lines_of(ls.take(m)).len(),
        lines_of(ls.take(m)).subrange(0, lines_of(ls.take(j)).len() as int) == lines_of(ls.take(j)),
    decreases m - j,
{
    if j < m {
        lemma_lines_prefix(ls, j, m - 1);
        assert(ls.take(m).drop_last() =~= ls.take(m - 1));
        let a = lines_of(ls.take(j));
        let b = lines_of(ls.take(m - 1));
        let c = lines_of(ls.take(m));
        assert(c.subrange(0, b.len() as int) =~= b);
        assert(c.subrange(0, a.len() as int) =~= b.subrange(0, a.len() as int));
    } else {
        assert(lines_of(ls.take(m)).subrange(0, lines_of(ls.take(j)).len() as int) =~= lines_of(ls.take(j)));
    }
}

proof fn lemma_lines_full(ls: Seq<Seq<u8>>)
    ensures
        ls.take(ls.len() as int) == ls,
{
    assert(ls.take(ls.len() as int) =~= ls);
}

/// Which line index `j` of a node's block is, and its contents.
proof fn lemma_node_line_at(n: NodeView, j: int)
    requires
        1 <= j < block_len(n),
    ensures
        node_lines(n).len() == block_len(n),
        node_lines(n)[0] == node_line(n.id, n.ctor),
        j - 1 < n.inputs.len() ==> node_lines(n)[j] == in_line(n.inputs[j - 1]),
        n.inputs.len() <= j - 1 < n.inputs.len() + n.params.len() ==> node_lines(n)[j] == param_text(
            n.params[j - 1 - n.inputs.len()],
        ),
        n.inputs.len() + n.params.len() <= j - 1 < n.inputs.len() + n.params.len() + n.links.len()
            ==> node_lines(n)[j] == resource_link_line(
            n.links[j - 1 - n.inputs.len() - n.params.len()].0,
            n.links[j - 1 - n.inputs.len() - n.params.len()].1,
        ),
        n.inputs.len() + n.params.len() + n.links.len() <= j - 1 ==> node_lines(n)[j] == meta_text(
            n.meta[j - 1 - n.inputs.len() - n.params.len() - n.links.len()].0,
            n.meta[j - 1 - n.inputs.len() - n.params.len() - n.links.len()].1,
        ),
{
}

pub open spec fn meta_word() -> Seq<u8> {
    seq![0x6Du8, 0x65u8, 0x74u8, 0x61u8]
}

/// The project after the header and first `j - 1` lines of node `n`'s block.
pub open spec fn at_line(p: ProjectView, base: Seq<NodeView>, n: NodeView, j: int) -> ProjectView {
    with_nodes(p, base.push(partial(n, j)))
}

proof fn lemma_with_last_at(p: ProjectView, base: Seq<NodeView>, n: NodeView, j: int, x: NodeView)
    requires
        x == partial(n, j + 1),
    ensures
        with_last(at_line(p, base, n, j), x) == at_line(p, base, n, j + 1),
{
    assert(base.push(partial(n, j)).update(base.len() as int, x) =~= base.push(partial(n, j + 1)));
}

proof fn lemma_input_line(p: ProjectView, base: Seq<NodeView>, n: NodeView, j: int)
    requires
        1 <= j,
        j - 1 < n.inputs.len(),
    ensures
        plain(in_line(n.inputs[j - 1])),
        res_header(in_line(n.inputs[j - 1])).is_none(),
        step_line(in_line(n.inputs[j - 1]), at_line(p, base, n, j), true) == Some(
            (at_line(p, base, n, j + 1), true),
        ),
{
    let k = j - 1;
    let r = n.inputs[k];
    let line = in_line(r);
    lemma_plain_in_line(r);
    lemma_in_line_round_trip(r);
    if r.len() == 0 {
        lemma_split_first_none(in_keyword(), SPACE);
    } else {
        lemma_split_first_concat(in_keyword(), joined_tokens(r), SPACE);
        assert(in_keyword() != res_word()) by {
            assert(in_keyword().len() != res_word().len());
        }
    }
    let a = at_line(p, base, n, j);
    let pj = partial(n, j);
    assert(a.nodes.last() == pj);
    let x = NodeView { inputs: pj.inputs.push(r), ..pj };
    assert(x.inputs =~= partial(n, j + 1).inputs);
    assert(x.params =~= partial(n, j + 1).params);
    assert(x.links =~= partial(n, j + 1).links);
    assert(x.meta =~= partial(n, j + 1).meta);
    lemma_with_last_at(p, base, n, j, x);
}

proof fn lemma_param_line(p: ProjectView, base: Seq<NodeView>, n: NodeView, j: int)
    requires
        node_wf(n),
        n.inputs.len() <= j - 1 < n.inputs.len() + n.params.len(),
    ensures
        plain(param_text(n.params[j - 1 - n.inputs.len()])),
        res_header(param_text(n.params[j - 1 - n.inputs.len()])).is_none(),
        step_line(param_text(n.params[j - 1 - n.inputs.len()]), at_line(p, base, n, j), true) == Some(
            (at_line(p, base, n, j + 1), true),
        ),
{
    let k = j - 1 - n.inputs.len();
    let v = n.params[k];
    let line = param_text(v);
    assert(plain(v));
    assert(plain(param_word()));
    lemma_plain_word_line(param_word(), v);
    lemma_split_first_concat(param_word(), v, SPACE);
    assert(param_word() != res_word()) by {
        assert(param_word().len() != res_word().len());
    }
    assert(line[0] == 0x70u8);
    assert(line != in_keyword());
    assert(line.subrange(0, 3) != in_keyword().push(SPACE)) by {
        assert(line.subrange(0, 3)[0] != in_keyword().push(SPACE)[0]);
    }
    let a = at_line(p, base, n, j);
    let pj = partial(n, j);
    assert(a.nodes.last() == pj);
    let x = NodeView { params: pj.params.push(v), ..pj };
    assert(x.inputs =~= partial(n, j + 1).inputs);
    assert(x.params =~= partial(n, j + 1).params);
    assert(x.links =~= partial(n, j + 1).links);
    assert(x.meta =~= partial(n, j + 1).meta);
    lemma_with_last_at(p, base, n, j, x);
}

proof fn lemma_link_line(p: ProjectView, base: Seq<NodeView>, n: NodeView, j: int)
    requires
        node_wf(n),
        n.inputs.len() + n.params.len() <= j - 1 < n.inputs.len() + n.params.len() + n.links.len(),
    ensures
        ({
            let l = n.links[j - 1 - n.inputs.len() - n.params.len()];
            &&& plain(resource_link_line(l.0, l.1))
            &&& res_header(resource_link_line(l.0, l.1)).is_none()
            &&& step_line(resource_link_line(l.0, l.1), at_line(p, base, n, j), true) == Some(
                (at_line(p, base, n, j + 1), true),
            )
        }),
{
    let k = j - 1 - n.inputs.len() - n.params.len();
    let l = n.links[k];
    let line = resource_link_line(l.0, l.1);
    let r_word = seq![0x72u8];
    assert(word(l.0));
    lemma_resource_link_round_trip(l.0, l.1);
    let rest = match l.1 {
        Some(id) => l.0.push(SPACE) + decimal(id as nat),
        None => l.0,
    };
    assert(line =~= r_word.push(SPACE) + rest);
    match l.1 {
        Some(id) => {
            lemma_plain_decimal(id as nat);
            lemma_plain_word_line(l.0, decimal(id as nat));
        },
        None => {},
    }
    assert(plain(r_word));
    lemma_plain_word_line(r_word, rest);
    lemma_split_first_concat(r_word, rest, SPACE);
    assert(r_word != res_word()) by {
        assert(r_word.len() != res_word().len());
    }
    assert(r_word != param_word()) by {
        assert(r_word.len() != param_word().len());
    }
    assert(line[0] == 0x72u8);
    assert(line != in_keyword());
    assert(line.len() >= 3 ==> line.subrange(0, 3) != in_keyword().push(SPACE)) by {
        if line.len() >= 3 {
            assert(line.subrange(0, 3)[0] != in_keyword().push(SPACE)[0]);
        }
    }
    let a = at_line(p, base, n, j);
    let pj = partial(n, j);
    assert(a.nodes.last() == pj);
    let x = NodeView { links: pj.links.push(l), ..pj };
    assert(x.inputs =~= partial(n, j + 1).inputs);
    assert(x.params =~= partial(n, j + 1).params);
    assert(x.links =~= partial(n, j + 1).links);
    assert(x.meta =~= partial(n, j + 1).meta);
    lemma_with_last_at(p, base, n, j, x);
}

proof fn lemma_meta_line(p: ProjectView, base: Seq<NodeView>, n: NodeView, j: int)
    requires
        node_wf(n),
        n.inputs.len() + n.params.len() + n.links.len() <= j - 1 < block_len(n) - 1,
    ensures
        ({
            let m = n.meta[j - 1 - n.inputs.len() - n.params.len() - n.links.len()];
            &&& plain(meta_text(m.0, m.1))
            &&& res_header(meta_text(m.0, m.1)).is_none()
            &&& step_line(meta_text(m.0, m.1), at_line(p, base, n, j), true) == Some(
                (at_line(p, base, n, j + 1), true),
            )
        }),
{
    let k = j - 1 - n.inputs.len() - n.params.len() - n.links.len();
    let m = n.meta[k];
    let line = meta_text(m.0, m.1);
    assert(word(m.0) && plain(m.1));
    lemma_meta_line_round_trip(m.0, m.1);
    let rest = m.0.push(SPACE) + m.1;
    assert(line =~= meta_word().push(SPACE) + rest);
    lemma_plain_word_line(m.0, m.1);
    assert(plain(meta_word()));
    lemma_plain_word_line(meta_word(), rest);
    lemma_split_first_concat(meta_word(), rest, SPACE);
    assert(meta_word() != res_word()) by {
        assert(meta_word().len() != res_word().len());
    }
    assert(meta_word() != param_word()) by {
        assert(meta_word().len() != param_word().len());
    }
    assert(meta_word() != seq![0x72u8]) by {
        assert(meta_word().len() != 1);
    }
    assert(line[0] == 0x6Du8);
    assert(line != in_keyword());
    assert(line.subrange(0, 3) != in_keyword().push(SPACE)) by {
        assert(line.subrange(0, 3)[0] != in_keyword().push(SPACE)[0]);
    }
    let a = at_line(p, base, n, j);
    let pj = partial(n, j);
    assert(a.nodes.last() == pj);
    let x = NodeView { meta: pj.meta.push(m), ..pj };
    assert(x.inputs =~= partial(n, j + 1).inputs);
    assert(x.params =~= partial(n, j + 1).params);
    assert(x.links =~= partial(n, j + 1).links);
    assert(x.meta =~= partial(n, j + 1).meta);
    lemma_with_last_at(p, base, n, j, x);
}

/// Text `x` stands at `pos` in `text`.
pub open spec fn at(text: Seq<u8>, pos: int, x: Seq<u8>) -> bool {
    0 <= pos && pos + x.len() <= text.len() && text.subrange(pos, pos + x.len()) == x
}

proof fn lemma_at_prefix(text: Seq<u8>, pos: int, x: Seq<u8>, a: Seq<u8>)
    requires
        at(text, pos, x),
        a.len() <= x.len(),
        x.subrange(0, a.len() as int) == a,
    ensures
        at(text, pos, a),
{
    assert(text.subrange(pos, pos + a.len()) =~= x.subrange(0, a.len() as int));
}

proof fn lemma_at_split(text: Seq<u8>, pos: int, a: Seq<u8>, b: Seq<u8>)
    requires
        at(text, pos, a + b),
    ensures
        at(text, pos, a),
        at(text, pos + a.len(), b),
{
    let big = text.subrange(pos, pos + (a + b).len());
    assert(big == a + b);
    assert(text.subrange(pos, pos + a.len()) =~= big.subrange(0, a.len() as int));
    assert(big.subrange(0, a.len() as int) =~= a);
    assert(text.subrange(pos + a.len(), pos + a.len() + b.len()) =~= big.subrange(
        a.len() as int,
        big.len() as int,
    ));
    assert(big.subrange(a.len() as int, big.len() as int) =~= b);
}

/// A line that stands at `q` followed by a line feed.
proof fn lemma_line_at(text: Seq<u8>, q: int, line: Seq<u8>)
    requires
        at(text, q, line.push(NEWLINE)),
    ensures
        q + line.len() < text.len(),
        text.subrange(q, q + line.len()) == line,
        text[q + line.len()] == NEWLINE,
{
    assert(line.push(NEWLINE) =~= line + seq![NEWLINE]);
    lemma_at_split(text, q, line, seq![NEWLINE]);
    assert(text.subrange(q + line.len(), q + line.len() + 1)[0] == text[q + line.len()]);
}

proof fn lemma_block_from(text: Seq<u8>, pos: int, p: ProjectView, base: Seq<NodeView>, n: NodeView, j: int)
    requires
        node_wf(n),
        1 <= j <= block_len(n),
        at(text, pos, lines_of(node_lines(n))),
    ensures
        parse_from(text, pos + lines_of(node_lines(n).take(j)).len(), at_line(p, base, n, j), true)
            == parse_from(
            text,
            pos + lines_of(node_lines(n)).len(),
            at_line(p, base, n, block_len(n)),
            true,
        ),
    decreases block_len(n) - j,
{
    let ls = node_lines(n);
    lemma_lines_full(ls);
    if j < block_len(n) {
        lemma_node_line_at(n, j);
        let line = ls[j];
        let k = j - 1;
        let ni = n.inputs.len() as int;
        let np = n.params.len() as int;
        let nl = n.links.len() as int;
        if k < ni {
            lemma_input_line(p, base, n, j);
        } else if k < ni + np {
            lemma_param_line(p, base, n, j);
        } else if k < ni + np + nl {
            lemma_link_line(p, base, n, j);
        } else {
            lemma_meta_line(p, base, n, j);
        }
        assert(ls.take(j + 1).drop_last() =~= ls.take(j));
        assert(ls.take(j + 1).last() == line);
        let before = lines_of(ls.take(j));
        assert(lines_of(ls.take(j + 1)) == before + line.push(NEWLINE));
        lemma_lines_prefix(ls, j + 1, ls.len() as int);
        lemma_at_prefix(text, pos, lines_of(ls), lines_of(ls.take(j + 1)));
        lemma_at_split(text, pos, before, line.push(NEWLINE));
        lemma_line_at(text, pos + before.len(), line);
        lemma_one_line(
            text,
            pos + before.len(),
            line,
            at_line(p, base, n, j),
            true,
            at_line(p, base, n, j + 1),
            true,
        );
        lemma_block_from(text, pos, p, base, n, j + 1);
    }
}

proof fn lemma_node_first(text: Seq<u8>, pos: int, p: ProjectView, n: NodeView)
    requires
        node_wf(n),
        at(text, pos, lines_of(node_lines(n))),
    ensures
        parse_from(text, pos, p, false) == parse_from(
            text,
            pos + lines_of(node_lines(n).take(1)).len(),
            at_line(p, p.nodes, n, 1),
            true,
        ),
{
    let ls = node_lines(n);
    let first = node_line(n.id, n.ctor);
    assert(ls[0] == first);
    assert(ls.take(1) =~= seq![first]);
    assert(seq![first].drop_last() =~= Seq::<Seq<u8>>::empty());
    assert(lines_of(Seq::<Seq<u8>>::empty()) == Seq::<u8>::empty());
    assert(lines_of(ls.take(1)) =~= first.push(NEWLINE));
    lemma_lines_full(ls);
    lemma_lines_prefix(ls, 1, ls.len() as int);
    lemma_at_prefix(text, pos, lines_of(ls), lines_of(ls.take(1)));
    lemma_line_at(text, pos, first);
    let node_kw = seq![0x6Eu8, 0x6Fu8, 0x64u8, 0x65u8];
    let rest = decimal(n.id as nat).push(SPACE) + n.ctor;
    assert(first =~= node_kw.push(SPACE) + rest);
    lemma_plain_decimal(n.id as nat);
    lemma_plain_word_line(decimal(n.id as nat), n.ctor);
    assert(plain(node_kw));
    lemma_plain_word_line(node_kw, rest);
    lemma_split_first_concat(node_kw, rest, SPACE);
    assert(node_kw != res_word()) by {
        assert(node_kw.len() != res_word().len());
    }
    lemma_node_line_round_trip(n.id, n.ctor);
    assert(first[0] == 0x6Eu8);
    let p1 = at_line(p, p.nodes, n, 1);
    assert(partial(n, 1).inputs =~= Seq::<Seq<OutputRef>>::empty());
    assert(partial(n, 1).params =~= Seq::<Seq<u8>>::empty());
    assert(partial(n, 1).links =~= Seq::<(Seq<u8>, Option<usize>)>::empty());
    assert(partial(n, 1).meta =~= Seq::<(Seq<u8>, Seq<u8>)>::empty());
    assert(with_node(p, n.id, n.ctor) == p1);
    lemma_one_line(text, pos, first, p, false, p1, true);
}

/// A blank line ends the open node.
proof fn lemma_blank_line(text: Seq<u8>, q: int, p: ProjectView)
    requires
        0 <= q < text.len(),
        text[q] == NEWLINE,
    ensures
        parse_from(text, q, p, true) == parse_from(text, q + 1, p, false),
{
    let e = Seq::<u8>::empty();
    assert(text.subrange(q, q) =~= e);
    assert(split_first(e, SPACE).is_none());
    lemma_one_line(text, q, e, p, true, p, false);
}

/// A node's block read from `pos` adds that node.
proof fn lemma_node_block(text: Seq<u8>, pos: int, p: ProjectView, n: NodeView)
    requires
        node_wf(n),
        at(text, pos, node_bytes(n)),
    ensures
        parse_from(text, pos, p, false) == parse_from(
            text,
            pos + node_bytes(n).len(),
            with_nodes(p, p.nodes.push(n)),
            false,
        ),
{
    let ls = node_lines(n);
    assert(node_bytes(n) =~= lines_of(ls) + seq![NEWLINE]);
    lemma_at_split(text, pos, lines_of(ls), seq![NEWLINE]);
    lemma_node_first(text, pos, p, n);
    lemma_block_from(text, pos, p, p.nodes, n, 1);
    lemma_lines_full(ls);
    assert(partial(n, block_len(n)).inputs =~= n.inputs);
    assert(partial(n, block_len(n)).params =~= n.params);
    assert(partial(n, block_len(n)).links =~= n.links);
    assert(partial(n, block_len(n)).meta =~= n.meta);
    assert(partial(n, block_len(n)) == n);
    assert(node_lines(n).len() == block_len(n));
    let q = pos + lines_of(ls).len();
    assert(text.subrange(q, q + 1)[0] == text[q]);
    lemma_blank_line(text, q, at_line(p, p.nodes, n, block_len(n)));
}

/// A resource read from `pos` adds that resource.
proof fn lemma_resource(text: Seq<u8>, pos: int, p: ProjectView, open: bool, r: ResourceView)
    requires
        resource_wf(r),
        at(text, pos, res_bytes(r)),
    ensures
        parse_from(text, pos, p, open) == parse_from(
            text,
            pos + res_bytes(r).len(),
            with_resource(p, r),
            false,
        ),
{
    let line = res_line(r);
    lemma_res_line(r);
    let np = pos + line.len() + 1;
    if r.external {
        lemma_line_at(text, pos, line);
        lemma_read_line(text, pos, line);
        assert(strip_return(text.subrange(pos, line_end(text, pos))) == line);
        assert(ResourceView { id: r.id, kind: r.kind, external: true, data: r.data } == r);
        assert(parse_from(text, pos, p, open) == parse_from(text, np, with_resource(p, r), false));
        assert(res_bytes(r).len() == line.len() + 1);
    } else {
        lemma_at_split(text, pos, line.push(NEWLINE), r.data.push(NEWLINE));
        lemma_line_at(text, pos, line);
        lemma_read_line(text, pos, line);
        lemma_line_at(text, np, r.data);
        let n = r.data.len() as int;
        assert(text.subrange(np, np + n) == r.data);
        assert(ResourceView { id: r.id, kind: r.kind, external: false, data: r.data } == r);
        assert(strip_return(text.subrange(pos, line_end(text, pos))) == line);
        let sz = number_of(decimal(r.data.len())).unwrap();
        assert(sz as int == n);
        assert(np + n <= text.len());
        assert(parse_from(text, pos, p, open) == parse_from(text, np + n, with_resource(p, r), false));
        assert(text.subrange(np + n, np + n + 1)[0] == text[np + n]);
        lemma_blank_line(text, np + n, with_resource(p, r));
        assert(res_bytes(r).len() == line.len() + 1 + n + 1);
    }
}

proof fn lemma_resources_prefix(rs: Seq<ResourceView>, j: int, m: int)
    requires
        0 <= j <= m <= rs.len(),
    ensures
        resources_bytes(rs.take(j)).len() <= resources_bytes(rs.take(m)).len(),
        resources_bytes(rs.take(m)).subrange(0, resources_bytes(rs.take(j)).len() as int)
            == resources_bytes(rs.take(j)),
    decreases m - j,
{
    if j < m {
        lemma_resources_prefix(rs, j, m - 1);
        assert(rs.take(m).drop_last() =~= rs.take(m - 1));
        let a = resources_bytes(rs.take(j));
        let b = resources_bytes(rs.take(m - 1));
        let c = resources_bytes(rs.take(m));
        assert(c.subrange(0, b.len() as int) =~= b);
        assert(c.subrange(0, a.len() as int) =~= b.subrange(0, a.len() as int));
    } else {
        assert(resources_bytes(rs.take(m)).subrange(0, resources_bytes(rs.take(j)).len() as int)
            =~= resources_bytes(rs.take(j)));
    }
}

proof fn lemma_nodes_prefix(ns: Seq<NodeView>, j: int, m: int)
    requires
        0 <= j <= m <= ns.len(),
    ensures
        nodes_bytes(ns.take(j)).len() <= nodes_bytes(ns.take(m)).len(),
        nodes_bytes(ns.take(m)).subrange(0, nodes_bytes(ns.take(j)).len() as int) == nodes_bytes(
            ns.take(j),
        ),
    decreases m - j,
{
    if j < m {
        lemma_nodes_prefix(ns, j, m - 1);
        assert(ns.take(m).drop_last() =~= ns.take(m - 1));
        let a = nodes_bytes(ns.take(j));
        let b = nodes_bytes(ns.take(m - 1));
        let c = nodes_bytes(ns.take(m));
        assert(c.subrange(0, b.len() as int) =~= b);
        assert(c.subrange(0, a.len() as int) =~= b.subrange(0, a.len() as int));
    } else {
        assert(nodes_bytes(ns.take(m)).subrange(0, nodes_bytes(ns.take(j)).len() as int) =~= nodes_bytes(
            ns.take(j),
        ));
    }
}

proof fn lemma_resources_from(text: Seq<u8>, pos: int, rs: Seq<ResourceView>, j: int)
    requires
        0 <= j <= rs.len(),
        forall|i: int| 0 <= i < rs.len() ==> resource_wf(#[trigger] rs[i]),
        at(text, pos, resources_bytes(rs)),
    ensures
        parse_from(
            text,
            pos + resources_bytes(rs.take(j)).len(),
            ProjectView { resources: rs.take(j), nodes: Seq::empty() },
            false,
        ) == parse_from(
            text,
            pos + resources_bytes(rs).len(),
            ProjectView { resources: rs, nodes: Seq::empty() },
            false,
        ),
    decreases rs.len() - j,
{
    assert(rs.take(rs.len() as int) =~= rs);
    if j < rs.len() {
        let r = rs[j];
        assert(rs.take(j + 1).drop_last() =~= rs.take(j));
        assert(rs.take(j + 1).last() == r);
        let before = resources_bytes(rs.take(j));
        lemma_resources_prefix(rs, j + 1, rs.len() as int);
        lemma_at_prefix(text, pos, resources_bytes(rs), resources_bytes(rs.take(j + 1)));
        lemma_at_split(text, pos, before, res_bytes(r));
        let pj = ProjectView { resources: rs.take(j), nodes: Seq::empty() };
        lemma_resource(text, pos + before.len(), pj, false, r);
        assert(with_resource(pj, r).resources =~= rs.take(j + 1));
        lemma_resources_from(text, pos, rs, j + 1);
    }
}

proof fn lemma_nodes_from(text: Seq<u8>, pos: int, rs: Seq<ResourceView>, ns: Seq<NodeView>, j: int)
    requires
        0 <= j <= ns.len(),
        forall|i: int| 0 <= i < ns.len() ==> node_wf(#[trigger] ns[i]),
        at(text, pos, nodes_bytes(ns)),
    ensures
        parse_from(
            text,
            pos + nodes_bytes(ns.take(j)).len(),
            ProjectView { resources: rs, nodes: ns.take(j) },
            false,
        ) == parse_from(
            text,
            pos + nodes_bytes(ns).len(),
            ProjectView { resources: rs, nodes: ns },
            false,
        ),
    decreases ns.len() - j,
{
    assert(ns.take(ns.len() as int) =~= ns);
    if j < ns.len() {
        let n = ns[j];
        assert(ns.take(j + 1).drop_last() =~= ns.take(j));
        assert(ns.take(j + 1).last() == n);
        let before = nodes_bytes(ns.take(j));
        lemma_nodes_prefix(ns, j + 1, ns.len() as int);
        lemma_at_prefix(text, pos, nodes_bytes(ns), nodes_bytes(ns.take(j + 1)));
        lemma_at_split(text, pos, before, node_bytes(n));
        let pj = ProjectView { resources: rs, nodes: ns.take(j) };
        lemma_node_block(text, pos + before.len(), pj, n);
        assert(ns.take(j).push(n) =~= ns.take(j + 1));
        lemma_nodes_from(text, pos, rs, ns, j + 1);
    }
}

/// A project written out reads back as the same project: save then load
/// is the identity on what a project file can hold.
pub proof fn lemma_project_round_trip(p: ProjectView)
    requires
        project_wf(p),
    ensures
        project_of(project_bytes(p)) == Some(p),
{
    let text = project_bytes(p);
    let rb = resources_bytes(p.resources);
    let nb = nodes_bytes(p.nodes);
    assert(at(text, 0, rb + nb)) by {
        assert(text.subrange(0, text.len() as int) =~= text);
    }
    lemma_at_split(text, 0, rb, nb);
    lemma_resources_from(text, 0, p.resources, 0);
    assert(p.resources.take(0) =~= Seq::<ResourceView>::empty());
    assert(resources_bytes(Seq::<ResourceView>::empty()) == Seq::<u8>::empty());
    assert(ProjectView { resources: p.resources.take(0), nodes: Seq::empty() } == empty_project());
    lemma_nodes_from(text, rb.len() as int, p.resources, p.nodes, 0);
    assert(p.nodes.take(0) =~= Seq::<NodeView>::empty());
    assert(nodes_bytes(Seq::<NodeView>::empty()) == Seq::<u8>::empty());
    assert(ProjectView { resources: p.resources, nodes: p.nodes } == p);
}

proof fn lemma_lines_concat(a: Seq<Seq<u8>>, b: Seq<Seq<u8>>)
    ensures
        lines_of(a + b) == lines_of(a) + lines_of(b),
    decreases b.len(),
{
    if b.len() == 0 {
        assert(a + b =~= a);
        assert(lines_of(a) + lines_of(b) =~= lines_of(a));
    } else {
        lemma_lines_concat(a, b.drop_last());
        assert((a + b).drop_last() =~= a + b.drop_last());
        assert((a + b).last() == b.last());
        assert(lines_of(a + b) =~= lines_of(a) + lines_of(b));
    }
}

/// Appends `line` and a line feed.
fn push_line(out: &mut Vec<u8>, line: &[u8])
    ensures
        final(out)@ == old(out)@ + line@.push(NEWLINE),
{
    push_all(out, line);
    out.push(NEWLINE);
    proof {
        assert(final(out)@ =~= old(out)@ + line@.push(NEWLINE));
    }
}

fn write_resource(out: &mut Vec<u8>, r: &ResourceEntry)
    ensures
        final(out)@ == old(out)@ + res_bytes(r.view()),
{
    let ghost base = out@;
    push_all(out, vec![0x72u8, 0x65u8, 0x73u8, SPACE].as_slice());
    write_decimal(r.id, out);
    out.push(SPACE);
    push_all(out, r.kind.as_slice());
    out.push(SPACE);
    if r.external {
        push_all(out, vec![0x65u8, 0x78u8, 0x74u8, 0x65u8, 0x72u8, 0x6Eu8, 0x61u8, 0x6Cu8, SPACE].as_slice());
        push_all(out, r.data.as_slice());
    } else {
        push_all(out, vec![0x69u8, 0x6Eu8, 0x74u8, 0x65u8, 0x72u8, 0x6Eu8, 0x61u8, 0x6Cu8, SPACE].as_slice());
        write_decimal(r.data.len(), out);
    }
    out.push(NEWLINE);
    proof {
        assert(out@ =~= base + res_line(r.view()).push(NEWLINE));
    }
    if !r.external {
        push_line(out, r.data.as_slice());
    }
    proof {
        assert(out@ =~= base + res_bytes(r.view()));
    }
}

fn write_node(out: &mut Vec<u8>, n: &NodeEntry)
    ensures
        final(out)@ == old(out)@ + node_bytes(n.view()),
{
    let ghost base = out@;
    let ghost v = n.view();
    let ghost ins = v.inputs.map_values(|r: Seq<OutputRef>| in_line(r));
    let ghost ps = v.params.map_values(|x: Seq<u8>| param_text(x));
    let ghost lk = v.links.map_values(|l: (Seq<u8>, Option<usize>)| resource_link_line(l.0, l.1));
    let ghost ms = v.meta.map_values(|m: (Seq<u8>, Seq<u8>)| meta_text(m.0, m.1));
    let header = format_node_line(n.id, n.ctor.as_slice());
    push_line(out, header.as_slice());
    proof {
        assert(seq![node_line(v.id, v.ctor)].drop_last() =~= Seq::<Seq<u8>>::empty());
        assert(lines_of(Seq::<Seq<u8>>::empty()) == Seq::<u8>::empty());
        assert(lines_of(seq![node_line(v.id, v.ctor)]) =~= node_line(v.id, v.ctor).push(NEWLINE));
    }
    let ghost b1 = out@;
    let mut k: usize = 0;
    while k < n.inputs.len()
        invariant
            k <= n.inputs@.len(),
            ins.len() == n.inputs@.len(),
            ins == n.view().inputs.map_values(|r: Seq<OutputRef>| in_line(r)),
            out@ == b1 + lines_of(ins.take(k as int)),
        decreases n.inputs@.len() - k,
    {
        let line = format_in_line(&n.inputs[k]);
        push_line(out, line.as_slice());
        proof {
            assert(ins.take(k as int + 1).drop_last() =~= ins.take(k as int));
            assert(ins.take(k as int + 1).last() == line@);
            assert(out@ =~= b1 + lines_of(ins.take(k as int + 1)));
        }
        k += 1;
    }
    proof {
        assert(ins.take(k as int) =~= ins);
    }
    let ghost b2 = out@;
    k = 0;
    while k < n.params.len()
        invariant
            k <= n.params@.len(),
            ps.len() == n.params@.len(),
            ps == n.view().params.map_values(|x: Seq<u8>| param_text(x)),
            out@ == b2 + lines_of(ps.take(k as int)),
        decreases n.params@.len() - k,
    {
        let mut line: Vec<u8> = Vec::new();
        push_all(&mut line, vec![0x70u8, 0x61u8, 0x72u8, 0x61u8, 0x6Du8, SPACE].as_slice());
        push_all(&mut line, n.params[k].as_slice());
        push_line(out, line.as_slice());
        proof {
            assert(line@ =~= param_text(n.params@[k as int]@));
            assert(ps.take(k as int + 1).drop_last() =~= ps.take(k as int));
            assert(ps.take(k as int + 1).last() == line@);
            assert(out@ =~= b2 + lines_of(ps.take(k as int + 1)));
        }
        k += 1;
    }
    proof {
        assert(ps.take(k as int) =~= ps);
    }
    let ghost b3 = out@;
    k = 0;
    while k < n.links.len()
        invariant
            k <= n.links@.len(),
            lk.len() == n.links@.len(),
            lk == n.view().links.map_values(|l: (Seq<u8>, Option<usize>)| resource_link_line(l.0, l.1)),
            out@ == b3 + lines_of(lk.take(k as int)),
        decreases n.links@.len() - k,
    {
        let line = format_resource_link(n.links[k].0.as_slice(), n.links[k].1);
        push_line(out, line.as_slice());
        proof {
            assert(lk.take(k as int + 1).drop_last() =~= lk.take(k as int));
            assert(lk.take(k as int + 1).last() == line@);
            assert(out@ =~= b3 + lines_of(lk.take(k as int + 1)));
        }
        k += 1;
    }
    proof {
        assert(lk.take(k as int) =~= lk);
    }
    let ghost b4 = out@;
    k = 0;
    while k < n.meta.len()
        invariant
            k <= n.meta@.len(),
            ms.len() == n.meta@.len(),
            ms == n.view().meta.map_values(|m: (Seq<u8>, Seq<u8>)| meta_text(m.0, m.1)),
            out@ == b4 + lines_of(ms.take(k as int)),
        decreases n.meta@.len() - k,
    {
        let line = format_meta_line(n.meta[k].0.as_slice(), n.meta[k].1.as_slice());
        push_line(out, line.as_slice());
        proof {
            assert(ms.take(k as int + 1).drop_last() =~= ms.take(k as int));
            assert(ms.take(k as int + 1).last() == line@);
            assert(out@ =~= b4 + lines_of(ms.take(k as int + 1)));
        }
        k += 1;
    }
    proof {
        assert(ms.take(k as int) =~= ms);
    }
    out.push(NEWLINE);
    proof {
        let h = seq![node_line(v.id, v.ctor)];
        lemma_lines_concat(h, ins);
        lemma_lines_concat(h + ins, ps);
        lemma_lines_concat(h + ins + ps, lk);
        lemma_lines_concat(h + ins + ps + lk, ms);
        assert(node_lines(v) == h + ins + ps + lk + ms);
        assert(out@ =~= base + node_bytes(v));
    }
}

/// Whether no byte of `s` breaks a line.
pub fn is_plain(s: &[u8]) -> (r: bool)
    ensures
        r == plain(s@),
{
    let mut i: usize = 0;
    while i < s.len()
        invariant
            i <= s@.len(),
            forall|j: int| 0 <= j < i ==> #[trigger] s@[j] != NEWLINE && s@[j] != RETURN,
        decreases s@.len() - i,
    {
        if s[i] == NEWLINE || s[i] == RETURN {
            return false;
        }
        i += 1;
    }
    true
}

/// Whether `s` is plain and holds no space.
pub fn is_word(s: &[u8]) -> (r: bool)
    ensures
        r == word(s@),
{
    let mut i: usize = 0;
    while i < s.len()
        invariant
            i <= s@.len(),
            forall|j: int| 0 <= j < i ==> #[trigger] s@[j] != NEWLINE && s@[j] != RETURN && s@[j] != SPACE,
        decreases s@.len() - i,
    {
        if s[i] == NEWLINE || s[i] == RETURN || s[i] == SPACE {
            return false;
        }
        i += 1;
    }
    true
}

impl NodeEntry {
    /// Whether a project file can hold this node.
    pub fn writable(&self) -> (r: bool)
        ensures
            r == node_wf(self.view()),
    {
        let ghost v = self.view();
        if !is_plain(self.ctor.as_slice()) {
            return false;
        }
        let mut k: usize = 0;
        while k < self.params.len()
            invariant
                v == self.view(),
                k <= self.params@.len(),
                forall|i: int| 0 <= i < k ==> plain(#[trigger] v.params[i]),
            decreases self.params@.len() - k,
        {
            proof {
                assert(v.params[k as int] == self.params@[k as int]@);
            }
            if !is_plain(self.params[k].as_slice()) {
                return false;
            }
            k += 1;
        }
        k = 0;
        while k < self.links.len()
            invariant
                v == self.view(),
                k <= self.links@.len(),
                forall|i: int| 0 <= i < k ==> word((#[trigger] v.links[i]).0),
            decreases self.links@.len() - k,
        {
            proof {
                assert(v.links[k as int].0 == self.links@[k as int].0@);
            }
            if !is_word(self.links[k].0.as_slice()) {
                return false;
            }
            k += 1;
        }
        k = 0;
        while k < self.meta.len()
            invariant
                v == self.view(),
                k <= self.meta@.len(),
                forall|i: int| 0 <= i < k ==> word((#[trigger] v.meta[i]).0) && plain(v.meta[i].1),
            decreases self.meta@.len() - k,
        {
            proof {
                assert(v.meta[k as int].0 == self.meta@[k as int].0@);
                assert(v.meta[k as int].1 == self.meta@[k as int].1@);
            }
            if !is_word(self.meta[k].0.as_slice()) || !is_plain(self.meta[k].1.as_slice()) {
                return false;
            }
            k += 1;
        }
        true
    }
}

impl ResourceEntry {
    /// Whether a project file can hold this resource.
    pub fn writable(&self) -> (r: bool)
        ensures
            r == resource_wf(self.view()),
    {
        let _ = self.data.len();
        is_word(self.kind.as_slice()) && (!self.external || is_plain(self.data.as_slice()))
    }
}

impl Project {
    /// Whether a project file can hold this project.
    pub fn writable(&self) -> (r: bool)
        ensures
            r == self.wf(),
    {
        let ghost v = self.view();
        let mut k: usize = 0;
        while k < self.resources.len()
            invariant
                v == self.view(),
                k <= self.resources@.len(),
                forall|i: int| 0 <= i < k ==> resource_wf(#[trigger] v.resources[i]),
            decreases self.resources@.len() - k,
        {
            proof {
                assert(v.resources[k as int] == self.resources@[k as int].view());
            }
            if !self.resources[k].writable() {
                return false;
            }
            k += 1;
        }
        k = 0;
        while k < self.nodes.len()
            invariant
                v == self.view(),
                k <= self.nodes@.len(),
                forall|i: int| 0 <= i < self.resources@.len() ==> resource_wf(#[trigger] v.resources[i]),
                forall|i: int| 0 <= i < k ==> node_wf(#[trigger] v.nodes[i]),
            decreases self.nodes@.len() - k,
        {
            proof {
                assert(v.nodes[k as int] == self.nodes@[k as int].view());
            }
            if !self.nodes[k].writable() {
                return false;
            }
            k += 1;
        }
        true
    }

    /// What a project file can hold; see `project_wf`.
    pub open spec fn wf(&self) -> bool {
        project_wf(self.view())
    }
}

/// Writes a project file. Reading it back gives the same project.
pub fn format_project(p: &Project) -> (r: Vec<u8>)
    requires
        p.wf(),
    ensures
        r@ == project_bytes(p.view()),
        project_of(r@) == Some(p.view()),
{
    let mut out: Vec<u8> = Vec::new();
    let ghost rs = p.view().resources;
    let ghost ns = p.view().nodes;
    let mut k: usize = 0;
    while k < p.resources.len()
        invariant
            k <= p.resources@.len(),
            rs == p.view().resources,
            out@ == resources_bytes(rs.take(k as int)),
        decreases p.resources@.len() - k,
    {
        write_resource(&mut out, &p.resources[k]);
        proof {
            assert(rs.take(k as int + 1).drop_last() =~= rs.take(k as int));
            assert(rs.take(k as int + 1).last() == p.resources@[k as int].view());
        }
        k += 1;
    }
    proof {
        assert(rs.take(k as int) =~= rs);
    }
    let ghost b = out@;
    k = 0;
    while k < p.nodes.len()
        invariant
            k <= p.nodes@.len(),
            ns == p.view().nodes,
            out@ == b + nodes_bytes(ns.take(k as int)),
        decreases p.nodes@.len() - k,
    {
        write_node(&mut out, &p.nodes[k]);
        proof {
            assert(ns.take(k as int + 1).drop_last() =~= ns.take(k as int));
            assert(ns.take(k as int + 1).last() == p.nodes@[k as int].view());
            assert(out@ =~= b + nodes_bytes(ns.take(k as int + 1)));
        }
        k += 1;
    }
    proof {
        assert(ns.take(k as int) =~= ns);
        assert(p.view().resources == rs && p.view().nodes == ns);
        lemma_project_round_trip(p.view());
    }
    out
}

} // verus!
