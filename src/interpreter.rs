use vstd::prelude::*;

use crate::graph::{drained, entry_ids, init_actions, run, step, Graph, GraphError, NodeAction};
use crate::logic_block::LogicBlock;
use crate::node::Node;
use crate::storing_block::StoringBlock;
use crate::text::{non_empty, split_bytes, split_on, split_words, views, words};

verus! {

/// Why an object file was refused.
#[derive(Debug, Copy, Clone, PartialEq, Eq, Structural)]
pub enum LoadError {
    /// A line that is not a logic-block or storing-block line.
    MalformedLine,
    /// The nodes could not be put together into a graph.
    Graph(GraphError),
}

/// A decimal digit.
pub open spec fn is_digit(c: u8) -> bool {
    48 <= c <= 57
}

/// The number that a string of decimal digits stands for.
pub open spec fn digits_value(s: Seq<u8>) -> nat
    decreases s.len(),
{
    if s.len() == 0 {
        0
    } else {
        digits_value(s.drop_last()) * 10 + (s.last() - 48) as nat
    }
}

/// `s` as a `u32`: non-empty, digits only, not too large.
pub open spec fn parse_u32(s: Seq<u8>) -> Option<u32> {
    if s.len() > 0 && (forall|k: int| 0 <= k < s.len() ==> is_digit(#[trigger] s[k])) && digits_value(s)
        <= u32::MAX {
        Some(digits_value(s) as u32)
    } else {
        None
    }
}

/// `s` as a five-digit binary mask, most significant digit first.
pub open spec fn parse_mask(s: Seq<u8>) -> Option<u8> {
    if s.len() == 5 && (forall|k: int| 0 <= k < 5 ==> (#[trigger] s[k] == 48 || s[k] == 49)) {
        Some((16 * (s[0] - 48) + 8 * (s[1] - 48) + 4 * (s[2] - 48) + 2 * (s[3] - 48) + (s[4] - 48)) as u8)
    } else {
        None
    }
}

/// Each word as a `u32`.
pub open spec fn parse_ids(ws: Seq<Seq<u8>>) -> Option<Seq<u32>>
    decreases ws.len(),
{
    if ws.len() == 0 {
        Some(Seq::empty())
    } else {
        match (parse_ids(ws.drop_last()), parse_u32(ws.last())) {
            (Some(ids), Some(x)) => Some(ids.push(x)),
            _ => None,
        }
    }
}

/// A logic-block line: `ID MASK CHILDREN*`, as its id, mask and children.
pub open spec fn logic_line(l: Seq<u8>) -> Option<(u32, u8, Seq<u32>)> {
    let w = words(l);
    if w.len() < 2 {
        None
    } else {
        match (parse_u32(w[0]), parse_mask(w[1]), parse_ids(w.subrange(2, w.len() as int))) {
            (Some(id), Some(m), Some(cs)) => Some((id, m, cs)),
            _ => None,
        }
    }
}

/// A storing-block line: `^ID BUTTON SOURCE CHILDREN*`, as its id, button,
/// source and children.
pub open spec fn storing_line(l: Seq<u8>) -> Option<(u32, u32, u32, Seq<u32>)> {
    let w = words(l);
    if w.len() < 3 || w[0].len() == 0 || w[0][0] != 94 {
        None
    } else {
        match (
            parse_u32(w[0].drop_first()),
            parse_u32(w[1]),
            parse_u32(w[2]),
            parse_ids(w.subrange(3, w.len() as int)),
        ) {
            (Some(id), Some(b), Some(s), Some(cs)) => Some((id, b, s, cs)),
            _ => None,
        }
    }
}

/// `n` is a fresh logic block with mask `m` and children `cs`.
pub open spec fn is_logic_node(n: Node, m: u8, cs: Seq<u32>) -> bool {
    match n {
        Node::LogicBlock(b) => b.value() == 0 && b.requirements() == m && b.children_view() == cs,
        _ => false,
    }
}

/// `n` is a storing block that is off, with button `b`, source `s` and
/// children `cs`.
pub open spec fn is_storing_node(n: Node, b: u32, s: u32, cs: Seq<u32>) -> bool {
    match n {
        Node::StoringBlock(sb) => !sb.is_on && sb.button_node == b && sb.source == s && sb.children@ == cs,
        _ => false,
    }
}

/// `n` is the node that the object-file line `l` describes.
pub open spec fn node_of_line(l: Seq<u8>, n: Node, id: u32) -> bool {
    if l.len() > 0 && l[0] == 94 {
        match storing_line(l) {
            Some((i, b, s, cs)) => i == id && is_storing_node(n, b, s, cs),
            None => false,
        }
    } else {
        match logic_line(l) {
            Some((i, m, cs)) => i == id && is_logic_node(n, m, cs),
            None => false,
        }
    }
}

/// The line can be read as a node.
pub open spec fn line_ok(l: Seq<u8>) -> bool {
    if l.len() > 0 && l[0] == 94 {
        storing_line(l) is Some
    } else {
        logic_line(l) is Some
    }
}

proof fn lemma_digits_value_prefix(s: Seq<u8>, i: int)
    requires
        0 <= i <= s.len(),
    ensures
        digits_value(s.subrange(0, i)) <= digits_value(s),
    decreases s.len() - i,
{
    if i == s.len() {
        assert(s.subrange(0, i) =~= s);
    } else {
        lemma_digits_value_prefix(s.drop_last(), i);
        assert(s.drop_last().subrange(0, i) =~= s.subrange(0, i));
    }
}

/// `s` as a `u32`.
pub fn parse_u32_exec(s: &[u8]) -> (r: Option<u32>)
    ensures
        r == parse_u32(s@),
{
    if s.len() == 0 {
        return None;
    }
    let mut v: u32 = 0;
    let mut i: usize = 0;
    assert(s@.subrange(0, 0) =~= Seq::<u8>::empty());
    while i < s.len()
        invariant
            0 < s@.len(),
            i <= s@.len(),
            forall|k: int| 0 <= k < i ==> is_digit(#[trigger] s@[k]),
            v == digits_value(s@.subrange(0, i as int)),
        decreases s@.len() - i,
    {
        assert(s@.subrange(0, i + 1).drop_last() =~= s@.subrange(0, i as int));
        let c = s[i];
        if c < 48 || c > 57 {
            return None;
        }
        proof {
            lemma_digits_value_prefix(s@, i + 1);
        }
        match v.checked_mul(10) {
            Some(m) => match m.checked_add((c - 48) as u32) {
                Some(x) => {
                    v = x;
                },
                None => {
                    return None;
                },
            },
            None => {
                return None;
            },
        }
        i = i + 1;
    }
    assert(s@.subrange(0, i as int) =~= s@);
    Some(v)
}

fn parse_mask_exec(s: &[u8]) -> (r: Option<u8>)
    ensures
        r == parse_mask(s@),
{
    if s.len() != 5 {
        return None;
    }
    let mut k: usize = 0;
    while k < 5
        invariant
            k <= 5,
            s@.len() == 5,
            forall|j: int| 0 <= j < k ==> (#[trigger] s@[j] == 48 || s@[j] == 49),
        decreases 5 - k,
    {
        if s[k] != 48 && s[k] != 49 {
            return None;
        }
        k = k + 1;
    }
    Some(16 * (s[0] - 48) + 8 * (s[1] - 48) + 4 * (s[2] - 48) + 2 * (s[3] - 48) + (s[4] - 48))
}

fn parse_ids_exec(ws: &Vec<Vec<u8>>, from: usize) -> (r: Option<Vec<u32>>)
    requires
        from <= ws@.len(),
    ensures
        match parse_ids(views(ws@).subrange(from as int, ws@.len() as int)) {
            Some(ids) => r matches Some(v) && v@ == ids,
            None => r is None,
        },
{
    let ghost all = views(ws@).subrange(from as int, ws@.len() as int);
    let mut ids: Vec<u32> = Vec::new();
    let mut i: usize = from;
    assert(all.subrange(0, 0) =~= Seq::<Seq<u8>>::empty());
    while i < ws.len()
        invariant
            from <= i <= ws@.len(),
            all == views(ws@).subrange(from as int, ws@.len() as int),
            parse_ids(all.subrange(0, i - from)) == Some(ids@),
        decreases ws@.len() - i,
    {
        assert(all.subrange(0, i + 1 - from).drop_last() =~= all.subrange(0, i - from));
        assert(all[i - from] == ws@[i as int]@);
        match parse_u32_exec(ws[i].as_slice()) {
            Some(x) => {
                ids.push(x);
            },
            None => {
                proof {
                    lemma_parse_ids_none(all, i + 1 - from);
                }
                return None;
            },
        }
        i = i + 1;
    }
    assert(all.subrange(0, i - from) =~= all);
    Some(ids)
}

proof fn lemma_parse_ids_none(ws: Seq<Seq<u8>>, i: int)
    requires
        0 <= i <= ws.len(),
        parse_ids(ws.subrange(0, i)) is None,
    ensures
        parse_ids(ws) is None,
    decreases ws.len() - i,
{
    if i == ws.len() {
        assert(ws.subrange(0, i) =~= ws);
    } else {
        assert(ws.subrange(0, i + 1).drop_last() =~= ws.subrange(0, i));
        lemma_parse_ids_none(ws, i + 1);
    }
}

/// Reads a logic-block line `ID MASK CHILDREN*`.
pub fn get_logical_block_from_line(line: &[u8]) -> (r: Result<(Node, u32), LoadError>)
    ensures
        match logic_line(line@) {
            Some((id, m, cs)) => r matches Ok((n, i)) && i == id && is_logic_node(n, m, cs),
            None => r == Err::<(Node, u32), LoadError>(LoadError::MalformedLine),
        },
{
    let w = split_words(line);
    let ghost wv = views(w@);
    if w.len() < 2 {
        return Err(LoadError::MalformedLine);
    }
    assert(wv[0] == w@[0]@ && wv[1] == w@[1]@);
    let id = parse_u32_exec(w[0].as_slice());
    let mask = parse_mask_exec(w[1].as_slice());
    let children = parse_ids_exec(&w, 2);
    match (id, mask, children) {
        (Some(id), Some(mask), Some(children)) => {
            assert(mask < 32);
            Ok((Node::LogicBlock(LogicBlock::new(mask, children)), id))
        },
        _ => Err(LoadError::MalformedLine),
    }
}

/// Reads a storing-block line `^ID BUTTON SOURCE CHILDREN*`; the block
/// starts off.
pub fn get_storing_block_from_line(line: &[u8]) -> (r: Result<(Node, u32), LoadError>)
    ensures
        match storing_line(line@) {
            Some((id, b, s, cs)) => r matches Ok((n, i)) && i == id && is_storing_node(n, b, s, cs),
            None => r == Err::<(Node, u32), LoadError>(LoadError::MalformedLine),
        },
{
    let w = split_words(line);
    let ghost wv = views(w@);
    if w.len() < 3 || w[0].len() == 0 || w[0][0] != 94 {
        proof {
            if w@.len() >= 3 {
                assert(wv[0] == w@[0]@);
            }
        }
        return Err(LoadError::MalformedLine);
    }
    assert(wv[0] == w@[0]@ && wv[1] == w@[1]@ && wv[2] == w@[2]@);
    let head = crate::text::sub_bytes(w[0].as_slice(), 1, w[0].len());
    assert(head@ =~= wv[0].drop_first());
    let id = parse_u32_exec(head.as_slice());
    let button = parse_u32_exec(w[1].as_slice());
    let source = parse_u32_exec(w[2].as_slice());
    let children = parse_ids_exec(&w, 3);
    match (id, button, source, children) {
        (Some(id), Some(button), Some(source), Some(children)) => Ok(
            (Node::StoringBlock(StoringBlock::new(false, source, button, children)), id),
        ),
        _ => Err(LoadError::MalformedLine),
    }
}

/// The lines of an object file, empty ones left out.
pub open spec fn object_file_lines(text: Seq<u8>) -> Seq<Seq<u8>> {
    non_empty(split_on(text, 10))
}

/// `m` holds exactly the nodes that the lines `ls` describe, under the ids
/// `ids`, one line each.
pub open spec fn loaded(ls: Seq<Seq<u8>>, ids: Seq<u32>, m: Map<u32, Node>) -> bool {
    &&& ids.len() == ls.len()
    &&& forall|k: int| 0 <= k < ls.len() ==> m.contains_key(#[trigger] ids[k]) && node_of_line(ls[k], m[ids[k]], ids[k])
    &&& forall|x: u32| #[trigger] m.contains_key(x) ==> ids.contains(x)
}

/// Reads every non-empty line of an object file as a node with its id.
pub fn parse_object(text: &[u8]) -> (r: Result<Vec<(Node, u32)>, LoadError>)
    ensures
        r is Ok <==> forall|k: int| 0 <= k < object_file_lines(text@).len() ==> line_ok(#[trigger] object_file_lines(text@)[k]),
        r is Err ==> r == Err::<Vec<(Node, u32)>, LoadError>(LoadError::MalformedLine),
        r matches Ok(v) ==> v@.len() == object_file_lines(text@).len() && forall|k: int| 0 <= k < v@.len()
            ==> node_of_line(object_file_lines(text@)[k], (#[trigger] v@[k]).0, v@[k].1),
{
    let pieces = split_bytes(text, 10);
    let ghost ps = views(pieces@);
    let mut nodes: Vec<(Node, u32)> = Vec::new();
    let mut i: usize = 0;
    assert(ps.subrange(0, 0) =~= Seq::<Seq<u8>>::empty());
    while i < pieces.len()
        invariant
            i <= pieces@.len(),
            ps == views(pieces@),
            ps == split_on(text@, 10),
            nodes@.len() == non_empty(ps.subrange(0, i as int)).len(),
            forall|k: int| 0 <= k < nodes@.len() ==> line_ok(non_empty(ps.subrange(0, i as int))[k]),
            forall|k: int| 0 <= k < nodes@.len() ==> node_of_line(non_empty(ps.subrange(0, i as int))[k], (#[trigger] nodes@[k]).0, nodes@[k].1),
        decreases pieces@.len() - i,
    {
        let ghost pre = ps.subrange(0, i as int);
        let ghost post = ps.subrange(0, i + 1);
        assert(post.drop_last() =~= pre);
        assert(post.last() == pieces@[i as int]@);
        let line = &pieces[i];
        if line.len() > 0 {
            let parsed = if line[0] == 94 {
                get_storing_block_from_line(line.as_slice())
            } else {
                get_logical_block_from_line(line.as_slice())
            };
            match parsed {
                Ok(entry) => {
                    let ghost before = nodes@;
                    nodes.push(entry);
                    assert forall|k: int| 0 <= k < nodes@.len() implies node_of_line(non_empty(post)[k], (#[trigger] nodes@[k]).0, nodes@[k].1) && line_ok(non_empty(post)[k]) by {
                        if k < before.len() {
                            assert(nodes@[k] == before[k]);
                            assert(non_empty(post)[k] == non_empty(pre)[k]);
                        }
                    }
                },
                Err(e) => {
                    proof {
                        lemma_first_bad_line(ps, i as int);
                        assert(object_file_lines(text@) == non_empty(ps));
                        let k = choose|k: int| 0 <= k < non_empty(ps).len() && !line_ok(#[trigger] non_empty(ps)[k]);
                        assert(!line_ok(object_file_lines(text@)[k]));
                    }
                    return Err(e);
                },
            }
        } else {
            assert(non_empty(post) == non_empty(pre));
        }
        i = i + 1;
    }
    assert(ps.subrange(0, i as int) =~= ps);
    Ok(nodes)
}

proof fn lemma_non_empty_prefix(v: Seq<Seq<u8>>, i: int)
    requires
        0 <= i <= v.len(),
    ensures
        non_empty(v.subrange(0, i)).len() <= non_empty(v).len(),
        forall|k: int| 0 <= k < non_empty(v.subrange(0, i)).len() ==> non_empty(v)[k] == non_empty(v.subrange(0, i))[k],
    decreases v.len() - i,
{
    if i == v.len() {
        assert(v.subrange(0, i) =~= v);
    } else {
        lemma_non_empty_prefix(v.drop_last(), i);
        assert(v.drop_last().subrange(0, i) =~= v.subrange(0, i));
    }
}

proof fn lemma_first_bad_line(ps: Seq<Seq<u8>>, i: int)
    requires
        0 <= i < ps.len(),
        ps[i].len() > 0,
        !line_ok(ps[i]),
    ensures
        exists|k: int| 0 <= k < non_empty(ps).len() && !line_ok(#[trigger] non_empty(ps)[k]),
{
    let post = ps.subrange(0, i + 1);
    assert(post.drop_last() =~= ps.subrange(0, i));
    assert(post.last() == ps[i]);
    let k = non_empty(post).len() - 1;
    lemma_non_empty_prefix(ps, i + 1);
    assert(non_empty(ps)[k] == ps[i]);
}

/// The id that an object-file line gives its node.
pub open spec fn line_id(l: Seq<u8>) -> u32 {
    if l.len() > 0 && l[0] == 94 {
        storing_line(l)->Some_0.0
    } else {
        logic_line(l)->Some_0.0
    }
}

/// The ids of the lines, in order.
pub open spec fn line_ids(ls: Seq<Seq<u8>>) -> Seq<u32> {
    Seq::new(ls.len(), |k: int| line_id(ls[k]))
}

/// Every line can be read as a node.
pub open spec fn all_lines_ok(ls: Seq<Seq<u8>>) -> bool {
    forall|k: int| 0 <= k < ls.len() ==> line_ok(#[trigger] ls[k])
}

proof fn lemma_run_never_duplicate(m: Map<u32, Node>, q: Seq<(NodeAction, u32)>, n: nat)
    ensures
        run(m, q, n) != Err::<(Map<u32, Node>, Seq<(NodeAction, u32)>), GraphError>(GraphError::DuplicateNode),
    decreases n,
{
    if n > 0 {
        lemma_run_never_duplicate(m, q, (n - 1) as nat);
        match run(m, q, (n - 1) as nat) {
            Ok((m1, q1)) => {
                assert(step(m1, q1) != Err::<(Map<u32, Node>, Seq<(NodeAction, u32)>), GraphError>(
                    GraphError::DuplicateNode,
                ));
            },
            Err(_) => {},
        }
    }
}

/// Builds a graph from an object file and seeds every node's count: the
/// nodes of the lines under their ids, then an init action for each node in
/// line order, processed until the queue is empty.
pub fn init_map_from_text(text: &[u8]) -> (r: Result<Graph, LoadError>)
    ensures
        (r == Err::<Graph, LoadError>(LoadError::MalformedLine)) <==> !all_lines_ok(object_file_lines(text@)),
        (r == Err::<Graph, LoadError>(LoadError::Graph(GraphError::DuplicateNode))) <==> all_lines_ok(
            object_file_lines(text@),
        ) && !line_ids(object_file_lines(text@)).no_duplicates(),
        r matches Ok(g) ==> g.wf() && g.ids() == line_ids(object_file_lines(text@)) && exists|m0: Map<u32, Node>|
            loaded(object_file_lines(text@), g.ids(), m0) && drained(
                m0,
                init_actions(g.ids()),
                Ok(()),
                g.node_map(),
                g.queue(),
            ),
        forall|e: GraphError|
            r == Err::<Graph, LoadError>(LoadError::Graph(e)) && e != GraphError::DuplicateNode ==> exists|
                m0: Map<u32, Node>,
                m2: Map<u32, Node>,
                q2: Seq<(NodeAction, u32)>,
            |
                loaded(object_file_lines(text@), line_ids(object_file_lines(text@)), m0) && drained(
                    m0,
                    init_actions(line_ids(object_file_lines(text@))),
                    Err(e),
                    m2,
                    q2,
                ),
{
    let ghost ls = object_file_lines(text@);
    let nodes = match parse_object(text) {
        Ok(nodes) => nodes,
        Err(e) => {
            proof {
                let k = choose|k: int| 0 <= k < ls.len() && !line_ok(#[trigger] ls[k]);
                assert(!line_ok(ls[k]));
            }
            return Err(e);
        },
    };
    let ghost nv = nodes@;
    proof {
        assert(entry_ids(nv) =~= line_ids(ls)) by {
            assert forall|k: int| 0 <= k < nv.len() implies entry_ids(nv)[k] == line_ids(ls)[k] by {
                assert(node_of_line(ls[k], nv[k].0, nv[k].1));
            }
        }
    }
    let mut graph = Graph::new();
    match graph.insert_nodes(nodes) {
        Ok(()) => {},
        Err(e) => {
            return Err(LoadError::Graph(e));
        },
    }
    let ghost m0 = graph.node_map();
    proof {
        assert(graph.ids() =~= entry_ids(nv));
        assert forall|k: int| 0 <= k < ls.len() implies m0.contains_key(#[trigger] graph.ids()[k]) && node_of_line(
            ls[k],
            m0[graph.ids()[k]],
            graph.ids()[k],
        ) by {
            assert(graph.ids()[k] == nv[k].1);
            assert(entry_ids(nv).contains(nv[k].1));
        }
        assert forall|x: u32| #[trigger] m0.contains_key(x) implies graph.ids().contains(x) by {
            assert(entry_ids(nv).contains(x));
        }
        assert(graph.queue() + init_actions(graph.ids()) =~= init_actions(graph.ids()));
        assert(loaded(ls, line_ids(ls), m0));
    }
    let ghost ids = graph.ids();
    let ghost q0 = graph.queue();
    match graph.init_graph_state() {
        Ok(()) => {
            assert(q0 + init_actions(ids) == init_actions(graph.ids()));
            assert(drained(m0, init_actions(graph.ids()), Ok(()), graph.node_map(), graph.queue()));
            assert(exists|mm: Map<u32, Node>|
                loaded(ls, graph.ids(), mm) && drained(
                    mm,
                    init_actions(graph.ids()),
                    Ok(()),
                    graph.node_map(),
                    graph.queue(),
                ));
            Ok(graph)
        },
        Err(e) => {
            proof {
                assert(q0 + init_actions(ids) == init_actions(line_ids(ls)));
                assert(drained(m0, init_actions(line_ids(ls)), Err(e), graph.node_map(), graph.queue()));
                if e == GraphError::DuplicateNode {
                    let n = choose|n: nat| run(m0, init_actions(line_ids(ls)), n) == Err::<
                        (Map<u32, Node>, Seq<(NodeAction, u32)>),
                        GraphError,
                    >(e);
                    lemma_run_never_duplicate(m0, init_actions(line_ids(ls)), n);
                }
                assert(exists|a: Map<u32, Node>, b: Map<u32, Node>, c: Seq<(NodeAction, u32)>|
                    loaded(ls, line_ids(ls), a) && drained(a, init_actions(line_ids(ls)), Err(e), b, c));
            }
            Err(LoadError::Graph(e))
        },
    }
}

} // verus!
