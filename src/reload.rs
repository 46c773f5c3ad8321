use vstd::prelude::*;

use crate::compiler::{
    edges_resolve, index_of, add_ids, children_of, children_text, compile_text, decimal, decl_line, declarations, declare_fold, mask_of,
    mask_text, object_lines, scan, sections, Decls,
};
use crate::interpreter::{digits_value, is_digit, logic_line, object_file_lines, parse_ids, parse_mask, parse_u32};
use crate::text::{non_empty, split_on, words};

verus! {

proof fn lemma_split_concat(x: Seq<u8>, y: Seq<u8>, sep: u8)
    ensures
        split_on(x + seq![sep] + y, sep) == split_on(x, sep) + split_on(y, sep),
    decreases y.len(),
{
    let z = x + seq![sep] + y;
    if y.len() == 0 {
        assert(z.drop_last() =~= x);
        assert(split_on(x, sep).push(Seq::<u8>::empty()) =~= split_on(x, sep) + split_on(y, sep));
    } else {
        assert(z.drop_last() =~= x + seq![sep] + y.drop_last());
        lemma_split_concat(x, y.drop_last(), sep);
        crate::text::lemma_split_on_nonempty(y.drop_last(), sep);
        let a = split_on(x, sep);
        let b = split_on(y.drop_last(), sep);
        if y.last() == sep {
            assert((a + b).push(Seq::<u8>::empty()) =~= a + b.push(Seq::<u8>::empty()));
        } else {
            assert((a + b).update((a + b).len() - 1, (a + b).last().push(y.last())) =~= a + b.update(
                b.len() - 1,
                b.last().push(y.last()),
            ));
        }
    }
}

proof fn lemma_split_no_sep(x: Seq<u8>, sep: u8)
    requires
        forall|k: int| 0 <= k < x.len() ==> x[k] != sep,
    ensures
        split_on(x, sep) == seq![x],
    decreases x.len(),
{
    if x.len() > 0 {
        lemma_split_no_sep(x.drop_last(), sep);
        assert(x.drop_last().push(x.last()) =~= x);
        assert(seq![x.drop_last()].update(0, x.drop_last().push(x.last())) =~= seq![x]);
    } else {
        assert(x =~= Seq::<u8>::empty());
    }
}

proof fn lemma_non_empty_all(v: Seq<Seq<u8>>)
    requires
        forall|k: int| 0 <= k < v.len() ==> (#[trigger] v[k]).len() > 0,
    ensures
        non_empty(v) == v,
    decreases v.len(),
{
    if v.len() > 0 {
        lemma_non_empty_all(v.drop_last());
        assert(v.drop_last().push(v.last()) =~= v);
    }
}

proof fn lemma_decimal(n: nat)
    ensures
        decimal(n).len() > 0,
        forall|k: int| 0 <= k < decimal(n).len() ==> is_digit(#[trigger] decimal(n)[k]),
        digits_value(decimal(n)) == n,
    decreases n,
{
    if n >= 10 {
        lemma_decimal(n / 10);
        let d = decimal(n);
        assert(d.drop_last() =~= decimal(n / 10));
        assert((n / 10) * 10 + n % 10 == n) by (nonlinear_arith);
        assert(digits_value(d) == digits_value(d.drop_last()) * 10 + (d.last() - 48) as nat);
        assert forall|k: int| 0 <= k < d.len() implies is_digit(#[trigger] d[k]) by {
            if k < d.len() - 1 {
                assert(d[k] == decimal(n / 10)[k]);
            }
        }
    } else {
        assert(decimal(n).drop_last() =~= Seq::<u8>::empty());
        assert(digits_value(decimal(n)) == digits_value(Seq::<u8>::empty()) * 10 + (decimal(n).last() - 48) as nat);
    }
}

proof fn lemma_parse_decimal(n: nat)
    requires
        n <= u32::MAX,
    ensures
        parse_u32(decimal(n)) == Some(n as u32),
{
    lemma_decimal(n);
}

proof fn lemma_parse_mask(m: u8)
    requires
        m < 32,
    ensures
        parse_mask(mask_text(m)) == Some(m),
{
    let t = mask_text(m);
    assert(t[0] == if (m >> 4u8) & 1u8 == 1u8 { 49u8 } else { 48u8 });
    assert(t[1] == if (m >> 3u8) & 1u8 == 1u8 { 49u8 } else { 48u8 });
    assert(t[2] == if (m >> 2u8) & 1u8 == 1u8 { 49u8 } else { 48u8 });
    assert(t[3] == if (m >> 1u8) & 1u8 == 1u8 { 49u8 } else { 48u8 });
    assert(t[4] == if (m >> 0u8) & 1u8 == 1u8 { 49u8 } else { 48u8 });
    assert(m < 32 ==> m == 16 * ((m >> 4u8) & 1u8) + 8 * ((m >> 3u8) & 1u8) + 4 * ((m >> 2u8) & 1u8) + 2 * ((m
        >> 1u8) & 1u8) + ((m >> 0u8) & 1u8)) by (bit_vector);
    assert(((m >> 4u8) & 1u8) <= 1 && ((m >> 3u8) & 1u8) <= 1 && ((m >> 2u8) & 1u8) <= 1 && ((m >> 1u8) & 1u8) <= 1
        && ((m >> 0u8) & 1u8) <= 1) by (bit_vector);
}

/// The byte-level pieces of a node line's tail: the mask, then each child.
proof fn lemma_split_children(prefix: Seq<u8>, cs: Seq<nat>)
    requires
        forall|k: int| 0 <= k < prefix.len() ==> prefix[k] != 32,
    ensures
        split_on(prefix + children_text(cs), 32) == seq![prefix] + Seq::new(cs.len(), |k: int| decimal(cs[k])),
    decreases cs.len(),
{
    if cs.len() == 0 {
        assert(prefix + children_text(cs) =~= prefix);
        lemma_split_no_sep(prefix, 32);
        assert(seq![prefix] + Seq::new(cs.len(), |k: int| decimal(cs[k])) =~= seq![prefix]);
    } else {
        let init = cs.drop_last();
        lemma_split_children(prefix, init);
        assert(prefix + children_text(cs) =~= (prefix + children_text(init)) + seq![32u8] + decimal(cs.last()));
        lemma_split_concat(prefix + children_text(init), decimal(cs.last()), 32);
        lemma_decimal(cs.last());
        assert forall|k: int| 0 <= k < decimal(cs.last()).len() implies decimal(cs.last())[k] != 32 by {
            assert(is_digit(decimal(cs.last())[k]));
        }
        lemma_split_no_sep(decimal(cs.last()), 32);
        assert(seq![prefix] + Seq::new(init.len(), |k: int| decimal(init[k])) + seq![decimal(cs.last())] =~= seq![
            prefix,
        ] + Seq::new(cs.len(), |k: int| decimal(cs[k])));
    }
}

proof fn lemma_children_text_bytes(cs: Seq<nat>)
    ensures
        forall|k: int| 0 <= k < children_text(cs).len() ==> #[trigger] children_text(cs)[k] != 10,
    decreases cs.len(),
{
    if cs.len() > 0 {
        lemma_children_text_bytes(cs.drop_last());
        lemma_decimal(cs.last());
        let t = children_text(cs);
        let a = children_text(cs.drop_last());
        assert forall|k: int| 0 <= k < t.len() implies #[trigger] t[k] != 10 by {
            if k < a.len() {
                assert(t[k] == a[k]);
            } else if k > a.len() {
                assert(t[k] == decimal(cs.last())[k - a.len() - 1]);
                assert(is_digit(decimal(cs.last())[k - a.len() - 1]));
            }
        }
    }
}

proof fn lemma_parse_decimals(cs: Seq<nat>)
    requires
        forall|k: int| 0 <= k < cs.len() ==> #[trigger] cs[k] <= u32::MAX,
    ensures
        parse_ids(Seq::new(cs.len(), |k: int| decimal(cs[k]))) == Some(Seq::new(cs.len(), |k: int| cs[k] as u32)),
    decreases cs.len(),
{
    let ws = Seq::new(cs.len(), |k: int| decimal(cs[k]));
    if cs.len() > 0 {
        let init = cs.drop_last();
        lemma_parse_decimals(init);
        assert(ws.drop_last() =~= Seq::new(init.len(), |k: int| decimal(init[k])));
        lemma_parse_decimal(cs.last());
        assert(Seq::new(init.len(), |k: int| init[k] as u32).push(cs.last() as u32) =~= Seq::new(
            cs.len(),
            |k: int| cs[k] as u32,
        ));
    } else {
        assert(ws =~= Seq::<Seq<u8>>::empty());
        assert(Seq::new(cs.len(), |k: int| cs[k] as u32) =~= Seq::<u32>::empty());
    }
}

/// The text of node line `i` without its newline.
pub open spec fn line_content(i: nat, m: u8, cs: Seq<nat>) -> Seq<u8> {
    decimal(i + 1) + seq![32u8] + mask_text(m) + children_text(cs)
}

proof fn lemma_line_content(i: nat, m: u8, cs: Seq<nat>)
    requires
        m < 32,
        i + 1 <= u32::MAX,
        forall|k: int| 0 <= k < cs.len() ==> #[trigger] cs[k] <= u32::MAX,
    ensures
        line_content(i, m, cs).len() > 0,
        line_content(i, m, cs)[0] != 94,
        forall|k: int| 0 <= k < line_content(i, m, cs).len() ==> #[trigger] line_content(i, m, cs)[k] != 10,
        logic_line(line_content(i, m, cs)) == Some(((i + 1) as u32, m, Seq::new(cs.len(), |k: int| cs[k] as u32))),
{
    let d = decimal(i + 1);
    let mt = mask_text(m);
    let c = line_content(i, m, cs);
    lemma_decimal(i + 1);
    lemma_children_text_bytes(cs);
    assert(c[0] == d[0]);
    assert(is_digit(d[0]));
    assert forall|k: int| 0 <= k < c.len() implies #[trigger] c[k] != 10 by {
        if k < d.len() {
            assert(c[k] == d[k]);
            assert(is_digit(d[k]));
        } else if k > d.len() && k < d.len() + 6 {
            assert(c[k] == mt[k - d.len() - 1]);
        } else if k >= d.len() + 6 {
            assert(c[k] == children_text(cs)[k - d.len() - 6]);
        }
    }
    assert forall|k: int| 0 <= k < mt.len() implies mt[k] != 32 by {}
    lemma_split_children(mt, cs);
    assert(c =~= d + seq![32u8] + (mt + children_text(cs)));
    lemma_split_concat(d, mt + children_text(cs), 32);
    assert forall|k: int| 0 <= k < d.len() implies d[k] != 32 by {
        assert(is_digit(d[k]));
    }
    lemma_split_no_sep(d, 32);
    let pieces = seq![d] + (seq![mt] + Seq::new(cs.len(), |k: int| decimal(cs[k])));
    assert(split_on(c, 32) == pieces);
    assert forall|k: int| 0 <= k < pieces.len() implies (#[trigger] pieces[k]).len() > 0 by {
        if k >= 2 {
            assert(pieces[k] == decimal(cs[k - 2]));
            lemma_decimal(cs[k - 2]);
        }
    }
    lemma_non_empty_all(pieces);
    let w = words(c);
    assert(w == pieces);
    assert(w.subrange(2, w.len() as int) =~= Seq::new(cs.len(), |k: int| decimal(cs[k])));
    lemma_parse_decimal(i + 1);
    lemma_parse_mask(m);
    lemma_parse_decimals(cs);
}

proof fn lemma_split_lines(names: Seq<Seq<u8>>, masks: Seq<u8>, edges: Seq<(Seq<u8>, Seq<u8>)>, n: nat, w: Seq<u8>)
    requires
        n <= names.len(),
        n <= masks.len(),
        forall|k: int| 0 <= k < n ==> #[trigger] masks[k] < 32,
        names.len() < u32::MAX,
        edges_resolve(names, edges),
    ensures
        split_on(object_lines(names, masks, edges, n) + w, 10) == Seq::new(
            n,
            |i: int| line_content(i as nat, masks[i], children_of(names, edges, i)),
        ) + split_on(w, 10),
    decreases n,
{
    if n == 0 {
        assert(object_lines(names, masks, edges, n) + w =~= w);
        assert(Seq::new(n, |i: int| line_content(i as nat, masks[i], children_of(names, edges, i))) + split_on(w, 10)
            =~= split_on(w, 10));
    } else {
        let i = (n - 1) as nat;
        let c = line_content(i, masks[i as int], children_of(names, edges, i as int));
        let w2 = c + seq![10u8] + w;
        assert(object_lines(names, masks, edges, n) + w =~= object_lines(names, masks, edges, i) + w2);
        lemma_split_lines(names, masks, edges, i, w2);
        lemma_children_bound(names, edges, i as int);
        lemma_line_content(i, masks[i as int], children_of(names, edges, i as int));
        lemma_split_concat(c, w, 10);
        lemma_split_no_sep(c, 10);
        assert(Seq::new(i, |j: int| line_content(j as nat, masks[j], children_of(names, edges, j))) + (seq![c]
            + split_on(w, 10)) =~= Seq::new(n, |j: int| line_content(j as nat, masks[j], children_of(names, edges, j)))
            + split_on(w, 10));
    }
}

proof fn lemma_children_bound(names: Seq<Seq<u8>>, edges: Seq<(Seq<u8>, Seq<u8>)>, i: int)
    requires
        names.len() < u32::MAX,
        edges_resolve(names, edges),
    ensures
        forall|k: int| 0 <= k < children_of(names, edges, i).len() ==> #[trigger] children_of(names, edges, i)[k]
            <= u32::MAX,
    decreases edges.len(),
{
    if edges.len() > 0 {
        assert(edges_resolve(names, edges.drop_last())) by {
            assert forall|k: int| 0 <= k < edges.drop_last().len() implies index_of(names, (#[trigger] edges.drop_last()[k]).0) is Some
                && index_of(names, edges.drop_last()[k].1) is Some by {
                assert(edges.drop_last()[k] == edges[k]);
            }
        }
        assert(edges.last() == edges[edges.len() - 1]);
        lemma_children_bound(names, edges.drop_last(), i);
        let c = children_of(names, edges.drop_last(), i);
        if index_of(names, edges.last().0) == Some(i) {
            crate::compiler::lemma_index_of_bounds(names, edges.last().1);
            assert forall|k: int| 0 <= k < children_of(names, edges, i).len() implies #[trigger] children_of(
                names,
                edges,
                i,
            )[k] <= u32::MAX by {
                if k < c.len() {
                    assert(children_of(names, edges, i)[k] == c[k]);
                }
            }
        }
    }
}

proof fn lemma_mask_of_small(pieces: Seq<Seq<u8>>)
    ensures
        mask_of(pieces) matches Ok(m) ==> m < 32,
    decreases pieces.len(),
{
    if pieces.len() > 0 {
        lemma_mask_of_small(pieces.drop_last());
        match mask_of(pieces.drop_last()) {
            Ok(m) => {
                let d = crate::text::trim(pieces.last());
                if d.len() == 1 && 48 <= d[0] <= 52 {
                    let k = (d[0] - 48) as u8;
                    assert(m < 32 && k <= 4 ==> (m | (1u8 << k)) < 32) by (bit_vector);
                }
            },
            Err(_) => {},
        }
    }
}

proof fn lemma_add_ids_small(st: Decls, ids: Seq<Seq<u8>>, m: u8)
    requires
        m < 32,
        forall|k: int| 0 <= k < st.1.len() ==> #[trigger] st.1[k] < 32,
    ensures
        add_ids(st, ids, m) matches Ok(d) ==> forall|k: int| 0 <= k < d.1.len() ==> #[trigger] d.1[k] < 32,
    decreases ids.len(),
{
    if ids.len() > 0 {
        lemma_add_ids_small(st, ids.drop_last(), m);
    }
}

proof fn lemma_declare_small(st: Decls, lines: Seq<Seq<u8>>, is_input: bool)
    requires
        forall|k: int| 0 <= k < st.1.len() ==> #[trigger] st.1[k] < 32,
    ensures
        declare_fold(st, lines, is_input) matches Ok(d) ==> forall|k: int| 0 <= k < d.1.len() ==> #[trigger] d.1[k]
            < 32,
    decreases lines.len(),
{
    if lines.len() > 0 {
        lemma_declare_small(st, lines.drop_last(), is_input);
        match declare_fold(st, lines.drop_last(), is_input) {
            Ok(st2) => {
                let l = lines.last();
                let t = crate::text::trim(l);
                match crate::text::find_pair(t, 45, 62) {
                    Some(i) => {
                        let rhs = crate::text::trim(t.subrange(i + 2, t.len() as int));
                        match crate::text::find_byte(rhs, 32) {
                            Some(sp) => lemma_mask_of_small(split_on(rhs.subrange(sp + 1, rhs.len() as int), 44)),
                            None => {},
                        }
                    },
                    None => {},
                }
                match decl_line(l, is_input) {
                    Ok((ids, m)) => lemma_add_ids_small(st2, ids, m),
                    Err(_) => {},
                }
            },
            Err(_) => {},
        }
    }
}

/// Loading the object file that a source compiles to gives back every
/// declared node, in declaration order under the ids 1, 2, ..., each a
/// logic block with its declared mask and, as children, the ids of the
/// targets of its links in the order they were declared.
pub proof fn law_compiled_object_reloads(src: Seq<u8>)
    requires
        compile_text(src) is Ok,
        declarations(sections(src)->Ok_0)->Ok_0.0.len() < u32::MAX,
    ensures
        ({
            let names = declarations(sections(src)->Ok_0)->Ok_0.0;
            let masks = declarations(sections(src)->Ok_0)->Ok_0.1;
            let edges = scan(sections(src)->Ok_0[3], Seq::empty(), 0)->Ok_0.0;
            let ls = object_file_lines(compile_text(src)->Ok_0);
            &&& ls.len() == names.len()
            &&& forall|i: int|
                0 <= i < names.len() ==> (#[trigger] ls[i]).len() > 0 && ls[i][0] != 94 && logic_line(ls[i])
                    == Some(
                    (
                        (i + 1) as u32,
                        masks[i],
                        Seq::new(children_of(names, edges, i).len(), |k: int| children_of(names, edges, i)[k] as u32),
                    ),
                )
        }),
{
    let secs = sections(src)->Ok_0;
    let names = declarations(secs)->Ok_0.0;
    let masks = declarations(secs)->Ok_0.1;
    let edges = scan(secs[3], Seq::empty(), 0)->Ok_0.0;
    crate::compiler::lemma_decls_lengths((Seq::empty(), Seq::empty()), secs);
    let e = (Seq::<Seq<u8>>::empty(), Seq::<u8>::empty());
    lemma_declare_small(e, secs[0], true);
    let st1 = declare_fold(e, secs[0], true)->Ok_0;
    lemma_declare_small(st1, secs[1], false);
    let st2 = declare_fold(st1, secs[1], false)->Ok_0;
    lemma_declare_small(st2, secs[2], false);
    let text = object_lines(names, masks, edges, names.len());
    assert(compile_text(src)->Ok_0 == text);
    lemma_split_lines(names, masks, edges, names.len(), Seq::empty());
    assert(text + Seq::<u8>::empty() =~= text);
    let contents = Seq::new(names.len(), |i: int| line_content(i as nat, masks[i], children_of(names, edges, i)));
    assert forall|i: int| 0 <= i < names.len() implies {
        &&& (#[trigger] contents[i]).len() > 0
        &&& contents[i][0] != 94
        &&& logic_line(contents[i]) == Some(
            (
                (i + 1) as u32,
                masks[i],
                Seq::new(children_of(names, edges, i).len(), |k: int| children_of(names, edges, i)[k] as u32),
            ),
        )
    } by {
        lemma_children_bound(names, edges, i);
        lemma_line_content(i as nat, masks[i], children_of(names, edges, i));
    }
    assert(contents.push(Seq::<u8>::empty()).drop_last() =~= contents);
    assert(non_empty(contents.push(Seq::<u8>::empty())) == non_empty(contents));
    assert(split_on(Seq::<u8>::empty(), 10) == seq![Seq::<u8>::empty()]);
    assert(contents + seq![Seq::<u8>::empty()] =~= contents.push(Seq::<u8>::empty()));
    lemma_non_empty_all(contents);
}

} // verus!
