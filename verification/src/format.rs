//! The TOON format, stated mathematically.
//!
//! These spec functions define, for each value shape, the exact text the
//! encoder emits: scalars inline, mappings and mixed lists as indented
//! blocks, and homogeneous object lists as tabular blocks with a
//! lexicographically sorted column union. The executable encoders are
//! proved to produce these sequences character for character.

use vstd::prelude::*;
use crate::escape::escape_seq;
use crate::text::{dec_seq, join_plus, sorted_insert, spaces};
use crate::value::Node;

verus! {

/// Every element of the list is a mapping: the shape that selects the
/// tabular block.
pub open spec fn all_mappings(items: Seq<Node>) -> bool {
    forall|i: int| 0 <= i < items.len() ==> items[i] is Mapping
}

/// Whether the mapping has a pair with this key.
pub open spec fn has_key(p: Seq<(Seq<char>, Node)>, c: Seq<char>) -> bool {
    exists|j: int| 0 <= j < p.len() && p[j].0 == c
}

/// The value of the first pair with this key; an empty string value
/// where the key is absent.
pub open spec fn lookup(p: Seq<(Seq<char>, Node)>, c: Seq<char>) -> Node
    decreases p.len(),
{
    if p.len() == 0 {
        Node::Str(Seq::empty())
    } else if p[0].0 == c {
        p[0].1
    } else {
        lookup(p.drop_first(), c)
    }
}

/// A present key's value is one of the mapping's pair values.
pub proof fn lemma_lookup_elem(p: Seq<(Seq<char>, Node)>, c: Seq<char>)
    requires
        has_key(p, c),
    ensures
        exists|j: int| 0 <= j < p.len() && p[j].0 == c && lookup(p, c) == p[j].1,
    decreases p.len(),
{
    if p[0].0 == c {
        assert(p[0].0 == c && lookup(p, c) == p[0].1);
    } else {
        let j0 = choose|j: int| 0 <= j < p.len() && p[j].0 == c;
        assert(p.drop_first()[j0 - 1] == p[j0]);
        assert(has_key(p.drop_first(), c));
        lemma_lookup_elem(p.drop_first(), c);
        let j1 = choose|j: int|
            0 <= j < p.drop_first().len() && p.drop_first()[j].0 == c && lookup(
                p.drop_first(),
                c,
            ) == p.drop_first()[j].1;
        assert(p[j1 + 1].0 == c && lookup(p, c) == p[j1 + 1].1);
    }
}

/// The keys of one mapping, folded into an ordered key list.
pub open spec fn keys_of_pairs(p: Seq<(Seq<char>, Node)>, acc: Seq<Seq<char>>) -> Seq<
    Seq<char>,
>
    decreases p.len(),
{
    if p.len() == 0 {
        acc
    } else {
        keys_of_pairs(p.drop_first(), sorted_insert(acc, p[0].0))
    }
}

/// The sorted union of the keys of every mapping in the list: the
/// tabular column order.
pub open spec fn key_union_from(objs: Seq<Node>, acc: Seq<Seq<char>>) -> Seq<Seq<char>>
    decreases objs.len(),
{
    if objs.len() == 0 {
        acc
    } else {
        key_union_from(
            objs.drop_first(),
            if objs[0] is Mapping {
                keys_of_pairs(objs[0]->Mapping_0, acc)
            } else {
                acc
            },
        )
    }
}

pub open spec fn key_union(objs: Seq<Node>) -> Seq<Seq<char>> {
    key_union_from(objs, Seq::empty())
}

/// The string with each double quote backslash-escaped.
pub open spec fn rep_quotes(s: Seq<char>) -> Seq<char>
    decreases s.len(),
{
    if s.len() == 0 {
        Seq::empty()
    } else if s.last() == '"' {
        rep_quotes(s.drop_last()) + seq!['\\', '"']
    } else {
        rep_quotes(s.drop_last()) + seq![s.last()]
    }
}

/// An already double-quoted token, which the cell renderer leaves alone.
pub open spec fn already_quoted(s: Seq<char>) -> bool {
    s.len() >= 1 && s[0] == '"' && s[s.len() - 1] == '"'
}

/// A scalar cell is quoted when it holds a separator or a newline.
pub open spec fn needs_cell_quote(s: Seq<char>) -> bool {
    s.contains(',') || s.contains('\n') || s.contains(':') || s.contains(';')
}

/// A cell of an inline sub-table is quoted when it holds one of the
/// sub-table's separators.
pub open spec fn quote_semi(s: Seq<char>) -> Seq<char> {
    if s.contains(',') || s.contains(';') || s.contains(':') {
        seq!['"'] + s + seq!['"']
    } else {
        s
    }
}

/// A value of an inline object is quoted when it holds a comma or colon.
pub open spec fn quote_colon(s: Seq<char>) -> Seq<char> {
    if s.contains(',') || s.contains(':') {
        seq!['"'] + s + seq!['"']
    } else {
        s
    }
}

/// The rendering of a scalar cell of a tabular row.
pub open spec fn quote_cell(s: Seq<char>) -> Seq<char> {
    if already_quoted(s) {
        s
    } else if needs_cell_quote(s) {
        seq!['"'] + rep_quotes(s) + seq!['"']
    } else {
        s
    }
}

/// The inline rendering of a value: a scalar's token, or a newline
/// followed by the value's block.
pub open spec fn spec_value(v: Node, ind: nat, lvl: nat) -> Seq<char>
    decreases v, 0int, 0int,
{
    match v {
        Node::Null => seq!['n', 'u', 'l', 'l'],
        Node::Bool(b) => if b {
            seq!['t', 'r', 'u', 'e']
        } else {
            seq!['f', 'a', 'l', 's', 'e']
        },
        Node::Number(s) => s,
        Node::Str(s) => escape_seq(s),
        Node::List(items) => seq!['\n'] + spec_list(items, ind, lvl),
        Node::Mapping(pairs) => seq!['\n'] + spec_dict(pairs, ind, lvl),
    }
}

/// The block rendering of a list: one dash line per element.
pub open spec fn spec_list(items: Seq<Node>, ind: nat, lvl: nat) -> Seq<char>
    decreases items, 1int, 0int,
{
    if items.len() == 0 {
        seq!['[', ']']
    } else {
        join_plus(list_lines(items, ind, lvl), seq!['\n'])
    }
}

pub open spec fn list_lines(items: Seq<Node>, ind: nat, lvl: nat) -> Seq<Seq<char>>
    decreases items, 0int, 0int,
{
    if items.len() == 0 {
        Seq::empty()
    } else {
        list_lines(items.drop_last(), ind, lvl).push(
            spaces(ind * lvl) + seq!['-', ' '] + spec_value(items.last(), ind, lvl),
        )
    }
}

/// The block rendering of a mapping: one entry per pair, in pair order.
pub open spec fn spec_dict(pairs: Seq<(Seq<char>, Node)>, ind: nat, lvl: nat) -> Seq<char>
    decreases pairs, 1int, 0int,
{
    if pairs.len() == 0 {
        seq!['{', '}']
    } else {
        join_plus(dict_chunks(pairs, ind, lvl), seq!['\n'])
    }
}

pub open spec fn dict_chunks(pairs: Seq<(Seq<char>, Node)>, ind: nat, lvl: nat) -> Seq<
    Seq<char>,
>
    decreases pairs, 0int, 0int,
{
    if pairs.len() == 0 {
        Seq::empty()
    } else {
        dict_chunks(pairs.drop_last(), ind, lvl) + dict_entry(
            pairs.last().0,
            pairs.last().1,
            ind,
            lvl,
        )
    }
}

/// The inline token of a mapping entry whose value is a scalar or an
/// empty container: the bracket pair, or the scalar's rendering.
pub open spec fn entry_token(v: Node, ind: nat, lvl: nat) -> Seq<char>
    decreases v, 1int, 0int,
{
    match v {
        Node::List(items) => seq!['[', ']'],
        Node::Mapping(pairs) => seq!['{', '}'],
        _ => spec_value(v, ind, lvl),
    }
}

/// The chunk a mapping entry contributes: a nested block under a
/// `key:` header, a tabular block, or a single `key: value` line.
pub open spec fn dict_entry(k: Seq<char>, v: Node, ind: nat, lvl: nat) -> Seq<Seq<char>>
    decreases v, 2int, 0int,
{
    if v is Mapping && v->Mapping_0.len() > 0 {
        seq![
            spaces(ind * lvl) + k + seq![':'],
            spec_dict(v->Mapping_0, ind, (lvl + 1) as nat),
        ]
    } else if v is List && v->List_0.len() > 0 && all_mappings(v->List_0) {
        seq![spec_tabular(k, v->List_0, ind, lvl)]
    } else if v is List && v->List_0.len() > 0 {
        seq![
            spaces(ind * lvl) + k + seq![':'],
            spec_list(v->List_0, ind, (lvl + 1) as nat),
        ]
    } else {
        seq![
            spaces(ind * lvl) + k + seq![':', ' '] + entry_token(v, ind, (lvl + 1) as nat),
        ]
    }
}

/// The tabular block for a homogeneous object list: a header carrying
/// the count and the sorted column union, then one data row per object.
pub open spec fn spec_tabular(k: Seq<char>, objs: Seq<Node>, ind: nat, lvl: nat) -> Seq<
    char,
>
    decreases objs, 2int, 0int,
{
    if objs.len() == 0 {
        seq!['[', ']']
    } else {
        let cols = key_union(objs);
        if cols.len() == 0 {
            seq!['[', ']']
        } else {
            let header = spaces(ind * lvl) + k + seq!['['] + dec_seq(objs.len())
                + seq![']', '{'] + join_plus(cols, seq![',']) + seq!['}', ':'];
            join_plus(seq![header] + row_lines(objs, cols), seq!['\n'])
        }
    }
}

/// The data rows, one per mapping element, each at a fixed two-space
/// indent.
pub open spec fn row_lines(objs: Seq<Node>, cols: Seq<Seq<char>>) -> Seq<Seq<char>>
    decreases objs, 1int, 0int,
{
    if objs.len() == 0 {
        Seq::empty()
    } else {
        row_lines(objs.drop_last(), cols) + (if objs.last() is Mapping {
            seq![
                seq![' ', ' '] + join_plus(
                    row_cells(objs.last()->Mapping_0, cols),
                    seq![','],
                ),
            ]
        } else {
            Seq::empty()
        })
    }
}

/// The cells of one data row, in column order; an absent column gives
/// an empty cell.
pub open spec fn row_cells(p: Seq<(Seq<char>, Node)>, cols: Seq<Seq<char>>) -> Seq<
    Seq<char>,
>
    decreases p, 3int, cols.len(),
{
    if cols.len() == 0 {
        Seq::empty()
    } else {
        row_cells(p, cols.drop_last()).push(
            if has_key(p, cols.last()) {
                proof {
                    lemma_lookup_elem(p, cols.last());
                    let j = choose|j: int|
                        0 <= j < p.len() && p[j].0 == cols.last() && lookup(
                            p,
                            cols.last(),
                        ) == p[j].1;
                    assert(decreases_to!(p => p[j].1));
                }
                cell_str(lookup(p, cols.last()))
            } else {
                Seq::empty()
            },
        )
    }
}

/// The rendering of one tabular cell value.
pub open spec fn cell_str(v: Node) -> Seq<char>
    decreases v, 2int, 0int,
{
    match v {
        Node::List(items) => if items.len() == 0 {
            seq!['[', ']']
        } else if all_mappings(items) {
            inline_table(items)
        } else {
            seq!['['] + join_plus(bracket_items(items), seq![',']) + seq![']']
        },
        Node::Mapping(pairs) => seq!['{'] + join_plus(
            inline_obj_items(pairs, keys_of_pairs(pairs, Seq::empty())),
            seq![','],
        ) + seq!['}'],
        _ => quote_cell(spec_value(v, 0, 0)),
    }
}

/// The inline renderings of the elements of a primitive list cell.
pub open spec fn bracket_items(items: Seq<Node>) -> Seq<Seq<char>>
    decreases items, 0int, 0int,
{
    if items.len() == 0 {
        Seq::empty()
    } else {
        bracket_items(items.drop_last()).push(spec_value(items.last(), 0, 0))
    }
}

/// The compact inline sub-table for a list-of-objects cell.
pub open spec fn inline_table(items: Seq<Node>) -> Seq<char>
    decreases items, 2int, 0int,
{
    let nk = key_union(items);
    seq!['['] + dec_seq(items.len()) + seq![']', '{'] + join_plus(nk, seq![','])
        + seq!['}', ':'] + join_plus(inline_rows(items, nk), seq![';'])
}

/// The semicolon-separated rows of an inline sub-table.
pub open spec fn inline_rows(items: Seq<Node>, nk: Seq<Seq<char>>) -> Seq<Seq<char>>
    decreases items, 1int, 0int,
{
    if items.len() == 0 {
        Seq::empty()
    } else {
        inline_rows(items.drop_last(), nk) + (if items.last() is Mapping {
            seq![join_plus(inline_cells(items.last()->Mapping_0, nk), seq![','])]
        } else {
            Seq::empty()
        })
    }
}

/// The cells of one inline sub-table row.
pub open spec fn inline_cells(np: Seq<(Seq<char>, Node)>, nk: Seq<Seq<char>>) -> Seq<
    Seq<char>,
>
    decreases np, 3int, nk.len(),
{
    if nk.len() == 0 {
        Seq::empty()
    } else {
        inline_cells(np, nk.drop_last()).push(
            quote_semi(
                if has_key(np, nk.last()) {
                    proof {
                        lemma_lookup_elem(np, nk.last());
                        let j = choose|j: int|
                            0 <= j < np.len() && np[j].0 == nk.last() && lookup(
                                np,
                                nk.last(),
                            ) == np[j].1;
                        assert(decreases_to!(np => np[j].1));
                    }
                    spec_value(lookup(np, nk.last()), 0, 0)
                } else {
                    Seq::empty()
                },
            ),
        )
    }
}

/// The `key:value` items of an inline object cell, over its sorted keys.
pub open spec fn inline_obj_items(p: Seq<(Seq<char>, Node)>, ks: Seq<Seq<char>>) -> Seq<
    Seq<char>,
>
    decreases p, 3int, ks.len(),
{
    if ks.len() == 0 {
        Seq::empty()
    } else {
        inline_obj_items(p, ks.drop_last()).push(
            ks.last() + seq![':'] + quote_colon(
                if has_key(p, ks.last()) {
                    proof {
                        lemma_lookup_elem(p, ks.last());
                        let j = choose|j: int|
                            0 <= j < p.len() && p[j].0 == ks.last() && lookup(
                                p,
                                ks.last(),
                            ) == p[j].1;
                        assert(decreases_to!(p => p[j].1));
                    }
                    spec_value(lookup(p, ks.last()), 0, 0)
                } else {
                    Seq::empty()
                },
            ),
        )
    }
}

/// The format selector: the top-level rendering of any value.
pub open spec fn spec_encode(v: Node, ind: nat, lvl: nat) -> Seq<char> {
    match v {
        Node::List(items) => if items.len() == 0 {
            seq!['[', ']']
        } else if all_mappings(items) {
            spec_tabular(Seq::empty(), items, ind, lvl)
        } else {
            spec_list(items, ind, lvl)
        },
        Node::Mapping(pairs) => spec_dict(pairs, ind, lvl),
        _ => spec_value(v, ind, lvl),
    }
}

} // verus!
