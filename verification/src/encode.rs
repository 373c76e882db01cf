//! The executable encoders: each one is proved to emit exactly the text
//! that the spec functions of `format` define.

use vstd::prelude::*;
use crate::escape::escape_string;
use crate::format::{
    all_mappings, already_quoted, bracket_items, cell_str, dict_chunks, dict_entry,
    entry_token, has_key, inline_cells, inline_obj_items, inline_rows, inline_table, key_union,
    key_union_from, keys_of_pairs, list_lines, lookup,
    needs_cell_quote, quote_cell, quote_colon, quote_semi, rep_quotes, row_cells,
    row_lines, spec_dict, spec_encode, spec_list, spec_tabular, spec_value,
};
use crate::text::{
    contains_char, dec_seq, indent_prefix, insert_sorted, join_plus, spaces,
    usize_to_string, views_of,
};
use crate::value::{
    depth, entries_of, lemma_entries_of, lemma_entries_of_len, lemma_list_depth,
    lemma_map_depth, lemma_nodes_of, lemma_nodes_of_len, list_depth, map_depth, node_of,
    nodes_of, Node, Value,
};

verus! {

/// Whether every element of the list is a mapping (the tabular shape).
pub fn all_objects(items: &Vec<Value>) -> (r: bool)
    ensures
        r == all_mappings(nodes_of(items@)),
{
    proof {
        lemma_nodes_of_len(items@);
    }
    let mut i: usize = 0;
    while i < items.len()
        invariant
            0 <= i <= items@.len(),
            nodes_of(items@).len() == items@.len(),
            forall|j: int| 0 <= j < i ==> nodes_of(items@)[j] is Mapping,
        decreases items@.len() - i,
    {
        proof {
            lemma_nodes_of(items@, i as int);
        }
        match &items[i] {
            Value::Mapping(_) => {},
            _ => {
                proof {
                    assert(!(nodes_of(items@)[i as int] is Mapping));
                }
                return false;
            },
        }
        i = i + 1;
    }
    true
}

/// `lookup` returns the value of the first pair carrying the key.
proof fn lemma_lookup_prefix(p: Seq<(Seq<char>, Node)>, c: Seq<char>, j: int)
    requires
        0 <= j < p.len(),
        p[j].0 == c,
        forall|l: int| 0 <= l < j ==> p[l].0 != c,
    ensures
        has_key(p, c),
        lookup(p, c) == p[j].1,
    decreases j,
{
    if j == 0 {
        assert(p[0].0 == c);
    } else {
        assert(p[0].0 != c);
        assert(forall|l: int|
            0 <= l < j - 1 ==> p.drop_first()[l].0 != c);
        assert(p.drop_first()[j - 1] == p[j]);
        lemma_lookup_prefix(p.drop_first(), c, j - 1);
        let j1 = choose|l: int| 0 <= l < p.drop_first().len() && p.drop_first()[l].0 == c;
        assert(p[j1 + 1].0 == c);
    }
}

/// Finds the first pair with key `k`, as its index.
pub fn find_key(pairs: &Vec<(String, Value)>, k: &String) -> (r: Option<usize>)
    ensures
        match r {
            Option::Some(j) => {
                &&& (j as int) < pairs@.len()
                &&& has_key(entries_of(pairs@), k@)
                &&& lookup(entries_of(pairs@), k@) == entries_of(pairs@)[j as int].1
                &&& entries_of(pairs@)[j as int].1 == node_of(pairs@[j as int].1)
            },
            Option::None => !has_key(entries_of(pairs@), k@),
        },
{
    let ghost p = entries_of(pairs@);
    proof {
        lemma_entries_of_len(pairs@);
    }
    let mut j: usize = 0;
    while j < pairs.len()
        invariant
            p == entries_of(pairs@),
            p.len() == pairs@.len(),
            0 <= j <= pairs@.len(),
            forall|l: int| 0 <= l < j ==> p[l].0 != k@,
        decreases pairs@.len() - j,
    {
        proof {
            lemma_entries_of(pairs@, j as int);
        }
        let same = pairs[j].0.eq(k);
        if same {
            proof {
                lemma_lookup_prefix(p, k@, j as int);
            }
            return Option::Some(j);
        }
        j = j + 1;
    }
    proof {
        assert(!has_key(p, k@)) by {
            assert(forall|l: int| 0 <= l < p.len() ==> p[l].0 != k@);
        }
    }
    Option::None
}

/// Joins rendered parts with a separator.
pub fn join_strings(parts: &Vec<String>, sep: &str) -> (r: String)
    ensures
        r@ == join_plus(views_of(parts@), sep@),
{
    let mut r = String::new();
    let mut i: usize = 0;
    while i < parts.len()
        invariant
            0 <= i <= parts@.len(),
            views_of(parts@).len() == parts@.len(),
            r@ == join_plus(views_of(parts@).take(i as int), sep@),
        decreases parts@.len() - i,
    {
        if i > 0 {
            r.append(sep);
        }
        r.append(parts[i].as_str());
        proof {
            let vs = views_of(parts@);
            assert(vs.take(i + 1).drop_last() =~= vs.take(i as int));
            assert(vs.take(i + 1).last() == vs[i as int]);
            if i == 0 {
                assert(join_plus(vs.take(1int), sep@) == vs[0]);
                assert(r@ =~= vs[0]);
            } else {
                assert(join_plus(vs.take(i + 1), sep@) == join_plus(
                    vs.take(i as int),
                    sep@,
                ) + sep@ + vs[i as int]);
                assert(r@ =~= join_plus(vs.take(i as int), sep@) + sep@ + vs[i as int]);
            }
        }
        i = i + 1;
    }
    proof {
        assert(views_of(parts@).take(parts@.len() as int) =~= views_of(parts@));
    }
    r
}

/// The sorted key union across the mapping elements of a list.
pub fn union_keys(arr: &Vec<Value>) -> (r: Vec<String>)
    ensures
        views_of(r@) == key_union(nodes_of(arr@)),
{
    let ghost nodes = nodes_of(arr@);
    proof {
        lemma_nodes_of_len(arr@);
        assert(nodes.skip(0int) =~= nodes);
        assert(views_of(Seq::<String>::empty()) =~= Seq::<Seq<char>>::empty());
    }
    let mut keys: Vec<String> = Vec::new();
    let mut i: usize = 0;
    while i < arr.len()
        invariant
            nodes == nodes_of(arr@),
            nodes.len() == arr@.len(),
            0 <= i <= arr@.len(),
            key_union_from(nodes.skip(i as int), views_of(keys@)) == key_union(nodes),
        decreases arr@.len() - i,
    {
        proof {
            lemma_nodes_of(arr@, i as int);
            assert(nodes.skip(i as int)[0] == nodes[i as int]);
            assert(nodes.skip(i as int).drop_first() =~= nodes.skip(i + 1));
        }
        match &arr[i] {
            Value::Mapping(pairs) => {
                proof {
                    lemma_entries_of_len(pairs@);
                }
                let ghost p = entries_of(pairs@);
                let ghost acc0 = views_of(keys@);
                let mut t: usize = 0;
                proof {
                    assert(p.skip(0int) =~= p);
                }
                while t < pairs.len()
                    invariant
                        p == entries_of(pairs@),
                        p.len() == pairs@.len(),
                        0 <= t <= pairs@.len(),
                        keys_of_pairs(p.skip(t as int), views_of(keys@)) == keys_of_pairs(
                            p,
                            acc0,
                        ),
                    decreases pairs@.len() - t,
                {
                    proof {
                        lemma_entries_of(pairs@, t as int);
                        assert(p.skip(t as int)[0] == p[t as int]);
                        assert(p.skip(t as int).drop_first() =~= p.skip(t + 1));
                    }
                    insert_sorted(&mut keys, &pairs[t].0);
                    t = t + 1;
                }
                proof {
                    assert(p.skip(pairs@.len() as int).len() == 0);
                    assert(keys_of_pairs(p.skip(pairs@.len() as int), views_of(keys@))
                        == views_of(keys@));
                    assert(nodes[i as int] == Node::Mapping(p));
                }
            },
            _ => {
                proof {
                    assert(!(nodes[i as int] is Mapping));
                }
            },
        }
        i = i + 1;
    }
    proof {
        assert(nodes.skip(arr@.len() as int).len() == 0);
    }
    keys
}

/// Quotes an inline sub-table cell that holds a separator.
pub fn quote_semi_string(s: String) -> (r: String)
    ensures
        r@ == quote_semi(s@),
{
    let c1 = contains_char(s.as_str(), ',');
    let c2 = contains_char(s.as_str(), ';');
    let c3 = contains_char(s.as_str(), ':');
    if c1 || c2 || c3 {
        let mut r = String::new();
        r.append("\"");
        r.append(s.as_str());
        r.append("\"");
        proof {
            reveal_strlit("\"");
            assert(r@ =~= seq!['"'] + s@ + seq!['"']);
        }
        r
    } else {
        s
    }
}

/// Quotes an inline object value that holds a comma or colon.
pub fn quote_colon_string(s: String) -> (r: String)
    ensures
        r@ == quote_colon(s@),
{
    let c1 = contains_char(s.as_str(), ',');
    let c2 = contains_char(s.as_str(), ':');
    if c1 || c2 {
        let mut r = String::new();
        r.append("\"");
        r.append(s.as_str());
        r.append("\"");
        proof {
            reveal_strlit("\"");
            assert(r@ =~= seq!['"'] + s@ + seq!['"']);
        }
        r
    } else {
        s
    }
}

/// Renders a scalar cell of a tabular row: quoted, with embedded double
/// quotes escaped, when it holds a separator or newline.
pub fn quote_cell_string(s: String) -> (r: String)
    ensures
        r@ == quote_cell(s@),
{
    let n = s.as_str().unicode_len();
    if n >= 1 {
        let first = s.as_str().get_char(0);
        let last = s.as_str().get_char(n - 1);
        if first == '"' && last == '"' {
            proof {
                assert(already_quoted(s@));
            }
            return s;
        }
    }
    proof {
        assert(!already_quoted(s@));
    }
    let c1 = contains_char(s.as_str(), ',');
    let c2 = contains_char(s.as_str(), '\n');
    let c3 = contains_char(s.as_str(), ':');
    let c4 = contains_char(s.as_str(), ';');
    if !(c1 || c2 || c3 || c4) {
        proof {
            assert(!needs_cell_quote(s@));
        }
        return s;
    }
    let mut r = String::new();
    r.append("\"");
    proof {
        reveal_strlit("\"");
        assert(s@.take(0int) =~= Seq::<char>::empty());
        assert(r@ =~= seq!['"'] + rep_quotes(s@.take(0int)));
    }
    let mut i: usize = 0;
    while i < n
        invariant
            n == s@.len(),
            0 <= i <= n,
            r@ == seq!['"'] + rep_quotes(s@.take(i as int)),
        decreases n - i,
    {
        let c = s.as_str().get_char(i);
        if c == '"' {
            r.append("\\\"");
            proof {
                reveal_strlit("\\\"");
            }
        } else {
            let piece = s.as_str().substring_char(i, i + 1);
            r.append(piece);
            proof {
                assert(piece@ =~= seq![s@[i as int]]);
            }
        }
        proof {
            assert(s@.take(i + 1).drop_last() =~= s@.take(i as int));
            assert(s@.take(i + 1).last() == s@[i as int]);
            assert(r@ =~= seq!['"'] + rep_quotes(s@.take(i + 1)));
        }
        i = i + 1;
    }
    r.append("\"");
    proof {
        reveal_strlit("\"");
        assert(s@.take(n as int) =~= s@);
        assert(r@ =~= seq!['"'] + rep_quotes(s@) + seq!['"']);
    }
    r
}

/// Renders a value inline: a scalar's token, or a newline followed by
/// the value's block at the given level.
#[verifier::loop_isolation(false)]
pub fn value_to_toon(value: &Value, indent: usize, level: usize) -> (r: String)
    requires
        level + depth(value@) <= usize::MAX,
    ensures
        r@ == spec_value(value@, indent as nat, level as nat),
    decreases value@, 0int, 0int,
{
    match value {
        Value::Null => {
            let mut r = String::new();
            r.append("null");
            proof {
                reveal_strlit("null");
                assert(r@ =~= seq!['n', 'u', 'l', 'l']);
            }
            r
        },
        Value::Bool(b) => {
            let mut r = String::new();
            if *b {
                r.append("true");
                proof {
                    reveal_strlit("true");
                    assert(r@ =~= seq!['t', 'r', 'u', 'e']);
                }
            } else {
                r.append("false");
                proof {
                    reveal_strlit("false");
                    assert(r@ =~= seq!['f', 'a', 'l', 's', 'e']);
                }
            }
            r
        },
        Value::Number(s) => s.clone(),
        Value::Str(s) => escape_string(s.as_str()),
        Value::List(items) => {
            proof {
                assert(value@ == Node::List(nodes_of(items@)));
                assert(decreases_to!(value@ => value@->List_0));
            }
            let mut r = String::new();
            r.append("\n");
            let rest = list_to_toon(items, indent, level);
            r.append(rest.as_str());
            proof {
                reveal_strlit("\n");
                assert(r@ =~= seq!['\n'] + spec_list(
                    nodes_of(items@),
                    indent as nat,
                    level as nat,
                ));
            }
            r
        },
        Value::Mapping(pairs) => {
            proof {
                assert(value@ == Node::Mapping(entries_of(pairs@)));
                assert(decreases_to!(value@ => value@->Mapping_0));
            }
            let mut r = String::new();
            r.append("\n");
            let rest = dict_to_toon(pairs, indent, level);
            r.append(rest.as_str());
            proof {
                reveal_strlit("\n");
                assert(r@ =~= seq!['\n'] + spec_dict(
                    entries_of(pairs@),
                    indent as nat,
                    level as nat,
                ));
            }
            r
        },
    }
}

/// The single `key: value` line of a mapping entry whose value is a
/// scalar or an empty container: the bracket pair, or the scalar token.
#[verifier::loop_isolation(false)]
fn scalar_entry_line(prefix: &str, key: &String, v: &Value, indent: usize, level: usize) -> (r:
    String)
    requires
        level + 1 + depth(v@) <= usize::MAX,
        prefix@ == spaces((indent * level) as nat),
    ensures
        r@ == spaces((indent * level) as nat) + key@ + seq![':', ' '] + entry_token(
            v@,
            indent as nat,
            level as nat + 1,
        ),
    decreases v@, 1int, 0int,
{
    let mut r = String::new();
    r.append(prefix);
    r.append(key.as_str());
    r.append(": ");
    match v {
        Value::List(_) => {
            r.append("[]");
            proof {
                reveal_strlit(": ");
                reveal_strlit("[]");
                assert(r@ =~= spaces((indent * level) as nat) + key@ + seq![':', ' ']
                    + seq!['[', ']']);
            }
        },
        Value::Mapping(_) => {
            r.append("{}");
            proof {
                reveal_strlit(": ");
                reveal_strlit("{}");
                assert(r@ =~= spaces((indent * level) as nat) + key@ + seq![':', ' ']
                    + seq!['{', '}']);
            }
        },
        _ => {
            let vs = value_to_toon(v, indent, level + 1);
            r.append(vs.as_str());
            proof {
                reveal_strlit(": ");
                assert(r@ =~= spaces((indent * level) as nat) + key@ + seq![':', ' ']
                    + spec_value(v@, indent as nat, level as nat + 1));
            }
        },
    }
    r
}

/// Renders a list as a block of dash lines, one element each.
#[verifier::loop_isolation(false)]
pub fn list_to_toon(items: &Vec<Value>, indent: usize, level: usize) -> (r: String)
    requires
        level + list_depth(nodes_of(items@)) <= usize::MAX,
    ensures
        r@ == spec_list(nodes_of(items@), indent as nat, level as nat),
    decreases nodes_of(items@), 1int, 0int,
{
    let ghost nodes = nodes_of(items@);
    proof {
        lemma_nodes_of_len(items@);
    }
    if items.len() == 0 {
        let mut r = String::new();
        r.append("[]");
        proof {
            reveal_strlit("[]");
            assert(r@ =~= seq!['[', ']']);
        }
        return r;
    }
    let prefix = indent_prefix(indent, level);
    let mut lines: Vec<String> = Vec::new();
    let mut i: usize = 0;
    proof {
        assert(views_of(lines@) =~= list_lines(
            nodes.take(0int),
            indent as nat,
            level as nat,
        ));
    }
    while i < items.len()
        invariant
            0 <= i <= items@.len(),
            views_of(lines@) == list_lines(nodes.take(i as int), indent as nat, level as nat),
        decreases items@.len() - i,
    {
        proof {
            lemma_nodes_of(items@, i as int);
            lemma_list_depth(nodes, i as int);
            assert(decreases_to!(nodes => nodes[i as int]));
        }
        let vs = value_to_toon(&items[i], indent, level);
        let mut line = String::new();
        line.append(prefix.as_str());
        line.append("- ");
        line.append(vs.as_str());
        lines.push(line);
        proof {
            reveal_strlit("- ");
            assert(line@ =~= spaces((indent * level) as nat) + seq!['-', ' ']
                + spec_value(nodes[i as int], indent as nat, level as nat));
            assert(nodes.take(i + 1).drop_last() =~= nodes.take(i as int));
            assert(nodes.take(i + 1).last() == nodes[i as int]);
            assert(views_of(lines@) =~= list_lines(
                nodes.take(i + 1),
                indent as nat,
                level as nat,
            ));
        }
        i = i + 1;
    }
    proof {
        assert(nodes.take(items@.len() as int) =~= nodes);
    }
    let r = join_strings(&lines, "\n");
    proof {
        reveal_strlit("\n");
        assert("\n"@ =~= seq!['\n']);
    }
    r
}

/// Renders a mapping as a block, one entry per pair in pair order.
#[verifier::loop_isolation(false)]
pub fn dict_to_toon(pairs: &Vec<(String, Value)>, indent: usize, level: usize) -> (r: String)
    requires
        level + 1 + map_depth(entries_of(pairs@)) <= usize::MAX,
    ensures
        r@ == spec_dict(entries_of(pairs@), indent as nat, level as nat),
    decreases entries_of(pairs@), 1int, 0int,
{
    let ghost p = entries_of(pairs@);
    proof {
        lemma_entries_of_len(pairs@);
    }
    if pairs.len() == 0 {
        let mut r = String::new();
        r.append("{}");
        proof {
            reveal_strlit("{}");
            assert(r@ =~= seq!['{', '}']);
        }
        return r;
    }
    let prefix = indent_prefix(indent, level);
    let mut lines: Vec<String> = Vec::new();
    let mut i: usize = 0;
    proof {
        assert(views_of(lines@) =~= dict_chunks(
            p.take(0int),
            indent as nat,
            level as nat,
        ));
    }
    while i < pairs.len()
        invariant
            0 <= i <= pairs@.len(),
            views_of(lines@) == dict_chunks(p.take(i as int), indent as nat, level as nat),
        decreases pairs@.len() - i,
    {
        proof {
            lemma_entries_of(pairs@, i as int);
            lemma_map_depth(p, i as int);
            assert(decreases_to!(p => p[i as int]));
            assert(decreases_to!(p[i as int] => p[i as int].1));
            assert(p[i as int].1 == node_of(pairs@[i as int].1));
        }
        let key = &pairs[i].0;
        let v = &pairs[i].1;
        let ghost chunk = dict_entry(p[i as int].0, p[i as int].1, indent as nat, level as nat);
        match v {
            Value::Mapping(inner) => {
                if inner.len() > 0 {
                    proof {
                        lemma_entries_of_len(inner@);
                        assert(node_of(pairs@[i as int].1) == Node::Mapping(
                            entries_of(inner@),
                        ));
                        assert(decreases_to!(p[i as int].1 => p[i as int].1->Mapping_0));
                    }
                    let mut line = String::new();
                    line.append(prefix.as_str());
                    line.append(key.as_str());
                    line.append(":");
                    let sub = dict_to_toon(inner, indent, level + 1);
                    lines.push(line);
                    lines.push(sub);
                    proof {
                        reveal_strlit(":");
                        assert(line@ =~= spaces((indent * level) as nat) + p[i as int].0
                            + seq![':']);
                        assert(chunk == seq![
                            spaces((indent * level) as nat) + p[i as int].0 + seq![':'],
                            spec_dict(entries_of(inner@), indent as nat, level as nat + 1),
                        ]);
                    }
                } else {
                    proof {
                        lemma_entries_of_len(inner@);
                        assert(chunk == seq![
                            spaces((indent * level) as nat) + p[i as int].0 + seq![':', ' ']
                                + entry_token(p[i as int].1, indent as nat, level as nat + 1),
                        ]);
                    }
                    let line = scalar_entry_line(prefix.as_str(), key, v, indent, level);
                    lines.push(line);
                }
            },
            Value::List(items) => {
                if items.len() > 0 {
                    proof {
                        lemma_nodes_of_len(items@);
                        assert(node_of(pairs@[i as int].1) == Node::List(
                            nodes_of(items@),
                        ));
                        assert(decreases_to!(p[i as int].1 => p[i as int].1->List_0));
                    }
                    let allm = all_objects(items);
                    if allm {
                        let sub = list_of_objects_to_toon(key.as_str(), items, indent, level);
                        lines.push(sub);
                        proof {
                            assert(chunk == seq![
                                spec_tabular(
                                    p[i as int].0,
                                    nodes_of(items@),
                                    indent as nat,
                                    level as nat,
                                ),
                            ]);
                        }
                    } else {
                        let mut line = String::new();
                        line.append(prefix.as_str());
                        line.append(key.as_str());
                        line.append(":");
                        let sub = list_to_toon(items, indent, level + 1);
                        lines.push(line);
                        lines.push(sub);
                        proof {
                            reveal_strlit(":");
                            assert(line@ =~= spaces((indent * level) as nat)
                                + p[i as int].0 + seq![':']);
                            assert(chunk == seq![
                                spaces((indent * level) as nat) + p[i as int].0 + seq![':'],
                                spec_list(nodes_of(items@), indent as nat, level as nat + 1),
                            ]);
                        }
                    }
                } else {
                    proof {
                        lemma_nodes_of_len(items@);
                        assert(chunk == seq![
                            spaces((indent * level) as nat) + p[i as int].0 + seq![':', ' ']
                                + entry_token(p[i as int].1, indent as nat, level as nat + 1),
                        ]);
                    }
                    let line = scalar_entry_line(prefix.as_str(), key, v, indent, level);
                    lines.push(line);
                }
            },
            _ => {
                proof {
                    assert(chunk == seq![
                        spaces((indent * level) as nat) + p[i as int].0 + seq![':', ' ']
                            + entry_token(p[i as int].1, indent as nat, level as nat + 1),
                    ]);
                }
                let line = scalar_entry_line(prefix.as_str(), key, v, indent, level);
                lines.push(line);
            },
        }
        proof {
            assert(p.take(i + 1).drop_last() =~= p.take(i as int));
            assert(p.take(i + 1).last() == p[i as int]);
            assert(views_of(lines@) =~= dict_chunks(
                p.take(i + 1),
                indent as nat,
                level as nat,
            ));
        }
        i = i + 1;
    }
    proof {
        assert(p.take(pairs@.len() as int) =~= p);
    }
    let r = join_strings(&lines, "\n");
    proof {
        reveal_strlit("\n");
        assert("\n"@ =~= seq!['\n']);
    }
    r
}

/// Renders a homogeneous object list as a tabular block: a header line
/// with the count and the sorted column union, then one data row per
/// object at a fixed two-space indent.
#[verifier::loop_isolation(false)]
pub fn list_of_objects_to_toon(key: &str, arr: &Vec<Value>, indent: usize, level: usize) -> (r:
    String)
    requires
        level + 1 + list_depth(nodes_of(arr@)) <= usize::MAX,
    ensures
        r@ == spec_tabular(key@, nodes_of(arr@), indent as nat, level as nat),
    decreases nodes_of(arr@), 2int, 0int,
{
    let ghost nodes = nodes_of(arr@);
    proof {
        lemma_nodes_of_len(arr@);
    }
    if arr.len() == 0 {
        let mut r = String::new();
        r.append("[]");
        proof {
            reveal_strlit("[]");
            assert(r@ =~= seq!['[', ']']);
        }
        return r;
    }
    let cols = union_keys(arr);
    let ghost vcols = views_of(cols@);
    if cols.len() == 0 {
        let mut r = String::new();
        r.append("[]");
        proof {
            reveal_strlit("[]");
            assert(vcols.len() == 0);
            assert(r@ =~= seq!['[', ']']);
        }
        return r;
    }
    let prefix = indent_prefix(indent, level);
    let count = usize_to_string(arr.len());
    let fields = join_strings(&cols, ",");
    let mut header = String::new();
    header.append(prefix.as_str());
    header.append(key);
    header.append("[");
    header.append(count.as_str());
    header.append("]{");
    header.append(fields.as_str());
    header.append("}:");
    let ghost spec_header = spaces((indent * level) as nat) + key@ + seq!['[']
        + dec_seq(arr@.len() as nat) + seq![']', '{'] + join_plus(vcols, seq![','])
        + seq!['}', ':'];
    proof {
        reveal_strlit("[");
        reveal_strlit("]{");
        reveal_strlit("}:");
        reveal_strlit(",");
        assert("["@ =~= seq!['[']);
        assert("]{"@ =~= seq![']', '{']);
        assert("}:"@ =~= seq!['}', ':']);
        assert(","@ =~= seq![',']);
        assert(header@ =~= spec_header);
    }
    let mut lines: Vec<String> = Vec::new();
    lines.push(header);
    let mut i: usize = 0;
    proof {
        assert(views_of(lines@) =~= seq![spec_header] + row_lines(
            nodes.take(0int),
            vcols,
        ));
    }
    while i < arr.len()
        invariant
            0 <= i <= arr@.len(),
            views_of(lines@) == seq![spec_header] + row_lines(nodes.take(i as int), vcols),
        decreases arr@.len() - i,
    {
        proof {
            lemma_nodes_of(arr@, i as int);
            lemma_list_depth(nodes, i as int);
            assert(nodes.take(i + 1).drop_last() =~= nodes.take(i as int));
            assert(nodes.take(i + 1).last() == nodes[i as int]);
        }
        match &arr[i] {
            Value::Mapping(pairs) => {
                let ghost p = entries_of(pairs@);
                proof {
                    lemma_entries_of_len(pairs@);
                    assert(nodes[i as int] == Node::Mapping(p));
                }
                let mut cells: Vec<String> = Vec::new();
                let mut t: usize = 0;
                proof {
                    assert(views_of(cells@) =~= row_cells(p, vcols.take(0int)));
                }
                while t < cols.len()
                    invariant
                        0 <= t <= cols@.len(),
                        views_of(cells@) == row_cells(p, vcols.take(t as int)),
                    decreases cols@.len() - t,
                {
                    let idx = find_key(pairs, &cols[t]);
                    let cell = match idx {
                        Option::Some(j) => {
                            proof {
                                lemma_entries_of(pairs@, j as int);
                                lemma_map_depth(p, j as int);
                                assert(decreases_to!(nodes => nodes[i as int]));
                                assert(decreases_to!(nodes[i as int] =>
                                    nodes[i as int]->Mapping_0));
                                assert(decreases_to!(p => p[j as int]));
                                assert(decreases_to!(p[j as int] => p[j as int].1));
                            }
                            cell_to_toon(&pairs[j].1)
                        },
                        Option::None => String::new(),
                    };
                    cells.push(cell);
                    proof {
                        assert(vcols.take(t + 1).drop_last() =~= vcols.take(t as int));
                        assert(vcols.take(t + 1).last() == vcols[t as int]);
                        assert(views_of(cells@) =~= row_cells(p, vcols.take(t + 1)));
                    }
                    t = t + 1;
                }
                proof {
                    assert(vcols.take(cols@.len() as int) =~= vcols);
                }
                let row = join_strings(&cells, ",");
                let mut line = String::new();
                line.append("  ");
                line.append(row.as_str());
                lines.push(line);
                proof {
                    reveal_strlit("  ");
                    reveal_strlit(",");
                    assert("  "@ =~= seq![' ', ' ']);
                    assert(","@ =~= seq![',']);
                    assert(line@ =~= seq![' ', ' '] + join_plus(
                        row_cells(p, vcols),
                        seq![','],
                    ));
                    assert(row_lines(nodes.take(i + 1), vcols) == row_lines(
                        nodes.take(i as int),
                        vcols,
                    ) + seq![seq![' ', ' '] + join_plus(row_cells(p, vcols), seq![','])]);
                    assert(views_of(lines@) =~= (seq![spec_header] + row_lines(
                        nodes.take(i as int),
                        vcols,
                    )).push(line@));
                    assert((seq![spec_header] + row_lines(nodes.take(i as int), vcols)).push(
                        line@,
                    ) =~= seq![spec_header] + row_lines(nodes.take(i + 1), vcols));
                }
            },
            _ => {
                proof {
                    assert(!(nodes[i as int] is Mapping));
                    assert(row_lines(nodes.take(i + 1), vcols) =~= row_lines(
                        nodes.take(i as int),
                        vcols,
                    ));
                }
            },
        }
        i = i + 1;
    }
    proof {
        assert(nodes.take(arr@.len() as int) =~= nodes);
    }
    let r = join_strings(&lines, "\n");
    proof {
        reveal_strlit("\n");
        assert("\n"@ =~= seq!['\n']);
    }
    r
}

/// Renders one cell value of a tabular row.
#[verifier::loop_isolation(false)]
pub fn cell_to_toon(v: &Value) -> (r: String)
    requires
        depth(v@) <= usize::MAX,
    ensures
        r@ == cell_str(v@),
    decreases v@, 2int, 0int,
{
    match v {
        Value::List(items) => {
            let ghost nodes = nodes_of(items@);
            proof {
                lemma_nodes_of_len(items@);
                assert(v@ == Node::List(nodes));
                assert(decreases_to!(v@ => v@->List_0));
            }
            if items.len() == 0 {
                let mut r = String::new();
                r.append("[]");
                proof {
                    reveal_strlit("[]");
                    assert(r@ =~= seq!['[', ']']);
                }
                return r;
            }
            let allm = all_objects(items);
            if allm {
                let r = inline_table_to_toon(items);
                return r;
            }
            let mut parts: Vec<String> = Vec::new();
            let mut j: usize = 0;
            proof {
                assert(views_of(parts@) =~= bracket_items(nodes.take(0int)));
            }
            while j < items.len()
                invariant
                    0 <= j <= items@.len(),
                    views_of(parts@) == bracket_items(nodes.take(j as int)),
                decreases items@.len() - j,
            {
                proof {
                    lemma_nodes_of(items@, j as int);
                    lemma_list_depth(nodes, j as int);
                    assert(decreases_to!(nodes => nodes[j as int]));
                }
                let piece = value_to_toon(&items[j], 0, 0);
                parts.push(piece);
                proof {
                    assert(nodes.take(j + 1).drop_last() =~= nodes.take(j as int));
                    assert(nodes.take(j + 1).last() == nodes[j as int]);
                    assert(views_of(parts@) =~= bracket_items(nodes.take(j + 1)));
                }
                j = j + 1;
            }
            proof {
                assert(nodes.take(items@.len() as int) =~= nodes);
            }
            let joined = join_strings(&parts, ",");
            let mut r = String::new();
            r.append("[");
            r.append(joined.as_str());
            r.append("]");
            proof {
                reveal_strlit("[");
                reveal_strlit("]");
                reveal_strlit(",");
                assert("["@ =~= seq!['[']);
                assert("]"@ =~= seq![']']);
                assert(","@ =~= seq![',']);
                assert(r@ =~= seq!['['] + join_plus(bracket_items(nodes), seq![','])
                    + seq![']']);
            }
            r
        },
        Value::Mapping(pairs) => {
            let ghost p = entries_of(pairs@);
            proof {
                lemma_entries_of_len(pairs@);
                assert(v@ == Node::Mapping(p));
                assert(decreases_to!(v@ => v@->Mapping_0));
            }
            let mut ks: Vec<String> = Vec::new();
            let mut t: usize = 0;
            proof {
                assert(p.skip(0int) =~= p);
                assert(views_of(ks@) =~= Seq::<Seq<char>>::empty());
            }
            while t < pairs.len()
                invariant
                    0 <= t <= pairs@.len(),
                    keys_of_pairs(p.skip(t as int), views_of(ks@)) == keys_of_pairs(
                        p,
                        Seq::empty(),
                    ),
                decreases pairs@.len() - t,
            {
                proof {
                    lemma_entries_of(pairs@, t as int);
                    assert(p.skip(t as int)[0] == p[t as int]);
                    assert(p.skip(t as int).drop_first() =~= p.skip(t + 1));
                }
                insert_sorted(&mut ks, &pairs[t].0);
                t = t + 1;
            }
            proof {
                assert(p.skip(pairs@.len() as int).len() == 0);
                assert(views_of(ks@) == keys_of_pairs(p, Seq::empty()));
            }
            let ghost vks = views_of(ks@);
            let mut parts: Vec<String> = Vec::new();
            let mut t: usize = 0;
            proof {
                assert(views_of(parts@) =~= inline_obj_items(p, vks.take(0int)));
            }
            while t < ks.len()
                invariant
                    0 <= t <= ks@.len(),
                    vks == views_of(ks@),
                    views_of(parts@) == inline_obj_items(p, vks.take(t as int)),
                decreases ks@.len() - t,
            {
                let idx = find_key(pairs, &ks[t]);
                let valstr = match idx {
                    Option::Some(j) => {
                        proof {
                            lemma_entries_of(pairs@, j as int);
                            lemma_map_depth(p, j as int);
                            assert(decreases_to!(p => p[j as int]));
                            assert(decreases_to!(p[j as int] => p[j as int].1));
                        }
                        value_to_toon(&pairs[j].1, 0, 0)
                    },
                    Option::None => String::new(),
                };
                let q = quote_colon_string(valstr);
                let mut item = String::new();
                item.append(ks[t].as_str());
                item.append(":");
                item.append(q.as_str());
                parts.push(item);
                proof {
                    reveal_strlit(":");
                    assert(vks.take(t + 1).drop_last() =~= vks.take(t as int));
                    assert(vks.take(t + 1).last() == vks[t as int]);
                    assert(item@ =~= vks[t as int] + seq![':'] + q@);
                    assert(views_of(parts@) =~= inline_obj_items(p, vks.take(t + 1)));
                }
                t = t + 1;
            }
            proof {
                assert(vks.take(ks@.len() as int) =~= vks);
            }
            let joined = join_strings(&parts, ",");
            let mut r = String::new();
            r.append("{");
            r.append(joined.as_str());
            r.append("}");
            proof {
                reveal_strlit("{");
                reveal_strlit("}");
                reveal_strlit(",");
                assert("{"@ =~= seq!['{']);
                assert("}"@ =~= seq!['}']);
                assert(","@ =~= seq![',']);
                assert(r@ =~= seq!['{'] + join_plus(inline_obj_items(p, vks), seq![','])
                    + seq!['}']);
            }
            r
        },
        _ => {
            let s = value_to_toon(v, 0, 0);
            quote_cell_string(s)
        },
    }
}

/// Renders a list-of-objects cell as a compact inline sub-table.
#[verifier::loop_isolation(false)]
pub fn inline_table_to_toon(items: &Vec<Value>) -> (r: String)
    requires
        list_depth(nodes_of(items@)) <= usize::MAX,
    ensures
        r@ == inline_table(nodes_of(items@)),
    decreases nodes_of(items@), 1int, 0int,
{
    let ghost nodes = nodes_of(items@);
    proof {
        lemma_nodes_of_len(items@);
    }
    let nk = union_keys(items);
    let ghost vnk = views_of(nk@);
    let count = usize_to_string(items.len());
    let fields = join_strings(&nk, ",");
    let mut rows: Vec<String> = Vec::new();
    let mut i: usize = 0;
    proof {
        assert(views_of(rows@) =~= inline_rows(nodes.take(0int), vnk));
    }
    while i < items.len()
        invariant
            0 <= i <= items@.len(),
            views_of(rows@) == inline_rows(nodes.take(i as int), vnk),
        decreases items@.len() - i,
    {
        proof {
            lemma_nodes_of(items@, i as int);
            lemma_list_depth(nodes, i as int);
            assert(nodes.take(i + 1).drop_last() =~= nodes.take(i as int));
            assert(nodes.take(i + 1).last() == nodes[i as int]);
        }
        match &items[i] {
            Value::Mapping(np) => {
                let ghost p = entries_of(np@);
                proof {
                    lemma_entries_of_len(np@);
                    assert(nodes[i as int] == Node::Mapping(p));
                }
                let mut cells: Vec<String> = Vec::new();
                let mut t: usize = 0;
                proof {
                    assert(views_of(cells@) =~= inline_cells(p, vnk.take(0int)));
                }
                while t < nk.len()
                    invariant
                        0 <= t <= nk@.len(),
                        views_of(cells@) == inline_cells(p, vnk.take(t as int)),
                    decreases nk@.len() - t,
                {
                    let idx = find_key(np, &nk[t]);
                    let valstr = match idx {
                        Option::Some(j) => {
                            proof {
                                lemma_entries_of(np@, j as int);
                                lemma_map_depth(p, j as int);
                                assert(decreases_to!(nodes => nodes[i as int]));
                                assert(decreases_to!(nodes[i as int] =>
                                    nodes[i as int]->Mapping_0));
                                assert(decreases_to!(p => p[j as int]));
                                assert(decreases_to!(p[j as int] => p[j as int].1));
                            }
                            value_to_toon(&np[j].1, 0, 0)
                        },
                        Option::None => String::new(),
                    };
                    let q = quote_semi_string(valstr);
                    cells.push(q);
                    proof {
                        assert(vnk.take(t + 1).drop_last() =~= vnk.take(t as int));
                        assert(vnk.take(t + 1).last() == vnk[t as int]);
                        assert(views_of(cells@) =~= inline_cells(p, vnk.take(t + 1)));
                    }
                    t = t + 1;
                }
                proof {
                    assert(vnk.take(nk@.len() as int) =~= vnk);
                }
                let row = join_strings(&cells, ",");
                rows.push(row);
                proof {
                    reveal_strlit(",");
                    assert(","@ =~= seq![',']);
                    assert(inline_rows(nodes.take(i + 1), vnk) == inline_rows(
                        nodes.take(i as int),
                        vnk,
                    ) + seq![join_plus(inline_cells(p, vnk), seq![','])]);
                    assert(views_of(rows@) =~= inline_rows(nodes.take(i + 1), vnk));
                }
            },
            _ => {
                proof {
                    assert(!(nodes[i as int] is Mapping));
                    assert(inline_rows(nodes.take(i + 1), vnk) =~= inline_rows(
                        nodes.take(i as int),
                        vnk,
                    ));
                }
            },
        }
        i = i + 1;
    }
    proof {
        assert(nodes.take(items@.len() as int) =~= nodes);
    }
    let rows_joined = join_strings(&rows, ";");
    let mut r = String::new();
    r.append("[");
    r.append(count.as_str());
    r.append("]{");
    r.append(fields.as_str());
    r.append("}:");
    r.append(rows_joined.as_str());
    proof {
        reveal_strlit("[");
        reveal_strlit("]{");
        reveal_strlit("}:");
        reveal_strlit(",");
        reveal_strlit(";");
        assert("["@ =~= seq!['[']);
        assert("]{"@ =~= seq![']', '{']);
        assert("}:"@ =~= seq!['}', ':']);
        assert(","@ =~= seq![',']);
        assert(";"@ =~= seq![';']);
        assert(r@ =~= seq!['['] + dec_seq(items@.len() as nat) + seq![']', '{']
            + join_plus(vnk, seq![',']) + seq!['}', ':'] + join_plus(
            inline_rows(nodes, vnk),
            seq![';'],
        ));
    }
    r
}

/// The format selector: encodes any value with the given indentation
/// unit, at the given nesting level.
pub fn to_toon_with_indent(value: &Value, indent: usize, level: usize) -> (r: String)
    requires
        level + depth(value@) <= usize::MAX,
    ensures
        r@ == spec_encode(value@, indent as nat, level as nat),
{
    match value {
        Value::List(items) => {
            let ghost nodes = nodes_of(items@);
            proof {
                lemma_nodes_of_len(items@);
                assert(value@ == Node::List(nodes));
            }
            if items.len() == 0 {
                let mut r = String::new();
                r.append("[]");
                proof {
                    reveal_strlit("[]");
                    assert(r@ =~= seq!['[', ']']);
                }
                return r;
            }
            let allm = all_objects(items);
            if allm {
                let r = list_of_objects_to_toon("", items, indent, level);
                proof {
                    reveal_strlit("");
                    assert(""@ =~= Seq::<char>::empty());
                }
                r
            } else {
                list_to_toon(items, indent, level)
            }
        },
        Value::Mapping(pairs) => {
            proof {
                assert(value@ == Node::Mapping(entries_of(pairs@)));
            }
            dict_to_toon(pairs, indent, level)
        },
        _ => value_to_toon(value, indent, level),
    }
}

/// Encodes a value with the default two-space indentation unit.
pub fn to_toon(value: &Value) -> (r: String)
    requires
        depth(value@) <= usize::MAX,
    ensures
        r@ == spec_encode(value@, 2, 0),
{
    to_toon_with_indent(value, 2, 0)
}

} // verus!
