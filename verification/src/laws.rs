//! The library's global guarantees, stated and proved: scalar
//! pass-through, the empty-container identities, the shape of the
//! tabular block, the column order as a pure function of the key set,
//! determinism of the encoding, and the quoting of control characters.

use vstd::prelude::*;
use crate::escape::{esc_body, esc_char, escape_seq, has_control, is_ctl};
use crate::format::{
    all_mappings, has_key, key_union, key_union_from, keys_of_pairs, row_cells,
    row_lines, spec_encode, spec_tabular, spec_value,
};
use crate::text::{dec_seq, join_plus, lex_le, sorted_insert, spaces};
use crate::value::{Node, Value};

verus! {

/// The lexicographic key order is total.
proof fn lemma_lex_total(a: Seq<char>, b: Seq<char>)
    ensures
        lex_le(a, b) || lex_le(b, a),
    decreases a.len(),
{
    if a.len() > 0 && b.len() > 0 && (a[0] as u32) == (b[0] as u32) {
        lemma_lex_total(a.drop_first(), b.drop_first());
    }
}

/// The lexicographic key order is antisymmetric.
proof fn lemma_lex_antisym(a: Seq<char>, b: Seq<char>)
    requires
        lex_le(a, b),
        lex_le(b, a),
    ensures
        a == b,
    decreases a.len(),
{
    if a.len() == 0 {
        assert(b.len() == 0);
        assert(a =~= b);
    } else {
        assert(b.len() > 0);
        assert((a[0] as u32) == (b[0] as u32));
        vstd::utf8::char_u32_cast(a[0], a[0] as u32);
        vstd::utf8::char_u32_cast(b[0], b[0] as u32);
        assert(a[0] == b[0]);
        lemma_lex_antisym(a.drop_first(), b.drop_first());
        assert forall|i: int| 0 <= i < a.len() implies a[i] == b[i] by {
            if i > 0 {
                assert(a[i] == a.drop_first()[i - 1]);
                assert(b[i] == b.drop_first()[i - 1]);
            }
        }
        assert(a =~= b);
    }
}

/// The lexicographic key order is transitive.
proof fn lemma_lex_trans(a: Seq<char>, b: Seq<char>, c: Seq<char>)
    requires
        lex_le(a, b),
        lex_le(b, c),
    ensures
        lex_le(a, c),
    decreases a.len(),
{
    if a.len() > 0 {
        assert(b.len() > 0);
        assert(c.len() > 0);
        if (a[0] as u32) == (b[0] as u32) && (b[0] as u32) == (c[0] as u32) {
            lemma_lex_trans(a.drop_first(), b.drop_first(), c.drop_first());
        }
    }
}

/// A key list that is strictly ascending in the lexicographic order:
/// sorted, with no key twice.
pub open spec fn ordered_distinct(ks: Seq<Seq<char>>) -> bool {
    forall|i: int, j: int|
        0 <= i < j < ks.len() ==> lex_le(#[trigger] ks[i], #[trigger] ks[j]) && ks[i]
            != ks[j]
}

/// `sorted_insert` keeps the key list strictly ascending and adds
/// exactly the inserted key to its contents.
proof fn lemma_sorted_insert_props(ks: Seq<Seq<char>>, k: Seq<char>)
    requires
        ordered_distinct(ks),
    ensures
        ordered_distinct(sorted_insert(ks, k)),
        forall|c: Seq<char>|
            #[trigger] sorted_insert(ks, k).contains(c) <==> (ks.contains(c) || c == k),
    decreases ks.len(),
{
    let r = sorted_insert(ks, k);
    if ks.len() == 0 {
        assert(r == seq![k]);
        assert(r[0] == k);
        assert forall|c: Seq<char>| #[trigger] r.contains(c) implies (ks.contains(c) || c
            == k) by {
            let i = choose|i: int| 0 <= i < r.len() && r[i] == c;
            assert(i == 0);
        }
        assert(r.contains(k));
    } else if ks[0] == k {
        assert(r == ks);
        assert(ks[0] == k);
        assert(ks.contains(k));
    } else if lex_le(ks[0], k) {
        let tail = ks.drop_first();
        assert forall|i: int, j: int| 0 <= i < j < tail.len() implies lex_le(
            #[trigger] tail[i],
            #[trigger] tail[j],
        ) && tail[i] != tail[j] by {
            assert(tail[i] == ks[i + 1]);
            assert(tail[j] == ks[j + 1]);
        }
        lemma_sorted_insert_props(tail, k);
        let rt = sorted_insert(tail, k);
        assert(r == seq![ks[0]] + rt);
        assert forall|i: int, j: int| 0 <= i < j < r.len() implies lex_le(
            #[trigger] r[i],
            #[trigger] r[j],
        ) && r[i] != r[j] by {
            if i == 0 {
                assert(r[j] == rt[j - 1]);
                assert(rt.contains(rt[j - 1]));
                assert(tail.contains(rt[j - 1]) || rt[j - 1] == k);
                if rt[j - 1] == k {
                    assert(lex_le(ks[0], k) && ks[0] != k);
                } else {
                    let t = choose|t: int| 0 <= t < tail.len() && tail[t] == rt[j - 1];
                    assert(tail[t] == ks[t + 1]);
                    assert(lex_le(ks[0], ks[t + 1]) && ks[0] != ks[t + 1]);
                }
            } else {
                assert(r[i] == rt[i - 1]);
                assert(r[j] == rt[j - 1]);
            }
        }
        assert forall|c: Seq<char>| #[trigger] r.contains(c) implies (ks.contains(c) || c
            == k) by {
            let i = choose|i: int| 0 <= i < r.len() && r[i] == c;
            if i == 0 {
                assert(ks[0] == c);
            } else {
                assert(rt[i - 1] == c);
                assert(rt.contains(c));
                if tail.contains(c) {
                    let t = choose|t: int| 0 <= t < tail.len() && tail[t] == c;
                    assert(ks[t + 1] == c);
                }
            }
        }
        assert forall|c: Seq<char>| ks.contains(c) || c == k implies #[trigger] r.contains(
            c,
        ) by {
            if c == k {
                assert(rt.contains(c));
                let t = choose|t: int| 0 <= t < rt.len() && rt[t] == c;
                assert(r[t + 1] == c);
            } else {
                let i = choose|i: int| 0 <= i < ks.len() && ks[i] == c;
                if i == 0 {
                    assert(r[0] == c);
                } else {
                    assert(tail[i - 1] == c);
                    assert(tail.contains(c));
                    assert(rt.contains(c));
                    let t = choose|t: int| 0 <= t < rt.len() && rt[t] == c;
                    assert(r[t + 1] == c);
                }
            }
        }
    } else {
        assert(r == seq![k] + ks);
        lemma_lex_total(ks[0], k);
        assert(lex_le(k, ks[0]));
        assert forall|i: int, j: int| 0 <= i < j < r.len() implies lex_le(
            #[trigger] r[i],
            #[trigger] r[j],
        ) && r[i] != r[j] by {
            if i == 0 {
                assert(r[j] == ks[j - 1]);
                if j - 1 > 0 {
                    assert(lex_le(ks[0], ks[j - 1]));
                } else {
                    crate::text::lemma_lex_refl(ks[0]);
                }
                lemma_lex_trans(k, ks[0], ks[j - 1]);
                if k == ks[j - 1] {
                    assert(lex_le(ks[0], k));
                    lemma_lex_antisym(ks[0], k);
                    assert(false);
                }
            } else {
                assert(r[i] == ks[i - 1]);
                assert(r[j] == ks[j - 1]);
            }
        }
        assert forall|c: Seq<char>| #[trigger] r.contains(c) implies (ks.contains(c) || c
            == k) by {
            let i = choose|i: int| 0 <= i < r.len() && r[i] == c;
            if i > 0 {
                assert(ks[i - 1] == c);
            }
        }
        assert forall|c: Seq<char>| ks.contains(c) || c == k implies #[trigger] r.contains(
            c,
        ) by {
            if c == k {
                assert(r[0] == c);
            } else {
                let i = choose|i: int| 0 <= i < ks.len() && ks[i] == c;
                assert(r[i + 1] == c);
            }
        }
    }
}

/// Two strictly ascending key lists with the same contents are equal.
proof fn lemma_sorted_eq(a: Seq<Seq<char>>, b: Seq<Seq<char>>)
    requires
        ordered_distinct(a),
        ordered_distinct(b),
        forall|c: Seq<char>| a.contains(c) <==> b.contains(c),
    ensures
        a == b,
    decreases a.len(),
{
    if a.len() == 0 {
        if b.len() > 0 {
            assert(b[0] == b[0]);
            assert(b.contains(b[0]));
            assert(a.contains(b[0]));
            assert(false);
        }
        assert(a =~= b);
    } else {
        assert(a.contains(a[0]));
        assert(b.contains(a[0]));
        let jb = choose|j: int| 0 <= j < b.len() && b[j] == a[0];
        if jb > 0 {
            assert(lex_le(b[0], b[jb]));
        } else {
            crate::text::lemma_lex_refl(b[0]);
        }
        assert(lex_le(b[0], a[0]));
        assert(b.contains(b[0]));
        assert(a.contains(b[0]));
        let ja = choose|j: int| 0 <= j < a.len() && a[j] == b[0];
        if ja > 0 {
            assert(lex_le(a[0], a[ja]));
        } else {
            crate::text::lemma_lex_refl(a[0]);
        }
        assert(lex_le(a[0], b[0]));
        lemma_lex_antisym(a[0], b[0]);
        assert(a[0] == b[0]);
        let ta = a.drop_first();
        let tb = b.drop_first();
        assert forall|i: int, j: int| 0 <= i < j < ta.len() implies lex_le(
            #[trigger] ta[i],
            #[trigger] ta[j],
        ) && ta[i] != ta[j] by {
            assert(ta[i] == a[i + 1]);
            assert(ta[j] == a[j + 1]);
        }
        assert forall|i: int, j: int| 0 <= i < j < tb.len() implies lex_le(
            #[trigger] tb[i],
            #[trigger] tb[j],
        ) && tb[i] != tb[j] by {
            assert(tb[i] == b[i + 1]);
            assert(tb[j] == b[j + 1]);
        }
        assert forall|c: Seq<char>| #[trigger] ta.contains(c) implies tb.contains(c) by {
            let i = choose|i: int| 0 <= i < ta.len() && ta[i] == c;
            assert(a[i + 1] == c);
            assert(a.contains(c));
            assert(a[0] != a[i + 1]);
            assert(b.contains(c));
            let j = choose|j: int| 0 <= j < b.len() && b[j] == c;
            assert(j != 0);
            assert(tb[j - 1] == c);
        }
        assert forall|c: Seq<char>| #[trigger] tb.contains(c) implies ta.contains(c) by {
            let i = choose|i: int| 0 <= i < tb.len() && tb[i] == c;
            assert(b[i + 1] == c);
            assert(b.contains(c));
            assert(b[0] != b[i + 1]);
            assert(a.contains(c));
            let j = choose|j: int| 0 <= j < a.len() && a[j] == c;
            assert(j != 0);
            assert(ta[j - 1] == c);
        }
        lemma_sorted_eq(ta, tb);
        assert forall|i: int| 0 <= i < a.len() implies a[i] == b[i] by {
            if i > 0 {
                assert(a[i] == ta[i - 1]);
                assert(b[i] == tb[i - 1]);
            }
        }
        assert(a =~= b);
    }
}

/// Some mapping in the list carries this key.
pub open spec fn list_has_key(objs: Seq<Node>, c: Seq<char>) -> bool {
    exists|i: int|
        0 <= i < objs.len() && #[trigger] objs[i] is Mapping && has_key(
            objs[i]->Mapping_0,
            c,
        )
}

/// Folding one mapping's keys keeps the key list strictly ascending and
/// adds exactly that mapping's keys.
proof fn lemma_keys_of_pairs_props(p: Seq<(Seq<char>, Node)>, acc: Seq<Seq<char>>)
    requires
        ordered_distinct(acc),
    ensures
        ordered_distinct(keys_of_pairs(p, acc)),
        forall|c: Seq<char>|
            #[trigger] keys_of_pairs(p, acc).contains(c) <==> (acc.contains(c) || has_key(
                p,
                c,
            )),
    decreases p.len(),
{
    if p.len() == 0 {
        assert(forall|c: Seq<char>| !has_key(p, c));
    } else {
        lemma_sorted_insert_props(acc, p[0].0);
        let acc2 = sorted_insert(acc, p[0].0);
        lemma_keys_of_pairs_props(p.drop_first(), acc2);
        let r = keys_of_pairs(p, acc);
        assert(r == keys_of_pairs(p.drop_first(), acc2));
        assert forall|c: Seq<char>| #[trigger] r.contains(c) implies (acc.contains(c)
            || has_key(p, c)) by {
            if !acc.contains(c) {
                if c == p[0].0 {
                    assert(has_key(p, c));
                } else {
                    assert(has_key(p.drop_first(), c));
                    let j = choose|j: int|
                        0 <= j < p.drop_first().len() && p.drop_first()[j].0 == c;
                    assert(p[j + 1].0 == c);
                    assert(has_key(p, c));
                }
            }
        }
        assert forall|c: Seq<char>| acc.contains(c) || has_key(p, c) implies
            #[trigger] r.contains(c) by {
            if acc.contains(c) {
                assert(acc2.contains(c));
            } else {
                let j = choose|j: int| 0 <= j < p.len() && p[j].0 == c;
                if j == 0 {
                    assert(acc2.contains(c));
                } else {
                    assert(p.drop_first()[j - 1].0 == c);
                    assert(has_key(p.drop_first(), c));
                }
            }
        }
    }
}

/// Folding every mapping of the list keeps the key list strictly
/// ascending and adds exactly the list's keys.
proof fn lemma_key_union_from_props(objs: Seq<Node>, acc: Seq<Seq<char>>)
    requires
        ordered_distinct(acc),
    ensures
        ordered_distinct(key_union_from(objs, acc)),
        forall|c: Seq<char>|
            #[trigger] key_union_from(objs, acc).contains(c) <==> (acc.contains(c)
                || list_has_key(objs, c)),
    decreases objs.len(),
{
    if objs.len() == 0 {
        assert(forall|c: Seq<char>| !list_has_key(objs, c));
    } else {
        let acc2 = if objs[0] is Mapping {
            keys_of_pairs(objs[0]->Mapping_0, acc)
        } else {
            acc
        };
        if objs[0] is Mapping {
            lemma_keys_of_pairs_props(objs[0]->Mapping_0, acc);
        }
        lemma_key_union_from_props(objs.drop_first(), acc2);
        let r = key_union_from(objs, acc);
        assert forall|c: Seq<char>| #[trigger] r.contains(c) implies (acc.contains(c)
            || list_has_key(objs, c)) by {
            if !acc.contains(c) {
                if acc2.contains(c) {
                    assert(objs[0] is Mapping && has_key(objs[0]->Mapping_0, c));
                    assert(list_has_key(objs, c));
                } else {
                    assert(list_has_key(objs.drop_first(), c));
                    let i = choose|i: int|
                        0 <= i < objs.drop_first().len() && #[trigger] objs.drop_first()[i]
                            is Mapping && has_key(objs.drop_first()[i]->Mapping_0, c);
                    assert(objs[i + 1] is Mapping && has_key(objs[i + 1]->Mapping_0, c));
                }
            }
        }
        assert forall|c: Seq<char>| acc.contains(c) || list_has_key(objs, c) implies
            #[trigger] r.contains(c) by {
            if acc.contains(c) {
                assert(acc2.contains(c));
            } else {
                let i = choose|i: int|
                    0 <= i < objs.len() && #[trigger] objs[i] is Mapping && has_key(
                        objs[i]->Mapping_0,
                        c,
                    );
                if i == 0 {
                    assert(acc2.contains(c));
                } else {
                    assert(objs.drop_first()[i - 1] == objs[i]);
                    assert(list_has_key(objs.drop_first(), c));
                }
            }
        }
    }
}

/// The column order is a pure function of the key set: two lists of
/// objects whose mappings carry the same keys, in any object order and
/// any key order, give the same sorted column union.
pub proof fn lemma_column_order_pure(objs1: Seq<Node>, objs2: Seq<Node>)
    requires
        forall|c: Seq<char>| list_has_key(objs1, c) <==> list_has_key(objs2, c),
    ensures
        key_union(objs1) == key_union(objs2),
{
    let e = Seq::<Seq<char>>::empty();
    lemma_key_union_from_props(objs1, e);
    lemma_key_union_from_props(objs2, e);
    assert(forall|c: Seq<char>| !e.contains(c));
    assert(forall|c: Seq<char>|
        #[trigger] key_union(objs1).contains(c) <==> key_union(objs2).contains(c));
    lemma_sorted_eq(key_union(objs1), key_union(objs2));
}

/// A scalar encodes as the scalar escaper's rendering, at every level.
pub proof fn lemma_scalar_inline(v: Node, ind: nat, lvl: nat)
    requires
        !(v is List),
        !(v is Mapping),
    ensures
        spec_encode(v, ind, lvl) == spec_value(v, ind, lvl),
        v is Str ==> spec_encode(v, ind, lvl) == escape_seq(v->Str_0),
{
}

/// The empty mapping encodes as `{}`, unconditionally.
pub proof fn lemma_empty_mapping(ind: nat, lvl: nat)
    ensures
        spec_encode(Node::Mapping(Seq::empty()), ind, lvl) == seq!['{', '}'],
{
}

/// The empty list encodes as `[]`, unconditionally.
pub proof fn lemma_empty_list(ind: nat, lvl: nat)
    ensures
        spec_encode(Node::List(Seq::empty()), ind, lvl) == seq!['[', ']'],
{
}

/// Encoding is deterministic: two values with the same model encode to
/// the same text, whatever order they were built in.
pub proof fn lemma_deterministic(v1: Value, v2: Value, ind: nat, lvl: nat)
    requires
        v1@ == v2@,
    ensures
        spec_encode(v1@, ind, lvl) == spec_encode(v2@, ind, lvl),
{
}

/// The tabular block has one data row per object.
proof fn lemma_row_lines_shape(objs: Seq<Node>, cols: Seq<Seq<char>>)
    requires
        all_mappings(objs),
    ensures
        row_lines(objs, cols).len() == objs.len(),
        forall|i: int|
            0 <= i < objs.len() ==> #[trigger] row_lines(objs, cols)[i] == seq![' ', ' ']
                + join_plus(row_cells(objs[i]->Mapping_0, cols), seq![',']),
    decreases objs.len(),
{
    if objs.len() > 0 {
        assert(forall|i: int|
            0 <= i < objs.drop_last().len() ==> #[trigger] objs.drop_last()[i] == objs[i]);
        lemma_row_lines_shape(objs.drop_last(), cols);
        assert(objs.last() is Mapping);
    }
}

/// The tabular block is the newline-join of one header line, holding
/// the object count and the sorted column union, and exactly one data
/// row per object, in list order, each at a two-space indent with its
/// cells comma-joined in column order.
pub proof fn lemma_tabular_shape(k: Seq<char>, objs: Seq<Node>, ind: nat, lvl: nat)
    requires
        objs.len() > 0,
        all_mappings(objs),
        key_union(objs).len() > 0,
    ensures
        ({
            let cols = key_union(objs);
            let header = spaces(ind * lvl) + k + seq!['['] + dec_seq(objs.len())
                + seq![']', '{'] + join_plus(cols, seq![',']) + seq!['}', ':'];
            let rows = row_lines(objs, cols);
            &&& spec_tabular(k, objs, ind, lvl) == join_plus(
                seq![header] + rows,
                seq!['\n'],
            )
            &&& rows.len() == objs.len()
            &&& forall|i: int|
                0 <= i < objs.len() ==> #[trigger] rows[i] == seq![' ', ' '] + join_plus(
                    row_cells(objs[i]->Mapping_0, cols),
                    seq![','],
                )
        }),
{
    lemma_row_lines_shape(objs, key_union(objs));
}

/// How often a character occurs in a sequence.
pub open spec fn count_char(s: Seq<char>, c: char) -> nat
    decreases s.len(),
{
    if s.len() == 0 {
        0
    } else if s.last() == c {
        count_char(s.drop_last(), c) + 1
    } else {
        count_char(s.drop_last(), c)
    }
}

/// Occurrences add up over concatenation.
proof fn lemma_count_concat(a: Seq<char>, b: Seq<char>, c: char)
    ensures
        count_char(a + b, c) == count_char(a, c) + count_char(b, c),
    decreases b.len(),
{
    if b.len() == 0 {
        assert(a + b =~= a);
    } else {
        lemma_count_concat(a, b.drop_last(), c);
        assert((a + b).drop_last() =~= a + b.drop_last());
        assert((a + b).last() == b.last());
    }
}

/// A sequence without the character counts zero of it.
proof fn lemma_count_zero(s: Seq<char>, c: char)
    requires
        !s.contains(c),
    ensures
        count_char(s, c) == 0,
    decreases s.len(),
{
    if s.len() > 0 {
        assert(!s.drop_last().contains(c)) by {
            if s.drop_last().contains(c) {
                let i = choose|i: int| 0 <= i < s.drop_last().len() && s.drop_last()[i] == c;
                assert(s[i] == c);
            }
        }
        lemma_count_zero(s.drop_last(), c);
        assert(s.last() != c) by {
            if s.last() == c {
                assert(s[s.len() - 1] == c);
            }
        }
    }
}

/// Joining single-line parts with newlines puts exactly one newline
/// between consecutive parts.
proof fn lemma_join_newline_count(lines: Seq<Seq<char>>)
    requires
        lines.len() > 0,
        forall|i: int| 0 <= i < lines.len() ==> !(#[trigger] lines[i]).contains('\n'),
    ensures
        count_char(join_plus(lines, seq!['\n']), '\n') == lines.len() - 1,
    decreases lines.len(),
{
    if lines.len() == 1 {
        lemma_count_zero(lines[0], '\n');
    } else {
        assert(forall|i: int|
            0 <= i < lines.drop_last().len() ==> !(#[trigger] lines.drop_last()[i]).contains(
                '\n',
            ));
        lemma_join_newline_count(lines.drop_last());
        let front = join_plus(lines.drop_last(), seq!['\n']);
        lemma_count_concat(front, seq!['\n'], '\n');
        lemma_count_concat(front + seq!['\n'], lines.last(), '\n');
        lemma_count_zero(lines.last(), '\n');
        assert(count_char(seq!['\n'], '\n') == 1) by {
            assert(seq!['\n'].last() == '\n');
            assert(seq!['\n'].drop_last() =~= Seq::<char>::empty());
            assert(count_char(Seq::<char>::empty(), '\n') == 0);
        }
    }
}

/// Where the header and every data row is a single line, the tabular
/// block holds exactly one newline per data row: a header line followed
/// by exactly one data line per object.
pub proof fn lemma_tabular_line_count(k: Seq<char>, objs: Seq<Node>, ind: nat, lvl: nat)
    requires
        objs.len() > 0,
        all_mappings(objs),
        key_union(objs).len() > 0,
        !(spaces(ind * lvl) + k + seq!['['] + dec_seq(objs.len()) + seq![']', '{']
            + join_plus(key_union(objs), seq![',']) + seq!['}', ':']).contains('\n'),
        forall|i: int|
            0 <= i < objs.len() ==> !(#[trigger] row_lines(objs, key_union(objs))[i]).contains(
                '\n',
            ),
    ensures
        count_char(spec_tabular(k, objs, ind, lvl), '\n') == objs.len(),
{
    let cols = key_union(objs);
    let header = spaces(ind * lvl) + k + seq!['['] + dec_seq(objs.len()) + seq![']', '{']
        + join_plus(cols, seq![',']) + seq!['}', ':'];
    lemma_row_lines_shape(objs, cols);
    let lines = seq![header] + row_lines(objs, cols);
    assert forall|i: int| 0 <= i < lines.len() implies !(#[trigger] lines[i]).contains(
        '\n',
    ) by {
        if i > 0 {
            assert(lines[i] == row_lines(objs, cols)[i - 1]);
        }
    }
    lemma_join_newline_count(lines);
}

/// Escaping never leaves a raw control character in the body.
proof fn lemma_esc_body_no_ctl(s: Seq<char>)
    ensures
        forall|i: int| 0 <= i < esc_body(s).len() ==> !is_ctl(#[trigger] esc_body(s)[i]),
    decreases s.len(),
{
    if s.len() > 0 {
        lemma_esc_body_no_ctl(s.drop_last());
        assert forall|i: int| 0 <= i < esc_body(s).len() implies !is_ctl(
            #[trigger] esc_body(s)[i],
        ) by {
            let b = esc_body(s.drop_last());
            if i < b.len() {
                assert(esc_body(s)[i] == b[i]);
            } else {
                assert(esc_body(s)[i] == esc_char(s.last())[i - b.len()]);
            }
        }
    }
}

/// A string holding a newline, tab or carriage return is emitted
/// wrapped in double quotes, with every control character replaced by
/// its backslash escape: the scalar token holds no raw control byte.
pub proof fn lemma_control_chars_quoted(s: Seq<char>)
    requires
        has_control(s),
    ensures
        escape_seq(s).len() >= 2,
        escape_seq(s)[0] == '"',
        escape_seq(s)[escape_seq(s).len() - 1] == '"',
        forall|i: int|
            0 <= i < escape_seq(s).len() ==> !is_ctl(#[trigger] escape_seq(s)[i]),
{
    lemma_esc_body_no_ctl(s);
    let e = escape_seq(s);
    let b = esc_body(s);
    assert(e == seq!['"'] + b + seq!['"']);
    assert forall|i: int| 0 <= i < e.len() implies !is_ctl(#[trigger] e[i]) by {
        if i == 0 || i == e.len() - 1 {
            assert(e[i] == '"');
        } else {
            assert(e[i] == b[i - 1]);
        }
    }
}

} // verus!
