//! Small text building blocks shared by the encoders: indentation,
//! decimal rendering of counts, separator joins, and the lexicographic
//! key order used for tabular columns.

use vstd::prelude::*;

verus! {

/// `n` space characters.
pub open spec fn spaces(n: nat) -> Seq<char>
    decreases n,
{
    if n == 0 {
        Seq::empty()
    } else {
        spaces((n - 1) as nat).push(' ')
    }
}

/// The decimal digit `d` (at most 9) as a character.
pub open spec fn dec_digit(d: nat) -> char {
    if d == 0 {
        '0'
    } else if d == 1 {
        '1'
    } else if d == 2 {
        '2'
    } else if d == 3 {
        '3'
    } else if d == 4 {
        '4'
    } else if d == 5 {
        '5'
    } else if d == 6 {
        '6'
    } else if d == 7 {
        '7'
    } else if d == 8 {
        '8'
    } else {
        '9'
    }
}

/// The decimal text of `n`, without sign or padding.
pub open spec fn dec_seq(n: nat) -> Seq<char>
    decreases n,
{
    if n < 10 {
        seq![dec_digit(n)]
    } else {
        dec_seq(n / 10) + seq![dec_digit(n % 10)]
    }
}

/// `parts` joined with `sep` between consecutive parts.
pub open spec fn join_plus(parts: Seq<Seq<char>>, sep: Seq<char>) -> Seq<char>
    decreases parts.len(),
{
    if parts.len() == 0 {
        Seq::empty()
    } else if parts.len() == 1 {
        parts[0]
    } else {
        join_plus(parts.drop_last(), sep) + sep + parts.last()
    }
}

/// Lexicographic order on character sequences by code point; the order
/// of the tabular columns.
pub open spec fn lex_le(a: Seq<char>, b: Seq<char>) -> bool
    decreases a.len(),
{
    if a.len() == 0 {
        true
    } else if b.len() == 0 {
        false
    } else if (a[0] as u32) < (b[0] as u32) {
        true
    } else if (a[0] as u32) > (b[0] as u32) {
        false
    } else {
        lex_le(a.drop_first(), b.drop_first())
    }
}

pub proof fn lemma_lex_refl(a: Seq<char>)
    ensures
        lex_le(a, a),
    decreases a.len(),
{
    if a.len() > 0 {
        lemma_lex_refl(a.drop_first());
    }
}

/// Dropping an equal prefix does not change the order.
pub proof fn lemma_lex_skip(a: Seq<char>, b: Seq<char>, i: int)
    requires
        0 <= i <= a.len(),
        i <= b.len(),
        forall|j: int| 0 <= j < i ==> a[j] == b[j],
    ensures
        lex_le(a, b) == lex_le(a.skip(i), b.skip(i)),
    decreases i,
{
    if i == 0 {
        assert(a.skip(0) =~= a);
        assert(b.skip(0) =~= b);
    } else {
        assert(a.len() > 0 && b.len() > 0);
        assert(a[0] == b[0]);
        assert((a[0] as u32) == (b[0] as u32));
        assert(forall|j: int|
            0 <= j < i - 1 ==> a.drop_first()[j] == b.drop_first()[j]);
        lemma_lex_skip(a.drop_first(), b.drop_first(), i - 1);
        assert(a.drop_first().skip(i - 1) =~= a.skip(i));
        assert(b.drop_first().skip(i - 1) =~= b.skip(i));
    }
}

/// Insert `k` into the ordered key list `ks`: before the first larger
/// key, and not at all where it already stands.
pub open spec fn sorted_insert(ks: Seq<Seq<char>>, k: Seq<char>) -> Seq<Seq<char>>
    decreases ks.len(),
{
    if ks.len() == 0 {
        seq![k]
    } else if ks[0] == k {
        ks
    } else if lex_le(ks[0], k) {
        seq![ks[0]] + sorted_insert(ks.drop_first(), k)
    } else {
        seq![k] + ks
    }
}

/// The character sequences behind a list of strings.
pub open spec fn views_of(ks: Seq<String>) -> Seq<Seq<char>> {
    ks.map_values(|s: String| s@)
}

/// Renders the space prefix of `level` nesting levels of `indent`
/// spaces each.
pub fn indent_prefix(indent: usize, level: usize) -> (r: String)
    ensures
        r@ == spaces((indent * level) as nat),
{
    let mut r = String::new();
    let mut k: usize = 0;
    proof {
        reveal_strlit(" ");
    }
    while k < level
        invariant
            0 <= k <= level,
            r@ == spaces((indent * k) as nat),
            " "@ == seq![' '],
        decreases level - k,
    {
        let mut j: usize = 0;
        while j < indent
            invariant
                0 <= j <= indent,
                r@ == spaces((indent * k + j) as nat),
                " "@ == seq![' '],
            decreases indent - j,
        {
            r.append(" ");
            proof {
                assert(r@ =~= spaces((indent * k + j + 1) as nat));
            }
            j = j + 1;
        }
        proof {
            assert(indent * (k + 1) == indent * k + indent) by (nonlinear_arith);
        }
        k = k + 1;
    }
    r
}

/// The decimal digit `d` (at most 9) as text.
fn digit_str(d: usize) -> (r: &'static str)
    requires
        d < 10,
    ensures
        r@ == seq![dec_digit(d as nat)],
{
    proof {
        reveal_strlit("0");
        reveal_strlit("1");
        reveal_strlit("2");
        reveal_strlit("3");
        reveal_strlit("4");
        reveal_strlit("5");
        reveal_strlit("6");
        reveal_strlit("7");
        reveal_strlit("8");
        reveal_strlit("9");
    }
    if d == 0 {
        proof {
            assert("0"@ =~= seq![dec_digit(0)]);
        }
        "0"
    } else if d == 1 {
        proof {
            assert("1"@ =~= seq![dec_digit(1)]);
        }
        "1"
    } else if d == 2 {
        proof {
            assert("2"@ =~= seq![dec_digit(2)]);
        }
        "2"
    } else if d == 3 {
        proof {
            assert("3"@ =~= seq![dec_digit(3)]);
        }
        "3"
    } else if d == 4 {
        proof {
            assert("4"@ =~= seq![dec_digit(4)]);
        }
        "4"
    } else if d == 5 {
        proof {
            assert("5"@ =~= seq![dec_digit(5)]);
        }
        "5"
    } else if d == 6 {
        proof {
            assert("6"@ =~= seq![dec_digit(6)]);
        }
        "6"
    } else if d == 7 {
        proof {
            assert("7"@ =~= seq![dec_digit(7)]);
        }
        "7"
    } else if d == 8 {
        proof {
            assert("8"@ =~= seq![dec_digit(8)]);
        }
        "8"
    } else {
        proof {
            assert("9"@ =~= seq![dec_digit(9)]);
        }
        "9"
    }
}

/// The decimal text of a count.
pub fn usize_to_string(n: usize) -> (r: String)
    ensures
        r@ == dec_seq(n as nat),
    decreases n,
{
    if n < 10 {
        let mut r = String::new();
        r.append(digit_str(n));
        proof {
            assert(r@ =~= dec_seq(n as nat));
        }
        r
    } else {
        proof {
            assert(n / 10 < n) by (nonlinear_arith)
                requires
                    n >= 10,
            ;
        }
        let mut r = usize_to_string(n / 10);
        r.append(digit_str(n % 10));
        proof {
            assert(r@ =~= dec_seq(n as nat));
        }
        r
    }
}

/// Lexicographic comparison of two strings, by code point.
pub fn str_le(a: &str, b: &str) -> (r: bool)
    ensures
        r == lex_le(a@, b@),
{
    let alen = a.unicode_len();
    let blen = b.unicode_len();
    let mut i: usize = 0;
    loop
        invariant
            alen == a@.len(),
            blen == b@.len(),
            0 <= i <= alen,
            i <= blen,
            forall|j: int| 0 <= j < i ==> a@[j] == b@[j],
        decreases alen - i,
    {
        if i == alen || i == blen {
            proof {
                lemma_lex_skip(a@, b@, i as int);
                if i == alen {
                    assert(a@.skip(i as int).len() == 0);
                } else {
                    assert(b@.skip(i as int).len() == 0);
                    assert(a@.skip(i as int).len() > 0);
                }
            }
            return alen <= blen;
        }
        let c1 = a.get_char(i);
        let c2 = b.get_char(i);
        if (c1 as u32) < (c2 as u32) {
            proof {
                lemma_lex_skip(a@, b@, i as int);
                assert(a@.skip(i as int)[0] == a@[i as int]);
                assert(b@.skip(i as int)[0] == b@[i as int]);
            }
            return true;
        }
        if (c1 as u32) > (c2 as u32) {
            proof {
                lemma_lex_skip(a@, b@, i as int);
                assert(a@.skip(i as int)[0] == a@[i as int]);
                assert(b@.skip(i as int)[0] == b@[i as int]);
            }
            return false;
        }
        proof {
            assert((c1 as u32) == (c2 as u32));
            assert(c1 == c2);
        }
        i = i + 1;
    }
}

/// Inserts `k` into the ordered, duplicate-free key list, keeping the
/// order and dropping a key that is already present.
pub fn insert_sorted(keys: &mut Vec<String>, k: &String)
    ensures
        views_of(final(keys)@) == sorted_insert(views_of(old(keys)@), k@),
{
    let ghost orig = keys@;
    let n = keys.len();
    let mut i: usize = 0;
    proof {
        assert(views_of(orig).take(0int) =~= Seq::<Seq<char>>::empty());
        assert(views_of(orig).skip(0int) =~= views_of(orig));
        assert(views_of(orig).take(0int) + sorted_insert(views_of(orig).skip(0int), k@)
            =~= sorted_insert(views_of(orig), k@));
    }
    loop
        invariant
            orig == old(keys)@,
            keys@ == orig,
            n == orig.len(),
            0 <= i <= n,
            sorted_insert(views_of(orig), k@) == views_of(orig).take(i as int)
                + sorted_insert(views_of(orig).skip(i as int), k@),
        decreases n - i,
    {
        if i == n {
            keys.push(k.clone());
            proof {
                assert(views_of(orig).len() == orig.len());
                assert(views_of(orig).skip(i as int).len() == 0);
                assert(sorted_insert(views_of(orig).skip(i as int), k@) == seq![k@]);
                assert(views_of(keys@) =~= views_of(orig).take(i as int) + seq![k@]);
                assert(views_of(keys@) == sorted_insert(views_of(orig), k@));
            }
            return;
        }
        let same = keys[i].eq(k);
        if same {
            proof {
                assert(views_of(orig).skip(i as int)[0] == orig[i as int]@);
                assert(sorted_insert(views_of(orig).skip(i as int), k@)
                    == views_of(orig).skip(i as int));
                assert(views_of(orig).take(i as int) + views_of(orig).skip(i as int)
                    =~= views_of(orig));
            }
            return;
        }
        let le = str_le(keys[i].as_str(), k.as_str());
        if le {
            proof {
                let vs = views_of(orig).skip(i as int);
                assert(vs[0] == orig[i as int]@);
                assert(sorted_insert(vs, k@) == seq![vs[0]] + sorted_insert(
                    vs.drop_first(),
                    k@,
                ));
                assert(vs.drop_first() =~= views_of(orig).skip(i + 1));
                assert(views_of(orig).take(i as int) + (seq![vs[0]] + sorted_insert(
                    vs.drop_first(),
                    k@,
                )) =~= views_of(orig).take(i + 1) + sorted_insert(
                    views_of(orig).skip(i + 1),
                    k@,
                ));
            }
            i = i + 1;
        } else {
            keys.insert(i, k.clone());
            proof {
                let vs = views_of(orig).skip(i as int);
                assert(vs[0] == orig[i as int]@);
                assert(!lex_le(vs[0], k@));
                assert(sorted_insert(vs, k@) == seq![k@] + vs);
                assert(views_of(keys@) =~= views_of(orig).take(i as int) + (seq![k@]
                    + vs));
                assert(views_of(keys@) == sorted_insert(views_of(orig), k@));
            }
            return;
        }
    }
}

/// Whether the string holds the character.
pub fn contains_char(s: &str, c: char) -> (r: bool)
    ensures
        r == s@.contains(c),
{
    let n = s.unicode_len();
    let mut i: usize = 0;
    while i < n
        invariant
            n == s@.len(),
            0 <= i <= n,
            forall|j: int| 0 <= j < i ==> s@[j] != c,
        decreases n - i,
    {
        if s.get_char(i) == c {
            proof {
                assert(s@[i as int] == c);
            }
            return true;
        }
        i = i + 1;
    }
    proof {
        assert(!s@.contains(c)) by {
            assert(forall|j: int| 0 <= j < s@.len() ==> s@[j] != c);
        }
    }
    false
}

} // verus!
