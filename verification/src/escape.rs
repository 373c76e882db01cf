//! The scalar escaper: renders a single string as its TOON token.
//!
//! A string without control characters is emitted verbatim; one holding a
//! newline, tab or carriage return is wrapped in double quotes, with
//! backslash escapes for `\\`, `"`, and the control characters.
//!
//! This is the whole quoting policy at the scalar level: punctuation such
//! as `:` or `,` alone never forces quotes here. Punctuation-triggered
//! quoting belongs to the tabular cell renderer alone (see `format`).

use vstd::prelude::*;

verus! {

/// The control characters that force quoting.
pub open spec fn is_ctl(c: char) -> bool {
    c == '\n' || c == '\t' || c == '\r'
}

/// Whether some character of `s` forces quoting.
pub open spec fn has_control(s: Seq<char>) -> bool {
    exists|i: int| 0 <= i < s.len() && is_ctl(#[trigger] s[i])
}

/// The escape of one character inside a quoted string.
pub open spec fn esc_char(c: char) -> Seq<char> {
    if c == '\\' {
        seq!['\\', '\\']
    } else if c == '"' {
        seq!['\\', '"']
    } else if c == '\n' {
        seq!['\\', 'n']
    } else if c == '\r' {
        seq!['\\', 'r']
    } else if c == '\t' {
        seq!['\\', 't']
    } else {
        seq![c]
    }
}

/// The body of a quoted string: every character escaped, in order.
pub open spec fn esc_body(s: Seq<char>) -> Seq<char>
    decreases s.len(),
{
    if s.len() == 0 {
        Seq::empty()
    } else {
        esc_body(s.drop_last()) + esc_char(s.last())
    }
}

/// The scalar escaper's rendering of a string value.
pub open spec fn escape_seq(s: Seq<char>) -> Seq<char> {
    if !has_control(s) {
        s
    } else {
        seq!['"'] + esc_body(s) + seq!['"']
    }
}

/// Renders a string value as its TOON scalar token.
pub fn escape_string(s: &str) -> (r: String)
    ensures
        r@ == escape_seq(s@),
{
    let n = s.unicode_len();
    let mut has_ctrl = false;
    let mut i: usize = 0;
    while i < n
        invariant
            n == s@.len(),
            0 <= i <= n,
            has_ctrl == has_control(s@.take(i as int)),
        decreases n - i,
    {
        let c = s.get_char(i);
        if c == '\n' || c == '\t' || c == '\r' {
            has_ctrl = true;
        }
        proof {
            assert(s@.take(i + 1).drop_last() =~= s@.take(i as int));
            assert(s@.take(i + 1).last() == s@[i as int]);
            if has_control(s@.take(i as int)) || is_ctl(s@[i as int]) {
                assert(has_control(s@.take(i + 1))) by {
                    if is_ctl(s@[i as int]) {
                        assert(is_ctl(s@.take(i + 1)[i as int]));
                    } else {
                        let j = choose|j: int|
                            0 <= j < s@.take(i as int).len() && is_ctl(
                                #[trigger] s@.take(i as int)[j],
                            );
                        assert(is_ctl(s@.take(i + 1)[j]));
                    }
                }
            } else {
                assert(!has_control(s@.take(i + 1))) by {
                    assert(forall|j: int|
                        0 <= j < i + 1 ==> !is_ctl(#[trigger] s@.take(i + 1)[j]));
                }
            }
        }
        i = i + 1;
    }
    proof {
        assert(s@.take(n as int) =~= s@);
    }
    if !has_ctrl {
        return s.to_owned();
    }
    let mut r = String::new();
    r.append("\"");
    proof {
        reveal_strlit("\"");
        assert(s@.take(0int) =~= Seq::<char>::empty());
        assert(r@ =~= seq!['"'] + esc_body(s@.take(0int)));
    }
    let mut i: usize = 0;
    while i < n
        invariant
            n == s@.len(),
            0 <= i <= n,
            r@ == seq!['"'] + esc_body(s@.take(i as int)),
        decreases n - i,
    {
        let c = s.get_char(i);
        if c == '\\' {
            r.append("\\\\");
            proof {
                reveal_strlit("\\\\");
            }
        } else if c == '"' {
            r.append("\\\"");
            proof {
                reveal_strlit("\\\"");
            }
        } else if c == '\n' {
            r.append("\\n");
            proof {
                reveal_strlit("\\n");
            }
        } else if c == '\r' {
            r.append("\\r");
            proof {
                reveal_strlit("\\r");
            }
        } else if c == '\t' {
            r.append("\\t");
            proof {
                reveal_strlit("\\t");
            }
        } else {
            let piece = s.substring_char(i, i + 1);
            r.append(piece);
            proof {
                assert(piece@ =~= seq![s@[i as int]]);
            }
        }
        proof {
            assert(s@.take(i + 1).drop_last() =~= s@.take(i as int));
            assert(s@.take(i + 1).last() == s@[i as int]);
            assert(r@ =~= seq!['"'] + esc_body(s@.take(i + 1)));
        }
        i = i + 1;
    }
    r.append("\"");
    proof {
        reveal_strlit("\"");
        assert(s@.take(n as int) =~= s@);
        assert(r@ =~= seq!['"'] + esc_body(s@) + seq!['"']);
    }
    r
}

} // verus!
