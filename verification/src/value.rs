//! The value formatter: the small set of backslash escape sequences that the
//! entry format allows in values (`\s \n \t \r \\`), with the single optional
//! space that may follow the `=` separator.

use crate::decoder::DecodeError;
use vstd::prelude::*;

verus! {

/// One leading space is permitted after `=` and is not part of the value.
pub open spec fn strip_leading_space(s: Seq<char>) -> Seq<char> {
    if s.len() > 0 && s[0] == ' ' {
        s.drop_first()
    } else {
        s
    }
}

/// What one escape code stands for; `None` for a code outside the format.
pub open spec fn unescape_code(c: char) -> Option<char> {
    if c == 's' {
        Some(' ')
    } else if c == 'n' {
        Some('\n')
    } else if c == 't' {
        Some('\t')
    } else if c == 'r' {
        Some('\r')
    } else if c == '\\' {
        Some('\\')
    } else {
        None
    }
}

/// Unescaping a raw value (after the leading space was stripped):
/// `None` for a trailing unmatched backslash or an unknown escape code.
pub open spec fn unescape_seq(s: Seq<char>) -> Option<Seq<char>>
    decreases s.len(),
{
    if s.len() == 0 {
        Some(Seq::empty())
    } else if s[0] == '\\' {
        if s.len() == 1 {
            None
        } else {
            match unescape_code(s[1]) {
                Some(c) => match unescape_seq(s.skip(2)) {
                    Some(rest) => Some(seq![c] + rest),
                    None => None,
                },
                None => None,
            }
        }
    } else {
        match unescape_seq(s.skip(1)) {
            Some(rest) => Some(seq![s[0]] + rest),
            None => None,
        }
    }
}

/// How one character of a value is written in a document.
pub open spec fn escape_char(c: char) -> Seq<char> {
    if c == '\\' {
        seq!['\\', '\\']
    } else if c == '\n' {
        seq!['\\', 'n']
    } else if c == '\t' {
        seq!['\\', 't']
    } else if c == '\r' {
        seq!['\\', 'r']
    } else {
        seq![c]
    }
}

/// How a whole value is written in a document.
pub open spec fn escape_seq(v: Seq<char>) -> Seq<char>
    decreases v.len(),
{
    if v.len() == 0 {
        Seq::empty()
    } else {
        escape_char(v[0]) + escape_seq(v.drop_first())
    }
}

/// Unescape a raw value as it stands after `=`, stripping one leading space
/// if present.  Fails with `InvalidValue` exactly on malformed escapes.
pub fn format_value(input: &str) -> (r: Result<String, DecodeError>)
    ensures
        match r {
            Ok(v) => unescape_seq(strip_leading_space(input@)) == Some(v@),
            Err(e) => e is InvalidValue && unescape_seq(strip_leading_space(input@)) is None,
        },
{
    let len = input.unicode_len();
    let start: usize = if len > 0 && input.get_char(0) == ' ' {
        1
    } else {
        0
    };
    let ghost stripped = strip_leading_space(input@);
    proof {
        assert(stripped =~= input@.skip(start as int));
    }
    let mut res = String::new();
    let mut i: usize = start;
    while i < len
        invariant
            start <= i <= len,
            len == input@.len(),
            stripped == strip_leading_space(input@),
            stripped == input@.skip(start as int),
            unescape_seq(stripped) == match unescape_seq(input@.skip(i as int)) {
                Some(t) => Some(res@ + t),
                None => None::<Seq<char>>,
            },
        decreases len - i,
    {
        let c = input.get_char(i);
        let ghost pre = input@.skip(i as int);
        proof {
            assert(pre[0] == c);
        }
        if c == '\\' {
            if i + 1 >= len {
                proof {
                    assert(pre.len() == 1);
                }
                return Err(DecodeError::InvalidValue);
            }
            let d = input.get_char(i + 1);
            proof {
                assert(pre[1] == d);
            }
            let e: char = if d == 's' {
                ' '
            } else if d == 'n' {
                '\n'
            } else if d == 't' {
                '\t'
            } else if d == 'r' {
                '\r'
            } else if d == '\\' {
                '\\'
            } else {
                return Err(DecodeError::InvalidValue);
            };
            let ghost res_old = res@;
            res.push(e);
            i += 2;
            proof {
                assert(unescape_code(d) == Some(e));
                assert(pre.skip(2) =~= input@.skip(i as int));
                assert forall|t: Seq<char>| #[trigger] (seq![e] + t).len() >= 0 implies res_old
                    + (seq![e] + t) =~= res@ + t by {}
            }
        } else {
            let ghost res_old = res@;
            res.push(c);
            i += 1;
            proof {
                assert(pre.skip(1) =~= input@.skip(i as int));
                assert forall|t: Seq<char>| #[trigger] (seq![c] + t).len() >= 0 implies res_old
                    + (seq![c] + t) =~= res@ + t by {}
            }
        }
    }
    proof {
        assert(input@.skip(len as int) =~= Seq::<char>::empty());
        assert(res@ + Seq::<char>::empty() =~= res@);
    }
    Ok(res)
}

/// A value free of backslashes unescapes to itself.
pub proof fn lemma_unescape_no_backslash(s: Seq<char>)
    requires
        forall|i: int| 0 <= i < s.len() ==> s[i] != '\\',
    ensures
        unescape_seq(s) == Some(s),
    decreases s.len(),
{
    if s.len() > 0 {
        lemma_unescape_no_backslash(s.skip(1));
        assert(seq![s[0]] + s.skip(1) =~= s);
    }
}

/// Escaping then unescaping gives the value back.
pub proof fn lemma_unescape_escape(v: Seq<char>)
    ensures
        unescape_seq(escape_seq(v)) == Some(v),
    decreases v.len(),
{
    if v.len() > 0 {
        lemma_unescape_escape(v.drop_first());
        let e = escape_seq(v);
        let c = v[0];
        if c == '\\' || c == '\n' || c == '\t' || c == '\r' {
            assert(e.skip(2) =~= escape_seq(v.drop_first()));
            assert(seq![c] + v.drop_first() =~= v);
        } else {
            assert(e[0] == c);
            assert(e.skip(1) =~= escape_seq(v.drop_first()));
            assert(seq![c] + v.drop_first() =~= v);
        }
    }
}

} // verus!
