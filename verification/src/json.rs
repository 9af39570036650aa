//! Byte-level JSON string escaping and unescaping.
//!
//! Artifacts are persisted as compact UTF-8 JSON text. Inside a JSON string
//! the double quote, the backslash and every control byte below `0x20` are
//! escaped; the common control characters use their two-character short
//! forms and the rest use `\u00` followed by two lowercase hex digits.
//! Multi-byte UTF-8 sequences consist of bytes at or above `0x80`, so
//! escaping the encoded bytes one by one never splits a character.

use vstd::prelude::*;
use vstd::utf8::valid_utf8;

verus! {

/// `"`
pub const QUOTE: u8 = 34;

/// `\`
pub const BACKSLASH: u8 = 92;

/// `,`
pub const COMMA: u8 = 44;

/// `]`
pub const RBRACKET: u8 = 93;

/// `}`
pub const RBRACE: u8 = 125;

/// The lowercase hex digit character (as a byte) for `d` in `0..16`.
pub open spec fn hex_digit(d: int) -> u8 {
    if d < 10 {
        (48 + d) as u8
    } else {
        (87 + d) as u8
    }
}

/// The value of a lowercase hex digit byte, or 16 if `c` is no such digit.
pub open spec fn hex_val(c: u8) -> int {
    if 48 <= c <= 57 {
        c - 48
    } else if 97 <= c <= 102 {
        c - 87
    } else {
        16
    }
}

/// How one byte of a JSON string body is written.
pub open spec fn escape_byte(b: u8) -> Seq<u8> {
    if b == QUOTE {
        seq![BACKSLASH, QUOTE]
    } else if b == BACKSLASH {
        seq![BACKSLASH, BACKSLASH]
    } else if b == 8 {
        seq![BACKSLASH, 98]  // \b
    } else if b == 9 {
        seq![BACKSLASH, 116]  // \t
    } else if b == 10 {
        seq![BACKSLASH, 110]  // \n
    } else if b == 12 {
        seq![BACKSLASH, 102]  // \f
    } else if b == 13 {
        seq![BACKSLASH, 114]  // \r
    } else if b < 32 {
        seq![BACKSLASH, 117, 48, 48, hex_digit(b as int / 16), hex_digit(b as int % 16)]
    } else {
        seq![b]
    }
}

/// A whole string body, escaped byte by byte.
pub open spec fn esc(s: Seq<u8>) -> Seq<u8>
    decreases s.len(),
{
    if s.len() == 0 {
        seq![]
    } else {
        escape_byte(s[0]) + esc(s.drop_first())
    }
}

/// The byte a two-character escape stands for.
pub open spec fn unescape_code(c: u8) -> u8 {
    if c == QUOTE {
        QUOTE
    } else if c == BACKSLASH {
        BACKSLASH
    } else if c == 98 {
        8
    } else if c == 116 {
        9
    } else if c == 110 {
        10
    } else if c == 102 {
        12
    } else {
        13
    }
}

/// Whether `c` is the second character of a two-character escape.
pub open spec fn is_short_code(c: u8) -> bool {
    c == QUOTE || c == BACKSLASH || c == 98 || c == 116 || c == 110 || c == 102 || c == 114
}

/// Reads a JSON string body from the front of `b` up to and including the
/// closing quote. Returns the unescaped bytes and how many input bytes were
/// consumed; `None` when no well-formed quoted body starts `b`.
pub open spec fn spec_unesc(b: Seq<u8>) -> Option<(Seq<u8>, int)>
    decreases b.len(),
{
    if b.len() == 0 {
        None
    } else if b[0] == QUOTE {
        Some((seq![], 1int))
    } else if b[0] == BACKSLASH {
        if b.len() < 2 {
            None
        } else if is_short_code(b[1]) {
            match spec_unesc(b.skip(2)) {
                None => None,
                Some(p) => Some((seq![unescape_code(b[1])] + p.0, 2 + p.1)),
            }
        } else if b[1] == 117 {
            if b.len() < 6 {
                None
            } else if b[2] == 48 && b[3] == 48 && hex_val(b[4]) < 16 && hex_val(b[5]) < 16 {
                match spec_unesc(b.skip(6)) {
                    None => None,
                    Some(p) => Some(
                        (seq![(hex_val(b[4]) * 16 + hex_val(b[5])) as u8] + p.0, 6 + p.1),
                    ),
                }
            } else {
                None
            }
        } else {
            None
        }
    } else if b[0] < 32 {
        None
    } else {
        match spec_unesc(b.skip(1)) {
            None => None,
            Some(p) => Some((seq![b[0]] + p.0, 1 + p.1)),
        }
    }
}

/// `b.skip(n)` made total: anything out of range yields the empty sequence.
pub open spec fn chop(b: Seq<u8>, n: int) -> Seq<u8> {
    if 0 <= n <= b.len() {
        b.skip(n)
    } else {
        seq![]
    }
}

/// Escaping distributes over appending one byte.
pub proof fn lemma_esc_push(s: Seq<u8>, b: u8)
    ensures
        esc(s.push(b)) == esc(s) + escape_byte(b),
    decreases s.len(),
{
    if s.len() == 0 {
        assert(s.push(b)[0] == b);
        assert(s.push(b).drop_first() =~= Seq::<u8>::empty());
        assert(esc(s.push(b)) == escape_byte(b) + esc(s.push(b).drop_first()));
        assert(esc(s.push(b).drop_first()) == Seq::<u8>::empty());
        assert(esc(s) == Seq::<u8>::empty());
        assert(esc(s.push(b)) =~= esc(s) + escape_byte(b));
    } else {
        assert(s.push(b)[0] == s[0]);
        assert(s.push(b).drop_first() =~= s.drop_first().push(b));
        lemma_esc_push(s.drop_first(), b);
        assert(esc(s.push(b)) == escape_byte(s[0]) + esc(s.drop_first().push(b)));
        assert(esc(s.push(b)) =~= esc(s) + escape_byte(b));
    }
}

/// Reading back an escaped body finds exactly the original bytes and stops
/// at the closing quote, whatever follows it.
pub proof fn lemma_unesc_esc(u: Seq<u8>, rest: Seq<u8>)
    ensures
        spec_unesc(esc(u) + seq![QUOTE] + rest) == Some((u, esc(u).len() as int + 1)),
    decreases u.len(),
{
    let b = esc(u) + seq![QUOTE] + rest;
    if u.len() == 0 {
        assert(b =~= seq![QUOTE] + rest);
        assert(b[0] == QUOTE);
        assert(spec_unesc(b) == Some((Seq::<u8>::empty(), 1int)));
        assert(u =~= Seq::<u8>::empty());
    } else {
        let e0 = escape_byte(u[0]);
        let tail = esc(u.drop_first()) + seq![QUOTE] + rest;
        assert(esc(u) == e0 + esc(u.drop_first()));
        assert(b =~= e0 + tail);
        lemma_unesc_esc(u.drop_first(), rest);
        let c = u[0];
        if c == QUOTE || c == BACKSLASH || c == 8 || c == 9 || c == 10 || c == 12 || c == 13 {
            // two-character short form
            assert(b[0] == BACKSLASH && is_short_code(b[1]));
            assert(b.skip(2) =~= tail);
            assert(unescape_code(b[1]) == c);
            assert(seq![c] + u.drop_first() =~= u);
        } else if c < 32 {
            // \u00xx long form
            assert(b[0] == BACKSLASH && b[1] == 117 && !is_short_code(b[1]));
            assert(b[2] == 48 && b[3] == 48);
            assert(b[4] == hex_digit(c as int / 16) && b[5] == hex_digit(c as int % 16));
            assert(hex_val(hex_digit(c as int / 16)) == c as int / 16);
            assert(hex_val(hex_digit(c as int % 16)) == c as int % 16);
            assert((hex_val(b[4]) * 16 + hex_val(b[5])) as u8 == c);
            assert(b.skip(6) =~= tail);
            assert(seq![c] + u.drop_first() =~= u);
        } else {
            // written as itself
            assert(b[0] == c && c != QUOTE && c != BACKSLASH && c >= 32);
            assert(b.skip(1) =~= tail);
            assert(seq![c] + u.drop_first() =~= u);
        }
    }
}

/// Appends the escaped form of `data` to `out`.
pub fn escape_into(out: &mut Vec<u8>, data: &[u8])
    ensures
        final(out)@ == old(out)@ + esc(data@),
{
    let mut i: usize = 0;
    proof {
        assert(out@ =~= old(out)@ + esc(data@.take(0)));
    }
    while i < data.len()
        invariant
            i <= data@.len(),
            out@ == old(out)@ + esc(data@.take(i as int)),
        decreases data@.len() - i,
    {
        let b = data[i];
        if b == QUOTE {
            out.push(BACKSLASH);
            out.push(QUOTE);
        } else if b == BACKSLASH {
            out.push(BACKSLASH);
            out.push(BACKSLASH);
        } else if b == 8 {
            out.push(BACKSLASH);
            out.push(98);
        } else if b == 9 {
            out.push(BACKSLASH);
            out.push(116);
        } else if b == 10 {
            out.push(BACKSLASH);
            out.push(110);
        } else if b == 12 {
            out.push(BACKSLASH);
            out.push(102);
        } else if b == 13 {
            out.push(BACKSLASH);
            out.push(114);
        } else if b < 32 {
            out.push(BACKSLASH);
            out.push(117);
            out.push(48);
            out.push(48);
            out.push(hex_digit_exec(b / 16));
            out.push(hex_digit_exec(b % 16));
        } else {
            out.push(b);
        }
        proof {
            assert(data@.take(i + 1) =~= data@.take(i as int).push(data@[i as int]));
            lemma_esc_push(data@.take(i as int), data@[i as int]);
            assert(out@ =~= old(out)@ + esc(data@.take(i + 1)));
        }
        i = i + 1;
    }
    proof {
        assert(data@.take(data@.len() as int) =~= data@);
    }
}

/// The lowercase hex digit byte for `d` in `0..16`.
fn hex_digit_exec(d: u8) -> (r: u8)
    requires
        d < 16,
    ensures
        r == hex_digit(d as int),
{
    if d < 10 {
        48 + d
    } else {
        87 + d
    }
}

/// The value of a lowercase hex digit byte, 16 when `c` is no such digit.
fn hex_val_exec(c: u8) -> (r: u8)
    ensures
        r as int == hex_val(c),
{
    if 48 <= c && c <= 57 {
        c - 48
    } else if 97 <= c && c <= 102 {
        c - 87
    } else {
        16
    }
}

/// Reads a JSON string body of `b` starting at `i`, up to and including the
/// closing quote. Returns the unescaped bytes and the index just past the
/// closing quote.
pub fn unescape_from(b: &Vec<u8>, i: usize) -> (r: Option<(Vec<u8>, usize)>)
    requires
        i <= b@.len(),
    ensures
        r matches Some(p) ==> spec_unesc(b@.skip(i as int)) == Some((p.0@, p.1 - i)) && i < p.1
            <= b@.len(),
        r is None ==> spec_unesc(b@.skip(i as int)) is None,
    decreases b@.len() - i,
{
    let ghost s = b@.skip(i as int);
    if i == b.len() {
        return None;
    }
    let c0 = b[i];
    proof {
        assert(s[0] == b@[i as int]);
    }
    if c0 == QUOTE {
        return Some((Vec::new(), i + 1));
    }
    if c0 == BACKSLASH {
        if b.len() - i < 2 {
            return None;
        }
        let c1 = b[i + 1];
        proof {
            assert(s[1] == b@[i + 1]);
        }
        if c1 == QUOTE || c1 == BACKSLASH || c1 == 98 || c1 == 116 || c1 == 110 || c1 == 102
            || c1 == 114 {
            proof {
                assert(b@.skip(i + 2) =~= s.skip(2));
            }
            match unescape_from(b, i + 2) {
                None => return None,
                Some((mut v, j)) => {
                    let decoded: u8 = if c1 == QUOTE {
                        QUOTE
                    } else if c1 == BACKSLASH {
                        BACKSLASH
                    } else if c1 == 98 {
                        8
                    } else if c1 == 116 {
                        9
                    } else if c1 == 110 {
                        10
                    } else if c1 == 102 {
                        12
                    } else {
                        13
                    };
                    proof {
                        assert(decoded == unescape_code(s[1]));
                    }
                    v.insert(0, decoded);
                    proof {
                        assert(v@ =~= seq![unescape_code(s[1])] + v@.drop_first());
                    }
                    return Some((v, j));
                },
            }
        } else if c1 == 117 {
            if b.len() - i < 6 {
                return None;
            }
            let h1 = b[i + 4];
            let h2 = b[i + 5];
            proof {
                assert(s[2] == b@[i + 2] && s[3] == b@[i + 3] && s[4] == b@[i + 4] && s[5] == b@[i
                    + 5]);
            }
            if b[i + 2] == 48 && b[i + 3] == 48 && hex_val_exec(h1) < 16 && hex_val_exec(h2)
                < 16 {
                proof {
                    assert(b@.skip(i + 6) =~= s.skip(6));
                }
                match unescape_from(b, i + 6) {
                    None => return None,
                    Some((mut v, j)) => {
                        let decoded: u8 = hex_val_exec(h1) * 16 + hex_val_exec(h2);
                        v.insert(0, decoded);
                        proof {
                            assert(v@ =~= seq![(hex_val(s[4]) * 16 + hex_val(s[5])) as u8]
                                + v@.drop_first());
                        }
                        return Some((v, j));
                    },
                }
            } else {
                return None;
            }
        } else {
            return None;
        }
    }
    if c0 < 32 {
        return None;
    }
    proof {
        assert(b@.skip(i + 1) =~= s.skip(1));
    }
    match unescape_from(b, i + 1) {
        None => None,
        Some((mut v, j)) => {
            v.insert(0, c0);
            proof {
                assert(v@ =~= seq![s[0]] + v@.drop_first());
            }
            Some((v, j))
        },
    }
}

/// Relies on `String::from_utf8`: yields the string the bytes encode exactly
/// when they are valid UTF-8.
#[verifier::external_body]
pub fn string_from_utf8(bytes: Vec<u8>) -> (r: Option<String>)
    ensures
        r matches Some(s) ==> valid_utf8(bytes@) && s@ == vstd::utf8::decode_utf8(bytes@),
        r is None ==> !valid_utf8(bytes@),
{
    String::from_utf8(bytes).ok()
}

/// Whether `pat` occurs in `b` starting at `i`.
pub fn has_at(b: &Vec<u8>, i: usize, pat: &Vec<u8>) -> (r: bool)
    requires
        i <= b@.len(),
    ensures
        r == pat@.is_prefix_of(b@.skip(i as int)),
{
    let n = b.len();
    if n - i < pat.len() {
        return false;
    }
    let mut j: usize = 0;
    while j < pat.len()
        invariant
            j <= pat@.len(),
            i + pat@.len() <= n,
            n == b@.len(),
            forall|k: int| 0 <= k < j ==> pat@[k] == b@[i + k],
        decreases pat@.len() - j,
    {
        if b[i + j] != pat[j] {
            proof {
                assert(b@.skip(i as int)[j as int] == b@[i + j]);
            }
            return false;
        }
        j = j + 1;
    }
    proof {
        assert(pat@ =~= b@.skip(i as int).subrange(0, pat@.len() as int));
    }
    true
}

} // verus!
