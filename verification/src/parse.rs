//! The verified decoder for the wire form of `codec`.
//!
//! Every parsing function is stated twice over: soundness — whatever it
//! returns stands in the input at the given position, encoded exactly as
//! `codec` defines — and completeness — whenever some well-formed value's
//! encoding stands there, the function returns exactly that value. The two
//! together make `decode` the exact inverse of `encode` on well-formed
//! declarations.

use vstd::prelude::*;
use vstd::string::StrSliceExecFns;
use crate::models::{
    plain_text, number_char, number_text, lemma_number_text_chars, NumState, num_step,
    num_state, num_accepting, ts_digit, ts_core, ts_offset_at, timestamp_text, wf_db_type,
    wf_column, ApiDeclaration,
    TableDeclaration, ColumnDeclaration, DbType, StringConstraints, RangeConstraints, NumberText,
    TimestampText, DbTypeModel, ColumnModel, TableModel, DeclModel, wf_table, wf_decl,
    columns_view, tables_view,
};
use crate::codec::{
    at, enc_string, esc, esc_char, lemma_esc_cons, is_digit, dec_digits, digits_val, digit_val,
    enc_opt_usize, enc_db_type,
    tag_of, db_payload, enc_column, enc_columns, enc_columns_tail, enc_table, enc_tables,
    enc_tables_tail, enc_decl, lemma_at_split,
    lemma_run_unique, lemma_esc_plain, lemma_dec_digits, lemma_digits_unique,
    lemma_digits_val_nonneg, lemma_digits_val_prefix,
};
use crate::text::{chars_to_string, str_from_utf8, str_to_chars};
use vstd::utf8::{
    valid_utf8, decode_utf8, encode_utf8, encode_utf8_valid_utf8, encode_utf8_decode_utf8,
    decode_utf8_encode_utf8,
};

verus! {

/// A character of a word standing in `s` can be read off `s` directly.
pub proof fn lemma_at_char(s: Seq<char>, i: int, w: Seq<char>, k: int)
    requires
        at(s, i, w),
        0 <= k < w.len(),
    ensures
        s[i + k] == w[k],
{
    assert(s.subrange(i, i + w.len() as int)[k] == w[k]);
}

fn expect_lit(inp: &Vec<char>, start: usize, lit: &str) -> (r: Option<usize>)
    requires
        start <= inp@.len(),
    ensures
        r matches Some(end) ==> end == start + lit@.len() && end <= inp@.len(),
        r is Some <==> at(inp@, start as int, lit@),
{
    let n = lit.unicode_len();
    let ilen = inp.len();
    if n > ilen - start {
        return None;
    }
    let mut j: usize = 0;
    while j < n
        invariant
            n == lit@.len(),
            ilen == inp@.len(),
            start + n <= ilen,
            j <= n,
            forall|k: int| 0 <= k < j ==> inp@[start + k] == #[trigger] lit@[k],
        decreases n - j,
    {
        if inp[start + j] != lit.get_char(j) {
            proof {
                if at(inp@, start as int, lit@) {
                    lemma_at_char(inp@, start as int, lit@, j as int);
                }
            }
            return None;
        }
        j = j + 1;
    }
    proof {
        assert(inp@.subrange(start as int, start + n) =~= lit@);
    }
    Some(start + n)
}

/// The contents of a string whose opening quote is already consumed, read
/// character by character up to the closing quote; `\"` and `\\` are the two
/// escapes.
#[verifier::rlimit(60)]
fn parse_str_content(inp: &Vec<char>, start: usize, acc: &mut Vec<char>) -> (r: Option<usize>)
    requires
        start <= inp@.len(),
    ensures
        r matches Some(end) ==> old(acc)@.len() <= final(acc)@.len() && final(acc)@.take(
            old(acc)@.len() as int,
        ) == old(acc)@ && at(
            inp@,
            start as int,
            esc(final(acc)@.skip(old(acc)@.len() as int)) + seq!['"'],
        ) && end == start + esc(final(acc)@.skip(old(acc)@.len() as int)).len() + 1 && end
            <= inp@.len(),
        forall|t: Seq<char>|
            at(inp@, start as int, esc(t) + seq!['"']) ==> (r matches Some(end) && final(acc)@
                == old(acc)@ + t && end == start + esc(t).len() + 1),
    decreases inp@.len() - start,
{
    if start >= inp.len() {
        proof {
            assert forall|t: Seq<char>|
                at(inp@, start as int, esc(t) + seq!['"']) implies false by {
                assert((esc(t) + seq!['"']).len() >= 1);
            }
        }
        return None;
    }
    let c = inp[start];
    if c == '"' {
        proof {
            assert(esc(Seq::<char>::empty()) + seq!['"'] =~= seq!['"']);
            assert(inp@.subrange(start as int, start + 1) =~= seq!['"']);
            assert(acc@.take(acc@.len() as int) =~= acc@);
            assert(acc@.skip(acc@.len() as int) =~= Seq::<char>::empty());
            assert forall|t: Seq<char>|
                at(inp@, start as int, esc(t) + seq!['"']) implies t.len() == 0 && acc@ == acc@
                + t by {
                if t.len() > 0 {
                    lemma_esc_cons(t);
                    assert(inp@[start as int] == (esc(t) + seq!['"'])[0]) by {
                        assert(inp@.subrange(
                            start as int,
                            start + (esc(t) + seq!['"']).len() as int,
                        )[0] == (esc(t) + seq!['"'])[0]);
                    }
                    assert((esc(t) + seq!['"'])[0] == esc_char(t[0])[0]);
                    assert(false);
                }
                assert(acc@ =~= acc@ + t);
            }
        }
        return Some(start + 1);
    }
    if c == '\\' {
        proof {
            assert forall|t: Seq<char>|
                at(inp@, start as int, esc(t) + seq!['"']) implies t.len() >= 1 && (t[0] == '"'
                || t[0] == '\\') && esc(t) + seq!['"'] =~= seq!['\\', t[0]] + (esc(
                t.drop_first(),
            ) + seq!['"']) by {
                assert(inp@[start as int] == (esc(t) + seq!['"'])[0]) by {
                    assert(inp@.subrange(
                        start as int,
                        start + (esc(t) + seq!['"']).len() as int,
                    )[0] == (esc(t) + seq!['"'])[0]);
                }
                if t.len() == 0 {
                    assert((esc(t) + seq!['"'])[0] == '"');
                    assert(false);
                }
                lemma_esc_cons(t);
                assert((esc(t) + seq!['"'])[0] == esc_char(t[0])[0]);
                assert(t[0] == '"' || t[0] == '\\');
            }
        }
        if start + 1 >= inp.len() {
            proof {
                assert forall|t: Seq<char>|
                    at(inp@, start as int, esc(t) + seq!['"']) implies false by {
                    lemma_esc_cons(t);
                    assert((esc(t) + seq!['"']).len() >= 3);
                }
            }
            return None;
        }
        let c2 = inp[start + 1];
        if c2 == '"' || c2 == '\\' {
            proof {
                assert forall|t: Seq<char>|
                    at(inp@, start as int, esc(t) + seq!['"']) implies t[0] == c2 && at(
                    inp@,
                    start + 2,
                    esc(t.drop_first()) + seq!['"'],
                ) by {
                    lemma_at_split(
                        inp@,
                        start as int,
                        seq!['\\', t[0]],
                        esc(t.drop_first()) + seq!['"'],
                    );
                    assert(inp@[start + 1] == seq!['\\', t[0]][1]) by {
                        assert(inp@.subrange(start as int, start + 2)[1] == seq!['\\', t[0]][1]);
                    }
                }
            }
            let ghost acc0 = acc@;
            acc.push(c2);
            let res = parse_str_content(inp, start + 2, acc);
            match res {
                Some(end) => {
                    proof {
                        let delta2 = acc@.skip(acc0.len() as int + 1);
                        assert(acc@.take(acc0.len() as int) =~= acc0) by {
                            assert(acc@.take(acc0.len() as int + 1) == acc0.push(c2));
                            assert(forall|k: int|
                                0 <= k < acc0.len() ==> acc@.take(acc0.len() as int + 1)[k]
                                    == #[trigger] acc0.push(c2)[k]);
                        }
                        assert(acc@[acc0.len() as int] == c2) by {
                            assert(acc@.take(acc0.len() as int + 1)[acc0.len() as int] == acc0.push(
                                c2,
                            )[acc0.len() as int]);
                        }
                        let delta = acc@.skip(acc0.len() as int);
                        assert(delta =~= seq![c2] + delta2);
                        assert(delta.drop_first() =~= delta2);
                        lemma_esc_cons(delta);
                        assert(esc_char(c2) =~= seq!['\\', c2]);
                        assert(inp@.subrange(start as int, start + 2) =~= seq!['\\', c2]);
                        assert(at(inp@, start as int, seq!['\\', c2]));
                        lemma_at_split(
                            inp@,
                            start as int,
                            seq!['\\', c2],
                            esc(delta2) + seq!['"'],
                        );
                        assert(esc(delta) + seq!['"'] =~= seq!['\\', c2] + (esc(delta2)
                            + seq!['"']));
                        assert forall|t: Seq<char>|
                            at(inp@, start as int, esc(t) + seq!['"']) implies acc@ == acc0 + t
                            && end == start + esc(t).len() + 1 by {
                            lemma_esc_cons(t);
                            assert(acc@ == acc0.push(c2) + t.drop_first());
                            assert(t =~= seq![t[0]] + t.drop_first());
                            assert(acc@ =~= acc0 + t);
                        }
                    }
                    Some(end)
                },
                None => {
                    proof {
                        assert forall|t: Seq<char>|
                            at(inp@, start as int, esc(t) + seq!['"']) implies false by {
                            assert(t[0] == c2);
                            lemma_esc_cons(t);
                            assert(esc(t) + seq!['"'] =~= seq!['\\', t[0]] + (esc(
                                t.drop_first(),
                            ) + seq!['"']));
                            lemma_at_split(
                                inp@,
                                start as int,
                                seq!['\\', t[0]],
                                esc(t.drop_first()) + seq!['"'],
                            );
                            assert(at(inp@, start + 2, esc(t.drop_first()) + seq!['"']));
                        }
                    }
                    None
                },
            }
        } else {
            proof {
                assert forall|t: Seq<char>|
                    at(inp@, start as int, esc(t) + seq!['"']) implies false by {
                    lemma_at_split(
                        inp@,
                        start as int,
                        seq!['\\', t[0]],
                        esc(t.drop_first()) + seq!['"'],
                    );
                    assert(inp@[start + 1] == seq!['\\', t[0]][1]) by {
                        assert(inp@.subrange(start as int, start + 2)[1] == seq!['\\', t[0]][1]);
                    }
                }
            }
            None
        }
    } else {
        proof {
            assert forall|t: Seq<char>|
                at(inp@, start as int, esc(t) + seq!['"']) implies t.len() >= 1 && t[0] == c
                && at(inp@, start + 1, esc(t.drop_first()) + seq!['"']) by {
                assert(inp@[start as int] == (esc(t) + seq!['"'])[0]) by {
                    assert(inp@.subrange(
                        start as int,
                        start + (esc(t) + seq!['"']).len() as int,
                    )[0] == (esc(t) + seq!['"'])[0]);
                }
                if t.len() == 0 {
                    assert((esc(t) + seq!['"'])[0] == '"');
                    assert(false);
                }
                lemma_esc_cons(t);
                assert((esc(t) + seq!['"'])[0] == esc_char(t[0])[0]);
                assert(t[0] == c);
                assert(esc(t) + seq!['"'] =~= seq![t[0]] + (esc(t.drop_first()) + seq!['"']));
                lemma_at_split(inp@, start as int, seq![t[0]], esc(t.drop_first()) + seq!['"']);
            }
        }
        let ghost acc0 = acc@;
        acc.push(c);
        let res = parse_str_content(inp, start + 1, acc);
        match res {
            Some(end) => {
                proof {
                    let delta2 = acc@.skip(acc0.len() as int + 1);
                    assert(acc@.take(acc0.len() as int) =~= acc0) by {
                        assert(acc@.take(acc0.len() as int + 1) == acc0.push(c));
                        assert(forall|k: int|
                            0 <= k < acc0.len() ==> acc@.take(acc0.len() as int + 1)[k]
                                == #[trigger] acc0.push(c)[k]);
                    }
                    assert(acc@[acc0.len() as int] == c) by {
                        assert(acc@.take(acc0.len() as int + 1)[acc0.len() as int] == acc0.push(
                            c,
                        )[acc0.len() as int]);
                    }
                    let delta = acc@.skip(acc0.len() as int);
                    assert(delta =~= seq![c] + delta2);
                    assert(delta.drop_first() =~= delta2);
                    lemma_esc_cons(delta);
                    assert(esc_char(c) =~= seq![c]);
                    assert(inp@.subrange(start as int, start + 1) =~= seq![c]);
                    assert(at(inp@, start as int, seq![c]));
                    lemma_at_split(inp@, start as int, seq![c], esc(delta2) + seq!['"']);
                    assert(esc(delta) + seq!['"'] =~= seq![c] + (esc(delta2) + seq!['"']));
                    assert forall|t: Seq<char>|
                        at(inp@, start as int, esc(t) + seq!['"']) implies acc@ == acc0 + t && end
                        == start + esc(t).len() + 1 by {
                        lemma_esc_cons(t);
                        assert(acc@ == acc0.push(c) + t.drop_first());
                        assert(t =~= seq![t[0]] + t.drop_first());
                        assert(acc@ =~= acc0 + t);
                    }
                }
                Some(end)
            },
            None => {
                proof {
                    assert forall|t: Seq<char>|
                        at(inp@, start as int, esc(t) + seq!['"']) implies false by {
                        assert(t.len() >= 1 && t[0] == c);
                        lemma_esc_cons(t);
                        assert(esc(t) + seq!['"'] =~= seq![t[0]] + (esc(t.drop_first())
                            + seq!['"']));
                        lemma_at_split(
                            inp@,
                            start as int,
                            seq![t[0]],
                            esc(t.drop_first()) + seq!['"'],
                        );
                        assert(at(inp@, start + 1, esc(t.drop_first()) + seq!['"']));
                    }
                }
                None
            },
        }
    }
}

/// The contents of a string whose opening quote is already consumed, up to
/// and including the closing quote.
fn parse_quoted_tail(inp: &Vec<char>, start: usize) -> (r: Option<(String, usize)>)
    requires
        start <= inp@.len(),
    ensures
        r matches Some(pr) ==> at(inp@, start as int, esc(pr.0@) + seq!['"']) && pr.1 == start
            + esc(pr.0@).len() + 1 && pr.1 <= inp@.len(),
        forall|t: Seq<char>|
            at(inp@, start as int, esc(t) + seq!['"']) ==> (r matches Some(pr) && pr.0@ == t),
{
    let mut buf: Vec<char> = Vec::new();
    let res = parse_str_content(inp, start, &mut buf);
    match res {
        Some(end) => {
            proof {
                assert(buf@.skip(0) =~= buf@);
            }
            Some((chars_to_string(&buf), end))
        },
        None => None,
    }
}

/// A quoted string; `\"` and `\\` are the two escapes.
fn parse_json_string(inp: &Vec<char>, start: usize) -> (r: Option<(String, usize)>)
    requires
        start <= inp@.len(),
    ensures
        r matches Some(pr) ==> at(inp@, start as int, enc_string(pr.0@)) && pr.1 == start
            + enc_string(pr.0@).len() && pr.1 <= inp@.len() && pr.1 > start,
        forall|t: Seq<char>|
            at(inp@, start as int, enc_string(t)) ==> (r matches Some(pr) && pr.0@ == t),
{
    proof {
        assert forall|t: Seq<char>| enc_string(t) =~= seq!['"'] + (esc(t) + seq!['"']) by {
        }
    }
    if start >= inp.len() || inp[start] != '"' {
        proof {
            assert forall|t: Seq<char>|
                at(inp@, start as int, enc_string(t)) implies false by {
                lemma_at_char(inp@, start as int, enc_string(t), 0);
            }
        }
        return None;
    }
    match parse_quoted_tail(inp, start + 1) {
        None => {
            proof {
                assert forall|t: Seq<char>|
                    at(inp@, start as int, enc_string(t)) implies false by {
                    lemma_at_split(inp@, start as int, seq!['"'], esc(t) + seq!['"']);
                }
            }
            None
        },
        Some((s, end)) => {
            proof {
                assert(at(inp@, start as int, seq!['"'])) by {
                    assert(inp@.subrange(start as int, start + 1) =~= seq![inp@[start as int]]);
                }
                lemma_at_split(inp@, start as int, seq!['"'], esc(s@) + seq!['"']);
                assert(at(inp@, start as int, enc_string(s@)));
                assert forall|t: Seq<char>|
                    at(inp@, start as int, enc_string(t)) implies s@ == t by {
                    lemma_at_split(inp@, start as int, seq!['"'], esc(t) + seq!['"']);
                }
            }
            Some((s, end))
        },
    }
}

/// The digits of a non-negative decimal number, converted with an overflow
/// check.
fn digits_to_usize(buf: &Vec<char>) -> (r: Option<usize>)
    requires
        buf@.len() >= 1,
        forall|i: int| 0 <= i < buf@.len() ==> is_digit(#[trigger] buf@[i]),
    ensures
        r matches Some(m) ==> m as int == digits_val(buf@),
        r is None ==> digits_val(buf@) > usize::MAX,
{
    let mut acc: usize = 0;
    let mut i: usize = 0;
    proof {
        assert(buf@.subrange(0, 0) =~= Seq::<char>::empty());
    }
    while i < buf.len()
        invariant
            i <= buf@.len(),
            forall|k: int| 0 <= k < buf@.len() ==> is_digit(#[trigger] buf@[k]),
            acc as int == digits_val(buf@.subrange(0, i as int)),
        decreases buf@.len() - i,
    {
        let c = buf[i];
        let d: usize = (c as u32 as usize) - 48;
        proof {
            assert(is_digit(c));
            assert(0 <= d < 10);
        }
        let step = match acc.checked_mul(10) {
            Some(x) => x.checked_add(d),
            None => None,
        };
        proof {
            let pre = buf@.subrange(0, i as int);
            let cur = buf@.subrange(0, i + 1);
            assert(cur.drop_last() =~= pre);
            assert(cur.last() == buf@[i as int]);
            assert(digits_val(cur) == digits_val(pre) * 10 + digit_val(buf@[i as int]));
            assert(digit_val(buf@[i as int]) == d);
        }
        match step {
            Some(x) => {
                acc = x;
            },
            None => {
                proof {
                    lemma_digits_val_prefix(buf@, i + 1);
                    lemma_digits_val_nonneg(buf@.subrange(0, i as int));
                    assert(digits_val(buf@.subrange(0, i + 1)) > usize::MAX) by (nonlinear_arith)
                        requires
                            digits_val(buf@.subrange(0, i + 1)) == digits_val(
                                buf@.subrange(0, i as int),
                            ) * 10 + digit_val(buf@[i as int]),
                            acc as int == digits_val(buf@.subrange(0, i as int)),
                            acc as int * 10 + digit_val(buf@[i as int]) > usize::MAX,
                            digits_val(buf@.subrange(0, i as int)) >= 0,
                    ;
                }
                return None;
            },
        }
        i = i + 1;
    }
    proof {
        assert(buf@.subrange(0, buf@.len() as int) =~= buf@);
    }
    Some(acc)
}

/// A run of digits.
fn scan_digits(inp: &Vec<char>, start: usize) -> (r: (Vec<char>, usize))
    requires
        start <= inp@.len(),
    ensures
        r.0@ == inp@.subrange(start as int, r.1 as int),
        start <= r.1 <= inp@.len(),
        forall|k: int| 0 <= k < r.0@.len() ==> is_digit(#[trigger] r.0@[k]),
        r.1 == inp@.len() || !is_digit(inp@[r.1 as int]),
{
    let mut buf: Vec<char> = Vec::new();
    let mut pos: usize = start;
    while pos < inp.len() && '0' <= inp[pos] && inp[pos] <= '9'
        invariant
            start <= pos <= inp@.len(),
            buf@ == inp@.subrange(start as int, pos as int),
            forall|k: int| 0 <= k < buf@.len() ==> is_digit(#[trigger] buf@[k]),
        decreases inp@.len() - pos,
    {
        buf.push(inp[pos]);
        pos = pos + 1;
        proof {
            assert(buf@ =~= inp@.subrange(start as int, pos as int));
        }
    }
    (buf, pos)
}

/// An unsigned decimal number without a leading zero, as `dec_digits` writes
/// them.
fn parse_usize(inp: &Vec<char>, start: usize) -> (r: Option<(usize, usize)>)
    requires
        start <= inp@.len(),
    ensures
        r matches Some(pr) ==> at(inp@, start as int, dec_digits(pr.0 as nat)) && pr.1 == start
            + dec_digits(pr.0 as nat).len() && pr.1 <= inp@.len() && pr.1 > start,
        forall|n: usize|
            at(inp@, start as int, dec_digits(n as nat)) && (start + dec_digits(n as nat).len()
                == inp@.len() || !is_digit(inp@[start + dec_digits(n as nat).len()])) ==> (
            r matches Some(pr) && pr.0 == n),
{
    let ghost dig = |c: char| is_digit(c);
    let (buf, pos) = scan_digits(inp, start);
    proof {
        assert(at(inp@, start as int, buf@));
        assert forall|n: usize|
            at(inp@, start as int, dec_digits(n as nat)) && (start + dec_digits(n as nat).len()
                == inp@.len() || !is_digit(inp@[start + dec_digits(n as nat).len()]))
            implies buf@ == dec_digits(n as nat) by {
            lemma_dec_digits(n as nat);
            lemma_run_unique(dig, inp@, start as int, buf@, dec_digits(n as nat));
        }
    }
    if buf.len() == 0 {
        proof {
            assert forall|n: usize|
                at(inp@, start as int, dec_digits(n as nat)) && (start + dec_digits(
                    n as nat,
                ).len() == inp@.len() || !is_digit(inp@[start + dec_digits(n as nat).len()]))
                implies false by {
                lemma_dec_digits(n as nat);
            }
        }
        return None;
    }
    if buf.len() > 1 && buf[0] == '0' {
        proof {
            assert forall|n: usize|
                at(inp@, start as int, dec_digits(n as nat)) && (start + dec_digits(
                    n as nat,
                ).len() == inp@.len() || !is_digit(inp@[start + dec_digits(n as nat).len()]))
                implies false by {
                lemma_dec_digits(n as nat);
            }
        }
        return None;
    }
    match digits_to_usize(&buf) {
        Some(m) => {
            proof {
                lemma_digits_unique(buf@, m as nat);
                assert forall|n: usize|
                    at(inp@, start as int, dec_digits(n as nat)) && (start + dec_digits(
                        n as nat,
                    ).len() == inp@.len() || !is_digit(inp@[start + dec_digits(n as nat).len()]))
                    implies m == n by {
                    lemma_dec_digits(n as nat);
                }
            }
            Some((m, pos))
        },
        None => {
            proof {
                assert forall|n: usize|
                    at(inp@, start as int, dec_digits(n as nat)) && (start + dec_digits(
                        n as nat,
                    ).len() == inp@.len() || !is_digit(inp@[start + dec_digits(n as nat).len()]))
                    implies false by {
                    lemma_dec_digits(n as nat);
                }
            }
            None
        },
    }
}

/// An optional number written either as `null` or as bare decimal digits.
fn parse_opt_usize(inp: &Vec<char>, start: usize) -> (r: Option<(Option<usize>, usize)>)
    requires
        start <= inp@.len(),
    ensures
        r matches Some(pr) ==> at(inp@, start as int, enc_opt_usize(pr.0)) && pr.1 == start
            + enc_opt_usize(pr.0).len() && start < pr.1 <= inp@.len(),
        forall|o: Option<usize>|
            at(inp@, start as int, enc_opt_usize(o)) && (start + enc_opt_usize(o).len()
                == inp@.len() || !is_digit(inp@[start + enc_opt_usize(o).len()])) ==> (
            r matches Some(pr) && pr.0 == o),
{
    proof {
        reveal_strlit("null");
    }
    if start < inp.len() && inp[start] == 'n' {
        proof {
            assert forall|n: usize| at(inp@, start as int, dec_digits(n as nat)) implies false by {
                lemma_dec_digits(n as nat);
                lemma_at_char(inp@, start as int, dec_digits(n as nat), 0);
            }
        }
        match expect_lit(inp, start, "null") {
            Some(end) => Some((None, end)),
            None => None,
        }
    } else {
        proof {
            if at(inp@, start as int, "null"@) {
                lemma_at_char(inp@, start as int, "null"@, 0);
                assert(false);
            }
        }
        match parse_usize(inp, start) {
            Some((n, end)) => {
                proof {
                    lemma_dec_digits(n as nat);
                }
                Some((Some(n), end))
            },
            None => None,
        }
    }
}

/// A character allowed in a number token.
fn is_number_char(c: char) -> (r: bool)
    ensures
        r == number_char(c),
{
    ('0' <= c && c <= '9') || c == '-' || c == '+' || c == '.' || c == 'e' || c == 'E'
}

/// One step of the number grammar.
fn num_step_exec(st: NumState, c: char) -> (r: NumState)
    ensures
        r == num_step(st, c),
{
    match st {
        NumState::Start => {
            if c == '-' {
                NumState::Minus
            } else if c == '0' {
                NumState::IntZero
            } else if '1' <= c && c <= '9' {
                NumState::IntMore
            } else {
                NumState::Dead
            }
        },
        NumState::Minus => {
            if c == '0' {
                NumState::IntZero
            } else if '1' <= c && c <= '9' {
                NumState::IntMore
            } else {
                NumState::Dead
            }
        },
        NumState::IntZero => {
            if c == '.' {
                NumState::FracDot
            } else if c == 'e' || c == 'E' {
                NumState::ExpMark
            } else {
                NumState::Dead
            }
        },
        NumState::IntMore => {
            if '0' <= c && c <= '9' {
                NumState::IntMore
            } else if c == '.' {
                NumState::FracDot
            } else if c == 'e' || c == 'E' {
                NumState::ExpMark
            } else {
                NumState::Dead
            }
        },
        NumState::FracDot => {
            if '0' <= c && c <= '9' {
                NumState::FracMore
            } else {
                NumState::Dead
            }
        },
        NumState::FracMore => {
            if '0' <= c && c <= '9' {
                NumState::FracMore
            } else if c == 'e' || c == 'E' {
                NumState::ExpMark
            } else {
                NumState::Dead
            }
        },
        NumState::ExpMark => {
            if c == '+' || c == '-' {
                NumState::ExpSign
            } else if '0' <= c && c <= '9' {
                NumState::ExpMore
            } else {
                NumState::Dead
            }
        },
        NumState::ExpSign => {
            if '0' <= c && c <= '9' {
                NumState::ExpMore
            } else {
                NumState::Dead
            }
        },
        NumState::ExpMore => {
            if '0' <= c && c <= '9' {
                NumState::ExpMore
            } else {
                NumState::Dead
            }
        },
        NumState::Dead => NumState::Dead,
    }
}

/// Whether a text is exactly a JSON number.
fn check_number(buf: &Vec<char>) -> (r: bool)
    ensures
        r == number_text(buf@),
{
    let mut st = NumState::Start;
    let mut i: usize = 0;
    proof {
        assert(buf@.subrange(0, 0) =~= Seq::<char>::empty());
    }
    while i < buf.len()
        invariant
            i <= buf@.len(),
            st == num_state(buf@.subrange(0, i as int)),
        decreases buf@.len() - i,
    {
        st = num_step_exec(st, buf[i]);
        i = i + 1;
        proof {
            let cur = buf@.subrange(0, i as int);
            assert(cur.drop_last() =~= buf@.subrange(0, i - 1));
            assert(cur.last() == buf@[i - 1]);
        }
    }
    proof {
        assert(buf@.subrange(0, buf@.len() as int) =~= buf@);
    }
    match st {
        NumState::IntZero => true,
        NumState::IntMore => true,
        NumState::FracMore => true,
        NumState::ExpMore => true,
        _ => false,
    }
}

/// A bare number token, kept as its text.
fn parse_number(inp: &Vec<char>, start: usize) -> (r: Option<(NumberText, usize)>)
    requires
        start <= inp@.len(),
    ensures
        r matches Some(pr) ==> number_text(pr.0@) && at(inp@, start as int, pr.0@) && pr.1 == start
            + pr.0@.len() && start < pr.1 <= inp@.len(),
        forall|u: Seq<char>|
            number_text(u) && at(inp@, start as int, u) && (start + u.len() == inp@.len()
                || !number_char(inp@[start + u.len()])) ==> (r matches Some(pr) && pr.0@ == u),
{
    let ghost numc = |c: char| number_char(c);
    let mut buf: Vec<char> = Vec::new();
    let mut pos: usize = start;
    while pos < inp.len() && is_number_char(inp[pos])
        invariant
            start <= pos <= inp@.len(),
            buf@ == inp@.subrange(start as int, pos as int),
            forall|k: int| 0 <= k < buf@.len() ==> number_char(#[trigger] buf@[k]),
        decreases inp@.len() - pos,
    {
        buf.push(inp[pos]);
        pos = pos + 1;
        proof {
            assert(buf@ =~= inp@.subrange(start as int, pos as int));
        }
    }
    proof {
        assert(at(inp@, start as int, buf@));
        assert forall|u: Seq<char>|
            number_text(u) && at(inp@, start as int, u) && (start + u.len() == inp@.len()
                || !number_char(inp@[start + u.len()])) implies buf@ == u by {
            lemma_number_text_chars(u);
            lemma_run_unique(numc, inp@, start as int, buf@, u);
        }
    }
    if !check_number(&buf) {
        return None;
    }
    let s = chars_to_string(&buf);
    Some((NumberText { text: s }, pos))
}

/// An optional number payload: `null` or a bare token.
fn parse_opt_number(inp: &Vec<char>, start: usize) -> (r: Option<(Option<NumberText>, usize)>)
    requires
        start <= inp@.len(),
    ensures
        r matches Some(pr) ==> (pr.0 matches Some(t) ==> number_text(t@)) && at(
            inp@,
            start as int,
            crate::codec::enc_opt_number(crate::models::opt_number_view(pr.0)),
        ) && pr.1 == start + crate::codec::enc_opt_number(
            crate::models::opt_number_view(pr.0),
        ).len() && start < pr.1 <= inp@.len(),
        forall|o: Option<Seq<char>>|
            (o matches Some(u) ==> number_text(u)) && at(
                inp@,
                start as int,
                crate::codec::enc_opt_number(o),
            ) && (start + crate::codec::enc_opt_number(o).len() == inp@.len() || !number_char(
                inp@[start + crate::codec::enc_opt_number(o).len()],
            )) ==> (r matches Some(pr) && crate::models::opt_number_view(pr.0) == o),
{
    proof {
        reveal_strlit("null");
    }
    if start < inp.len() && inp[start] == 'n' {
        proof {
            assert forall|u: Seq<char>|
                number_text(u) && at(inp@, start as int, u) implies false by {
                lemma_number_text_chars(u);
                lemma_at_char(inp@, start as int, u, 0);
            }
        }
        match expect_lit(inp, start, "null") {
            Some(end) => Some((None, end)),
            None => None,
        }
    } else {
        proof {
            if at(inp@, start as int, "null"@) {
                lemma_at_char(inp@, start as int, "null"@, 0);
                assert(false);
            }
        }
        match parse_number(inp, start) {
            Some((t, end)) => Some((Some(t), end)),
            None => None,
        }
    }
}

/// Whether the text from position `j` on is exactly a timezone offset.
fn check_offset(v: &Vec<char>, j: usize) -> (r: bool)
    requires
        j <= v@.len(),
    ensures
        r == ts_offset_at(v@, j as int),
{
    if j == v.len() {
        return false;
    }
    if v[j] == 'Z' {
        return j == v.len() - 1;
    }
    if v[j] == '+' || v[j] == '-' {
        return v.len() - j == 6 && '0' <= v[j + 1] && v[j + 1] <= '9' && '0' <= v[j + 2] && v[j
            + 2] <= '9' && v[j + 3] == ':' && '0' <= v[j + 4] && v[j + 4] <= '9' && '0' <= v[j + 5]
            && v[j + 5] <= '9';
    }
    false
}

/// Whether a text has the lexical shape of an RFC 3339 timestamp.
fn check_timestamp(v: &Vec<char>) -> (r: bool)
    ensures
        r == timestamp_text(v@),
{
    if v.len() < 20 {
        return false;
    }
    let core_ok = '0' <= v[0] && v[0] <= '9' && '0' <= v[1] && v[1] <= '9' && '0' <= v[2] && v[2]
        <= '9' && '0' <= v[3] && v[3] <= '9' && v[4] == '-' && '0' <= v[5] && v[5] <= '9' && '0'
        <= v[6] && v[6] <= '9' && v[7] == '-' && '0' <= v[8] && v[8] <= '9' && '0' <= v[9] && v[9]
        <= '9' && v[10] == 'T' && '0' <= v[11] && v[11] <= '9' && '0' <= v[12] && v[12] <= '9'
        && v[13] == ':' && '0' <= v[14] && v[14] <= '9' && '0' <= v[15] && v[15] <= '9' && v[16]
        == ':' && '0' <= v[17] && v[17] <= '9' && '0' <= v[18] && v[18] <= '9';
    if !core_ok {
        return false;
    }
    if v[19] == '.' {
        let mut j: usize = 20;
        while j < v.len() && '0' <= v[j] && v[j] <= '9'
            invariant
                20 <= j <= v@.len(),
                forall|k: int| 20 <= k < j ==> ts_digit(v@, k),
            decreases v@.len() - j,
        {
            j = j + 1;
        }
        if j == 20 {
            proof {
                if timestamp_text(v@) {
                    let j2 = choose|j2: int|
                        21 <= j2 <= v@.len() && (forall|k: int|
                            20 <= k < j2 ==> ts_digit(v@, k)) && ts_offset_at(v@, j2);
                    assert(ts_digit(v@, 20));
                }
            }
            return false;
        }
        let r = check_offset(v, j);
        proof {
            if r {
                assert(21 <= j as int <= v@.len() && (forall|k: int|
                    20 <= k < j as int ==> ts_digit(v@, k)) && ts_offset_at(v@, j as int));
            }
            if timestamp_text(v@) {
                let j2 = choose|j2: int|
                    21 <= j2 <= v@.len() && (forall|k: int| 20 <= k < j2 ==> ts_digit(v@, k))
                        && ts_offset_at(v@, j2);
                if j2 < j {
                    assert(ts_digit(v@, j2));
                    assert(!('0' <= v@[j2] && v@[j2] <= '9') || j2 == v@.len());
                    assert(false);
                }
                if j2 > j {
                    assert(ts_digit(v@, j as int));
                    assert(false);
                }
                assert(ts_offset_at(v@, j as int));
            }
        }
        r
    } else {
        let r = check_offset(v, 19);
        proof {
            if timestamp_text(v@) && !ts_offset_at(v@, 19) {
                assert(v@[19] == '.');
                assert(false);
            }
        }
        r
    }
}

/// An optional timestamp payload: `null` or a quoted string.
fn parse_opt_timestamp(
    inp: &Vec<char>,
    start: usize,
) -> (r: Option<(Option<TimestampText>, usize)>)
    requires
        start <= inp@.len(),
    ensures
        r matches Some(pr) ==> (pr.0 matches Some(t) ==> timestamp_text(t@)) && at(
            inp@,
            start as int,
            crate::codec::enc_opt_timestamp(crate::models::opt_timestamp_view(pr.0)),
        ) && pr.1 == start + crate::codec::enc_opt_timestamp(
            crate::models::opt_timestamp_view(pr.0),
        ).len() && start < pr.1 <= inp@.len(),
        forall|o: Option<Seq<char>>|
            (o matches Some(u) ==> timestamp_text(u)) && at(
                inp@,
                start as int,
                crate::codec::enc_opt_timestamp(o),
            ) ==> (r matches Some(pr) && crate::models::opt_timestamp_view(pr.0) == o),
{
    proof {
        reveal_strlit("null");
    }
    if start < inp.len() && inp[start] == 'n' {
        proof {
            assert forall|u: Seq<char>|
                at(inp@, start as int, enc_string(u)) implies false by {
                lemma_at_char(inp@, start as int, enc_string(u), 0);
            }
        }
        match expect_lit(inp, start, "null") {
            Some(end) => Some((None, end)),
            None => None,
        }
    } else {
        proof {
            if at(inp@, start as int, "null"@) {
                lemma_at_char(inp@, start as int, "null"@, 0);
                assert(false);
            }
        }
        match parse_json_string(inp, start) {
            Some((s, end)) => {
                let chars = str_to_chars(s.as_str());
                if check_timestamp(&chars) {
                    Some((Some(TimestampText { text: s }), end))
                } else {
                    None
                }
            },
            None => None,
        }
    }
}

/// `true` or `false`.
fn parse_bool(inp: &Vec<char>, start: usize) -> (r: Option<(bool, usize)>)
    requires
        start <= inp@.len(),
    ensures
        r matches Some(pr) ==> at(inp@, start as int, crate::codec::enc_bool(pr.0)) && pr.1
            == start + crate::codec::enc_bool(pr.0).len() && start < pr.1 <= inp@.len(),
        forall|b: bool|
            at(inp@, start as int, crate::codec::enc_bool(b)) ==> (r matches Some(pr) && pr.0
                == b),
{
    proof {
        reveal_strlit("true");
        reveal_strlit("false");
    }
    if start < inp.len() && inp[start] == 't' {
        proof {
            if at(inp@, start as int, "false"@) {
                lemma_at_char(inp@, start as int, "false"@, 0);
                assert(false);
            }
        }
        match expect_lit(inp, start, "true") {
            Some(end) => Some((true, end)),
            None => None,
        }
    } else {
        proof {
            if at(inp@, start as int, "true"@) {
                lemma_at_char(inp@, start as int, "true"@, 0);
                assert(false);
            }
        }
        match expect_lit(inp, start, "false") {
            Some(end) => Some((false, end)),
            None => None,
        }
    }
}

/// A `key:value,key:value}` payload of two optional decimal numbers.
fn parse_usize_pair(
    inp: &Vec<char>,
    start: usize,
    key1: &str,
    key2: &str,
) -> (r: Option<((Option<usize>, Option<usize>), usize)>)
    requires
        start <= inp@.len(),
        key2@.len() > 0,
        !is_digit(key2@[0]),
    ensures
        r matches Some(pr) ==> at(
            inp@,
            start as int,
            key1@ + enc_opt_usize(pr.0.0) + key2@ + enc_opt_usize(pr.0.1) + "}"@,
        ) && pr.1 == start + (key1@ + enc_opt_usize(pr.0.0) + key2@ + enc_opt_usize(pr.0.1)
            + "}"@).len() && pr.1 <= inp@.len(),
        forall|a: Option<usize>, b: Option<usize>|
            at(inp@, start as int, key1@ + enc_opt_usize(a) + key2@ + enc_opt_usize(b) + "}"@)
                ==> (r matches Some(pr) && pr.0.0 == a && pr.0.1 == b),
{
    proof {
        reveal_strlit("}");
        assert forall|a: Option<usize>, b: Option<usize>|
            at(inp@, start as int, key1@ + enc_opt_usize(a) + key2@ + enc_opt_usize(b) + "}"@)
            implies (at(inp@, start as int, key1@) && at(
            inp@,
            start + key1@.len(),
            enc_opt_usize(a),
        ) && at(inp@, start + key1@.len() + enc_opt_usize(a).len(), key2@) && at(
            inp@,
            start + key1@.len() + enc_opt_usize(a).len() + key2@.len(),
            enc_opt_usize(b),
        ) && at(
            inp@,
            start + key1@.len() + enc_opt_usize(a).len() + key2@.len() + enc_opt_usize(b).len(),
            "}"@,
        ) && !is_digit(inp@[start + key1@.len() + enc_opt_usize(a).len()]) && !is_digit(
            inp@[start + key1@.len() + enc_opt_usize(a).len() + key2@.len() + enc_opt_usize(
                b,
            ).len()],
        )) by {
            lemma_at_split(
                inp@,
                start as int,
                key1@ + enc_opt_usize(a) + key2@ + enc_opt_usize(b),
                "}"@,
            );
            lemma_at_split(inp@, start as int, key1@ + enc_opt_usize(a) + key2@, enc_opt_usize(b));
            lemma_at_split(inp@, start as int, key1@ + enc_opt_usize(a), key2@);
            lemma_at_split(inp@, start as int, key1@, enc_opt_usize(a));
            lemma_at_char(inp@, start + key1@.len() + enc_opt_usize(a).len(), key2@, 0);
            lemma_at_char(
                inp@,
                start + key1@.len() + enc_opt_usize(a).len() + key2@.len() + enc_opt_usize(
                    b,
                ).len(),
                "}"@,
                0,
            );
        }
    }
    let e1 = match expect_lit(inp, start, key1) {
        Some(e) => e,
        None => {
            return None;
        },
    };
    let (va, p2) = match parse_opt_usize(inp, e1) {
        Some(x) => x,
        None => {
            return None;
        },
    };
    let p3 = match expect_lit(inp, p2, key2) {
        Some(e) => e,
        None => {
            return None;
        },
    };
    let (vb, p4) = match parse_opt_usize(inp, p3) {
        Some(x) => x,
        None => {
            return None;
        },
    };
    let end = match expect_lit(inp, p4, "}") {
        Some(e) => e,
        None => {
            return None;
        },
    };
    proof {
        lemma_at_split(inp@, start as int, key1@, enc_opt_usize(va));
        lemma_at_split(inp@, start as int, key1@ + enc_opt_usize(va), key2@);
        lemma_at_split(inp@, start as int, key1@ + enc_opt_usize(va) + key2@, enc_opt_usize(vb));
        lemma_at_split(
            inp@,
            start as int,
            key1@ + enc_opt_usize(va) + key2@ + enc_opt_usize(vb),
            "}"@,
        );
    }
    Some(((va, vb), end))
}

/// A `key:value,key:value}` payload of two optional number texts.
fn parse_number_pair(
    inp: &Vec<char>,
    start: usize,
    key1: &str,
    key2: &str,
) -> (r: Option<((Option<NumberText>, Option<NumberText>), usize)>)
    requires
        start <= inp@.len(),
        key2@.len() > 0,
        !number_char(key2@[0]),
    ensures
        r matches Some(pr) ==> (pr.0.0 matches Some(t) ==> number_text(t@)) && (pr.0.1 matches Some(
            t,
        ) ==> number_text(t@)) && at(
            inp@,
            start as int,
            key1@ + crate::codec::enc_opt_number(crate::models::opt_number_view(pr.0.0)) + key2@
                + crate::codec::enc_opt_number(crate::models::opt_number_view(pr.0.1)) + "}"@,
        ) && pr.1 == start + (key1@ + crate::codec::enc_opt_number(
            crate::models::opt_number_view(pr.0.0),
        ) + key2@ + crate::codec::enc_opt_number(crate::models::opt_number_view(pr.0.1))
            + "}"@).len() && pr.1 <= inp@.len(),
        forall|a: Option<Seq<char>>, b: Option<Seq<char>>|
            (a matches Some(u) ==> number_text(u)) && (b matches Some(u) ==> number_text(u)) && at(
                inp@,
                start as int,
                key1@ + crate::codec::enc_opt_number(a) + key2@ + crate::codec::enc_opt_number(b)
                    + "}"@,
            ) ==> (r matches Some(pr) && crate::models::opt_number_view(pr.0.0) == a
                && crate::models::opt_number_view(pr.0.1) == b),
{
    proof {
        reveal_strlit("}");
        assert forall|a: Option<Seq<char>>, b: Option<Seq<char>>|
            at(
                inp@,
                start as int,
                key1@ + crate::codec::enc_opt_number(a) + key2@ + crate::codec::enc_opt_number(b)
                    + "}"@,
            ) implies (at(inp@, start as int, key1@) && at(
            inp@,
            start + key1@.len(),
            crate::codec::enc_opt_number(a),
        ) && at(inp@, start + key1@.len() + crate::codec::enc_opt_number(a).len(), key2@) && at(
            inp@,
            start + key1@.len() + crate::codec::enc_opt_number(a).len() + key2@.len(),
            crate::codec::enc_opt_number(b),
        ) && at(
            inp@,
            start + key1@.len() + crate::codec::enc_opt_number(a).len() + key2@.len()
                + crate::codec::enc_opt_number(b).len(),
            "}"@,
        ) && !number_char(inp@[start + key1@.len() + crate::codec::enc_opt_number(a).len()])
            && !number_char(
            inp@[start + key1@.len() + crate::codec::enc_opt_number(a).len() + key2@.len()
                + crate::codec::enc_opt_number(b).len()],
        )) by {
            let ea = crate::codec::enc_opt_number(a);
            let eb = crate::codec::enc_opt_number(b);
            lemma_at_split(inp@, start as int, key1@ + ea + key2@ + eb, "}"@);
            lemma_at_split(inp@, start as int, key1@ + ea + key2@, eb);
            lemma_at_split(inp@, start as int, key1@ + ea, key2@);
            lemma_at_split(inp@, start as int, key1@, ea);
            lemma_at_char(inp@, start + key1@.len() + ea.len(), key2@, 0);
            lemma_at_char(inp@, start + key1@.len() + ea.len() + key2@.len() + eb.len(), "}"@, 0);
        }
    }
    let e1 = match expect_lit(inp, start, key1) {
        Some(e) => e,
        None => {
            return None;
        },
    };
    let (va, p2) = match parse_opt_number(inp, e1) {
        Some(x) => x,
        None => {
            return None;
        },
    };
    let p3 = match expect_lit(inp, p2, key2) {
        Some(e) => e,
        None => {
            return None;
        },
    };
    let (vb, p4) = match parse_opt_number(inp, p3) {
        Some(x) => x,
        None => {
            return None;
        },
    };
    let end = match expect_lit(inp, p4, "}") {
        Some(e) => e,
        None => {
            return None;
        },
    };
    proof {
        let ea = crate::codec::enc_opt_number(crate::models::opt_number_view(va));
        let eb = crate::codec::enc_opt_number(crate::models::opt_number_view(vb));
        lemma_at_split(inp@, start as int, key1@, ea);
        lemma_at_split(inp@, start as int, key1@ + ea, key2@);
        lemma_at_split(inp@, start as int, key1@ + ea + key2@, eb);
        lemma_at_split(inp@, start as int, key1@ + ea + key2@ + eb, "}"@);
    }
    Some(((va, vb), end))
}

/// A `key:value,key:value}` payload of two optional quoted timestamps.
fn parse_timestamp_pair(
    inp: &Vec<char>,
    start: usize,
    key1: &str,
    key2: &str,
) -> (r: Option<((Option<TimestampText>, Option<TimestampText>), usize)>)
    requires
        start <= inp@.len(),
    ensures
        r matches Some(pr) ==> (pr.0.0 matches Some(t) ==> timestamp_text(t@)) && (pr.0.1 matches
            Some(t) ==> timestamp_text(t@)) && at(
            inp@,
            start as int,
            key1@ + crate::codec::enc_opt_timestamp(crate::models::opt_timestamp_view(pr.0.0))
                + key2@ + crate::codec::enc_opt_timestamp(crate::models::opt_timestamp_view(pr.0.1))
                + "}"@,
        ) && pr.1 == start + (key1@ + crate::codec::enc_opt_timestamp(
            crate::models::opt_timestamp_view(pr.0.0),
        ) + key2@ + crate::codec::enc_opt_timestamp(crate::models::opt_timestamp_view(pr.0.1))
            + "}"@).len() && pr.1 <= inp@.len(),
        forall|a: Option<Seq<char>>, b: Option<Seq<char>>|
            (a matches Some(u) ==> timestamp_text(u)) && (b matches Some(u) ==> timestamp_text(
                u,
            )) && at(
                inp@,
                start as int,
                key1@ + crate::codec::enc_opt_timestamp(a) + key2@
                    + crate::codec::enc_opt_timestamp(b) + "}"@,
            ) ==> (r matches Some(pr) && crate::models::opt_timestamp_view(pr.0.0) == a
                && crate::models::opt_timestamp_view(pr.0.1) == b),
{
    proof {
        reveal_strlit("}");
        assert forall|a: Option<Seq<char>>, b: Option<Seq<char>>|
            at(
                inp@,
                start as int,
                key1@ + crate::codec::enc_opt_timestamp(a) + key2@
                    + crate::codec::enc_opt_timestamp(b) + "}"@,
            ) implies (at(inp@, start as int, key1@) && at(
            inp@,
            start + key1@.len(),
            crate::codec::enc_opt_timestamp(a),
        ) && at(
            inp@,
            start + key1@.len() + crate::codec::enc_opt_timestamp(a).len(),
            key2@,
        ) && at(
            inp@,
            start + key1@.len() + crate::codec::enc_opt_timestamp(a).len() + key2@.len(),
            crate::codec::enc_opt_timestamp(b),
        ) && at(
            inp@,
            start + key1@.len() + crate::codec::enc_opt_timestamp(a).len() + key2@.len()
                + crate::codec::enc_opt_timestamp(b).len(),
            "}"@,
        )) by {
            let ea = crate::codec::enc_opt_timestamp(a);
            let eb = crate::codec::enc_opt_timestamp(b);
            lemma_at_split(inp@, start as int, key1@ + ea + key2@ + eb, "}"@);
            lemma_at_split(inp@, start as int, key1@ + ea + key2@, eb);
            lemma_at_split(inp@, start as int, key1@ + ea, key2@);
            lemma_at_split(inp@, start as int, key1@, ea);
        }
    }
    let e1 = match expect_lit(inp, start, key1) {
        Some(e) => e,
        None => {
            return None;
        },
    };
    let (va, p2) = match parse_opt_timestamp(inp, e1) {
        Some(x) => x,
        None => {
            return None;
        },
    };
    let p3 = match expect_lit(inp, p2, key2) {
        Some(e) => e,
        None => {
            return None;
        },
    };
    let (vb, p4) = match parse_opt_timestamp(inp, p3) {
        Some(x) => x,
        None => {
            return None;
        },
    };
    let end = match expect_lit(inp, p4, "}") {
        Some(e) => e,
        None => {
            return None;
        },
    };
    proof {
        let ea = crate::codec::enc_opt_timestamp(crate::models::opt_timestamp_view(va));
        let eb = crate::codec::enc_opt_timestamp(crate::models::opt_timestamp_view(vb));
        lemma_at_split(inp@, start as int, key1@, ea);
        lemma_at_split(inp@, start as int, key1@ + ea, key2@);
        lemma_at_split(inp@, start as int, key1@ + ea + key2@, eb);
        lemma_at_split(inp@, start as int, key1@ + ea + key2@ + eb, "}"@);
    }
    Some(((va, vb), end))
}

/// Two strings are equal exactly when their characters are.
fn str_eq(a: &str, b: &str) -> (r: bool)
    ensures
        r == (a@ == b@),
{
    let n = a.unicode_len();
    if n != b.unicode_len() {
        return false;
    }
    let mut j: usize = 0;
    while j < n
        invariant
            n == a@.len(),
            n == b@.len(),
            j <= n,
            forall|k: int| 0 <= k < j ==> a@[k] == #[trigger] b@[k],
        decreases n - j,
    {
        if a.get_char(j) != b.get_char(j) {
            return false;
        }
        j = j + 1;
    }
    proof {
        assert(a@ =~= b@);
    }
    true
}

/// A column type document: tag dispatch over the closed set of variants.
/// The default branch is the tag-closure behaviour: a document whose tag is
/// none of the six is refused, and a payload behind `Uuid` or `Boolean` is
/// refused because those variants' wire form ends right after the tag.
fn parse_db_type(inp: &Vec<char>, start: usize) -> (r: Option<(DbType, usize)>)
    requires
        start <= inp@.len(),
    ensures
        r matches Some(pr) ==> wf_db_type(pr.0@) && at(inp@, start as int, enc_db_type(pr.0@))
            && pr.1 == start + enc_db_type(pr.0@).len() && start < pr.1 <= inp@.len(),
        forall|m: DbTypeModel|
            wf_db_type(m) && at(inp@, start as int, enc_db_type(m)) ==> (r matches Some(pr)
                && pr.0@ == m),
{
    proof {
        reveal_strlit("{\"type\":\"");
        reveal_strlit("\"");
        reveal_strlit("Uuid");
        reveal_strlit("String");
        reveal_strlit("Int");
        reveal_strlit("Float");
        reveal_strlit("DateTime");
        reveal_strlit("Boolean");
        assert(plain_text("Uuid"@));
        assert(plain_text("String"@));
        assert(plain_text("Int"@));
        assert(plain_text("Float"@));
        assert(plain_text("DateTime"@));
        assert(plain_text("Boolean"@));
        assert forall|m: DbTypeModel| at(inp@, start as int, enc_db_type(m)) implies (at(
            inp@,
            start as int,
            "{\"type\":\""@,
        ) && plain_text(tag_of(m)) && at(
            inp@,
            start + "{\"type\":\""@.len(),
            tag_of(m) + seq!['"'],
        ) && at(
            inp@,
            start + "{\"type\":\""@.len(),
            esc(tag_of(m)) + seq!['"'],
        ) && at(
            inp@,
            start + "{\"type\":\""@.len() + tag_of(m).len() + 1,
            db_payload(m),
        )) by {
            assert("\""@ =~= seq!['"']);
            assert(enc_db_type(m) =~= "{\"type\":\""@ + ((tag_of(m) + seq!['"']) + db_payload(m)));
            lemma_at_split(
                inp@,
                start as int,
                "{\"type\":\""@,
                (tag_of(m) + seq!['"']) + db_payload(m),
            );
            lemma_at_split(
                inp@,
                start + "{\"type\":\""@.len(),
                tag_of(m) + seq!['"'],
                db_payload(m),
            );
            lemma_esc_plain(tag_of(m));
        }
    }
    let e1 = match expect_lit(inp, start, "{\"type\":\"") {
        Some(e) => e,
        None => {
            return None;
        },
    };
    let (tag, p1) = match parse_quoted_tail(inp, e1) {
        Some(x) => x,
        None => {
            return None;
        },
    };
    proof {
        assert forall|m: DbTypeModel| at(inp@, start as int, enc_db_type(m)) implies (tag@
            == tag_of(m) && p1 == start + "{\"type\":\""@.len() + tag_of(m).len() + 1) by {
            assert(at(
                inp@,
                start + "{\"type\":\""@.len(),
                esc(tag_of(m)) + seq!['"'],
            ));
            lemma_esc_plain(tag_of(m));
        }
    }
    if str_eq(tag.as_str(), "Uuid") {
        match expect_lit(inp, p1, "}") {
            Some(end) => {
                proof {
                    reveal_strlit("}");
                    lemma_esc_plain(tag@);
                    lemma_at_split(inp@, start as int, "{\"type\":\""@, tag@ + seq!['"']);
                    lemma_at_split(
                        inp@,
                        start as int,
                        "{\"type\":\""@ + (tag@ + seq!['"']),
                        "}"@,
                    );
                    assert("\""@ =~= seq!['"']);
                    assert(enc_db_type(DbTypeModel::Uuid) =~= ("{\"type\":\""@ + (tag@
                        + seq!['"'])) + "}"@);
                }
                Some((DbType::Uuid, end))
            },
            None => None,
        }
    } else if str_eq(tag.as_str(), "String") {
        proof {
            reveal_strlit(",\"max_length\":");
        }
        match parse_usize_pair(inp, p1, ",\"min_length\":", ",\"max_length\":") {
            Some(((va, vb), end)) => {
                let ghost mm = DbTypeModel::Text { min_length: va, max_length: vb };
                proof {
                    lemma_esc_plain(tag@);
                    lemma_at_split(inp@, start as int, "{\"type\":\""@, tag@ + seq!['"']);
                    lemma_at_split(
                        inp@,
                        start as int,
                        "{\"type\":\""@ + (tag@ + seq!['"']),
                        db_payload(mm),
                    );
                    assert("\""@ =~= seq!['"']);
                    assert(enc_db_type(mm) =~= ("{\"type\":\""@ + (tag@ + seq!['"']))
                        + db_payload(mm));
                }
                Some(
                    (
                        DbType::String(StringConstraints { min_length: va, max_length: vb }),
                        end,
                    ),
                )
            },
            None => None,
        }
    } else if str_eq(tag.as_str(), "Int") {
        proof {
            reveal_strlit(",\"max_range\":");
        }
        match parse_usize_pair(inp, p1, ",\"min_range\":", ",\"max_range\":") {
            Some(((va, vb), end)) => {
                let ghost mm = DbTypeModel::Int { min_range: va, max_range: vb };
                proof {
                    lemma_esc_plain(tag@);
                    lemma_at_split(inp@, start as int, "{\"type\":\""@, tag@ + seq!['"']);
                    lemma_at_split(
                        inp@,
                        start as int,
                        "{\"type\":\""@ + (tag@ + seq!['"']),
                        db_payload(mm),
                    );
                    assert("\""@ =~= seq!['"']);
                    assert(enc_db_type(mm) =~= ("{\"type\":\""@ + (tag@ + seq!['"']))
                        + db_payload(mm));
                }
                Some((DbType::Int(RangeConstraints { min_range: va, max_range: vb }), end))
            },
            None => None,
        }
    } else if str_eq(tag.as_str(), "Float") {
        proof {
            reveal_strlit(",\"max_range\":");
        }
        match parse_number_pair(inp, p1, ",\"min_range\":", ",\"max_range\":") {
            Some(((va, vb), end)) => {
                let ghost mm = DbTypeModel::Float {
                    min_range: crate::models::opt_number_view(va),
                    max_range: crate::models::opt_number_view(vb),
                };
                proof {
                    lemma_esc_plain(tag@);
                    lemma_at_split(inp@, start as int, "{\"type\":\""@, tag@ + seq!['"']);
                    lemma_at_split(
                        inp@,
                        start as int,
                        "{\"type\":\""@ + (tag@ + seq!['"']),
                        db_payload(mm),
                    );
                    assert("\""@ =~= seq!['"']);
                    assert(enc_db_type(mm) =~= ("{\"type\":\""@ + (tag@ + seq!['"']))
                        + db_payload(mm));
                }
                Some((DbType::Float(RangeConstraints { min_range: va, max_range: vb }), end))
            },
            None => None,
        }
    } else if str_eq(tag.as_str(), "DateTime") {
        match parse_timestamp_pair(inp, p1, ",\"min_range\":", ",\"max_range\":") {
            Some(((va, vb), end)) => {
                let ghost mm = DbTypeModel::DateTime {
                    min_range: crate::models::opt_timestamp_view(va),
                    max_range: crate::models::opt_timestamp_view(vb),
                };
                proof {
                    lemma_esc_plain(tag@);
                    lemma_at_split(inp@, start as int, "{\"type\":\""@, tag@ + seq!['"']);
                    lemma_at_split(
                        inp@,
                        start as int,
                        "{\"type\":\""@ + (tag@ + seq!['"']),
                        db_payload(mm),
                    );
                    assert("\""@ =~= seq!['"']);
                    assert(enc_db_type(mm) =~= ("{\"type\":\""@ + (tag@ + seq!['"']))
                        + db_payload(mm));
                }
                Some(
                    (DbType::DateTime(RangeConstraints { min_range: va, max_range: vb }), end),
                )
            },
            None => None,
        }
    } else if str_eq(tag.as_str(), "Boolean") {
        match expect_lit(inp, p1, "}") {
            Some(end) => {
                proof {
                    reveal_strlit("}");
                    lemma_esc_plain(tag@);
                    lemma_at_split(inp@, start as int, "{\"type\":\""@, tag@ + seq!['"']);
                    lemma_at_split(
                        inp@,
                        start as int,
                        "{\"type\":\""@ + (tag@ + seq!['"']),
                        "}"@,
                    );
                    assert("\""@ =~= seq!['"']);
                    assert(enc_db_type(DbTypeModel::Boolean) =~= ("{\"type\":\""@ + (tag@
                        + seq!['"'])) + "}"@);
                }
                Some((DbType::Boolean, end))
            },
            None => None,
        }
    } else {
        None
    }
}

/// One column document.
fn parse_column(inp: &Vec<char>, start: usize) -> (r: Option<(ColumnDeclaration, usize)>)
    requires
        start <= inp@.len(),
    ensures
        r matches Some(pr) ==> wf_column(pr.0@) && at(inp@, start as int, enc_column(pr.0@))
            && pr.1 == start + enc_column(pr.0@).len() && start < pr.1 <= inp@.len(),
        forall|m: ColumnModel|
            wf_column(m) && at(inp@, start as int, enc_column(m)) ==> (r matches Some(pr)
                && pr.0@ == m),
{
    proof {
        reveal_strlit("{\"name\":");
        assert forall|m: ColumnModel| at(inp@, start as int, enc_column(m)) implies (at(
            inp@,
            start as int,
            "{\"name\":"@,
        ) && at(inp@, start + "{\"name\":"@.len(), enc_string(m.name)) && at(
            inp@,
            start + "{\"name\":"@.len() + enc_string(m.name).len(),
            ",\"db_type\":"@,
        ) && at(
            inp@,
            start + "{\"name\":"@.len() + enc_string(m.name).len() + ",\"db_type\":"@.len(),
            enc_db_type(m.db_type),
        ) && at(
            inp@,
            start + "{\"name\":"@.len() + enc_string(m.name).len() + ",\"db_type\":"@.len()
                + enc_db_type(m.db_type).len(),
            ",\"is_nullable\":"@,
        ) && at(
            inp@,
            start + "{\"name\":"@.len() + enc_string(m.name).len() + ",\"db_type\":"@.len()
                + enc_db_type(m.db_type).len() + ",\"is_nullable\":"@.len(),
            crate::codec::enc_bool(m.is_nullable),
        ) && at(
            inp@,
            start + "{\"name\":"@.len() + enc_string(m.name).len() + ",\"db_type\":"@.len()
                + enc_db_type(m.db_type).len() + ",\"is_nullable\":"@.len()
                + crate::codec::enc_bool(m.is_nullable).len(),
            "}"@,
        )) by {
            let a = "{\"name\":"@;
            let b = enc_string(m.name);
            let c = ",\"db_type\":"@;
            let d = enc_db_type(m.db_type);
            let e = ",\"is_nullable\":"@;
            let f = crate::codec::enc_bool(m.is_nullable);
            lemma_at_split(inp@, start as int, a + b + c + d + e + f, "}"@);
            lemma_at_split(inp@, start as int, a + b + c + d + e, f);
            lemma_at_split(inp@, start as int, a + b + c + d, e);
            lemma_at_split(inp@, start as int, a + b + c, d);
            lemma_at_split(inp@, start as int, a + b, c);
            lemma_at_split(inp@, start as int, a, b);
        }
    }
    let e1 = match expect_lit(inp, start, "{\"name\":") {
        Some(e) => e,
        None => {
            return None;
        },
    };
    let (name, p2) = match parse_json_string(inp, e1) {
        Some(x) => x,
        None => {
            return None;
        },
    };
    let p3 = match expect_lit(inp, p2, ",\"db_type\":") {
        Some(e) => e,
        None => {
            return None;
        },
    };
    let (dbt, p4) = match parse_db_type(inp, p3) {
        Some(x) => x,
        None => {
            return None;
        },
    };
    let p5 = match expect_lit(inp, p4, ",\"is_nullable\":") {
        Some(e) => e,
        None => {
            return None;
        },
    };
    let (nul, p6) = match parse_bool(inp, p5) {
        Some(x) => x,
        None => {
            return None;
        },
    };
    let end = match expect_lit(inp, p6, "}") {
        Some(e) => e,
        None => {
            return None;
        },
    };
    let col = ColumnDeclaration { name, db_type: dbt, is_nullable: nul };
    proof {
        let a = "{\"name\":"@;
        let b = enc_string(col@.name);
        let c = ",\"db_type\":"@;
        let d = enc_db_type(col@.db_type);
        let e = ",\"is_nullable\":"@;
        let f = crate::codec::enc_bool(col@.is_nullable);
        lemma_at_split(inp@, start as int, a, b);
        lemma_at_split(inp@, start as int, a + b, c);
        lemma_at_split(inp@, start as int, a + b + c, d);
        lemma_at_split(inp@, start as int, a + b + c + d, e);
        lemma_at_split(inp@, start as int, a + b + c + d + e, f);
        lemma_at_split(inp@, start as int, a + b + c + d + e + f, "}"@);
        assert(enc_column(col@) == a + b + c + d + e + f + "}"@);
    }
    Some((col, end))
}

/// The elements of a non-empty column list, after the opening bracket.
#[verifier::rlimit(30)]
fn parse_columns_tail(inp: &Vec<char>, start: usize, acc: &mut Vec<ColumnDeclaration>) -> (r:
    Option<usize>)
    requires
        start <= inp@.len(),
    ensures
        r matches Some(end) ==> old(acc)@.len() < final(acc)@.len() && (forall|k: int|
            old(acc)@.len() <= k < final(acc)@.len() ==> wf_column(
                #[trigger] columns_view(final(acc)@)[k],
            )) && at(
            inp@,
            start as int,
            enc_columns_tail(columns_view(final(acc)@).skip(old(acc)@.len() as int)),
        ) && end == start + enc_columns_tail(
            columns_view(final(acc)@).skip(old(acc)@.len() as int),
        ).len() && start < end <= inp@.len(),
        forall|ms: Seq<ColumnModel>|
            ms.len() >= 1 && (forall|k: int| 0 <= k < ms.len() ==> wf_column(#[trigger] ms[k]))
                && at(inp@, start as int, enc_columns_tail(ms)) ==> (r matches Some(end)
                && columns_view(final(acc)@) == columns_view(old(acc)@) + ms && end == start
                + enc_columns_tail(ms).len()),
    decreases inp@.len() - start,
{
    proof {
        reveal_strlit("]");
        reveal_strlit(",");
        assert forall|ms: Seq<ColumnModel>|
            ms.len() >= 1 && at(inp@, start as int, enc_columns_tail(ms)) implies (at(
            inp@,
            start as int,
            enc_column(ms[0]),
        ) && (ms.len() == 1 ==> at(inp@, start + enc_column(ms[0]).len(), "]"@)) && (ms.len() > 1
            ==> at(inp@, start + enc_column(ms[0]).len(), ","@) && at(
            inp@,
            start + enc_column(ms[0]).len() + 1,
            enc_columns_tail(ms.drop_first()),
        ))) by {
            if ms.len() == 1 {
                lemma_at_split(inp@, start as int, enc_column(ms[0]), "]"@);
            } else {
                assert(enc_columns_tail(ms) == enc_column(ms[0]) + ","@ + enc_columns_tail(
                    ms.drop_first(),
                ));
                lemma_at_split(
                    inp@,
                    start as int,
                    enc_column(ms[0]) + ","@,
                    enc_columns_tail(ms.drop_first()),
                );
                lemma_at_split(inp@, start as int, enc_column(ms[0]), ","@);
            }
        }
    }
    let ghost acc0 = acc@;
    let (c, p1) = match parse_column(inp, start) {
        Some(x) => x,
        None => {
            return None;
        },
    };
    acc.push(c);
    proof {
        assert(columns_view(acc@) =~= columns_view(acc0).push(c@));
        assert forall|ms: Seq<ColumnModel>|
            ms.len() >= 1 && (forall|k: int| 0 <= k < ms.len() ==> wf_column(#[trigger] ms[k]))
                && at(inp@, start as int, enc_columns_tail(ms)) implies (c@ == ms[0] && p1 == start
            + enc_column(ms[0]).len()) by {
            assert(wf_column(ms[0]));
        }
    }
    match expect_lit(inp, p1, "]") {
        Some(end) => {
            proof {
                let new = columns_view(acc@).skip(acc0.len() as int);
                assert(new =~= seq![c@]);
                assert(enc_columns_tail(new) == enc_column(c@) + "]"@);
                lemma_at_split(inp@, start as int, enc_column(c@), "]"@);
                assert forall|ms: Seq<ColumnModel>|
                    ms.len() >= 1 && (forall|k: int|
                        0 <= k < ms.len() ==> wf_column(#[trigger] ms[k])) && at(
                        inp@,
                        start as int,
                        enc_columns_tail(ms),
                    ) implies (columns_view(acc@) == columns_view(acc0) + ms && end == start
                    + enc_columns_tail(ms).len()) by {
                    if ms.len() > 1 {
                        lemma_at_char(inp@, p1 as int, ","@, 0);
                        lemma_at_char(inp@, p1 as int, "]"@, 0);
                        assert(false);
                    }
                    assert(ms =~= seq![c@]);
                    assert(columns_view(acc@) =~= columns_view(acc0) + ms);
                }
            }
            Some(end)
        },
        None => {
            match expect_lit(inp, p1, ",") {
                Some(p2) => {
                    let ghost acc1 = acc@;
                    match parse_columns_tail(inp, p2, acc) {
                        Some(end) => {
                            proof {
                                let rest = columns_view(acc@).skip(acc1.len() as int);
                                let new = columns_view(acc@).skip(acc0.len() as int);
                                assert(new =~= seq![c@] + rest) by {
                                    assert(columns_view(acc1) =~= columns_view(
                                        acc@,
                                    ).take(acc1.len() as int));
                                    assert(columns_view(acc1)[acc0.len() as int] == c@);
                                }
                                assert(new.drop_first() =~= rest);
                                assert(new[0] == c@);
                                assert(enc_columns_tail(new) == enc_column(c@) + ","@
                                    + enc_columns_tail(rest));
                                lemma_at_split(inp@, start as int, enc_column(c@), ","@);
                                lemma_at_split(
                                    inp@,
                                    start as int,
                                    enc_column(c@) + ","@,
                                    enc_columns_tail(rest),
                                );
                                assert forall|ms: Seq<ColumnModel>|
                                    ms.len() >= 1 && (forall|k: int|
                                        0 <= k < ms.len() ==> wf_column(#[trigger] ms[k])) && at(
                                        inp@,
                                        start as int,
                                        enc_columns_tail(ms),
                                    ) implies (columns_view(acc@) == columns_view(acc0) + ms && end
                                    == start + enc_columns_tail(ms).len()) by {
                                    if ms.len() == 1 {
                                        lemma_at_char(inp@, p1 as int, "]"@, 0);
                                        assert(at(inp@, p1 as int, "]"@));
                                        assert(false);
                                    }
                                    assert(forall|k: int|
                                        0 <= k < ms.drop_first().len() ==> wf_column(
                                            #[trigger] ms.drop_first()[k],
                                        ));
                                    assert(columns_view(acc@) == columns_view(acc1)
                                        + ms.drop_first());
                                    assert(columns_view(acc@) =~= columns_view(acc0) + ms);
                                }
                            }
                            Some(end)
                        },
                        None => {
                            proof {
                                assert forall|ms: Seq<ColumnModel>|
                                    ms.len() >= 1 && (forall|k: int|
                                        0 <= k < ms.len() ==> wf_column(#[trigger] ms[k])) && at(
                                        inp@,
                                        start as int,
                                        enc_columns_tail(ms),
                                    ) implies false by {
                                    if ms.len() == 1 {
                                        lemma_at_char(inp@, p1 as int, "]"@, 0);
                                        assert(false);
                                    }
                                    assert(forall|k: int|
                                        0 <= k < ms.drop_first().len() ==> wf_column(
                                            #[trigger] ms.drop_first()[k],
                                        ));
                                }
                            }
                            None
                        },
                    }
                },
                None => {
                    proof {
                        assert forall|ms: Seq<ColumnModel>|
                            ms.len() >= 1 && (forall|k: int|
                                0 <= k < ms.len() ==> wf_column(#[trigger] ms[k])) && at(
                                inp@,
                                start as int,
                                enc_columns_tail(ms),
                            ) implies false by {
                        }
                    }
                    None
                },
            }
        },
    }
}

/// A column list document.
fn parse_columns(inp: &Vec<char>, start: usize) -> (r: Option<(Vec<ColumnDeclaration>, usize)>)
    requires
        start <= inp@.len(),
    ensures
        r matches Some(pr) ==> (forall|k: int|
            0 <= k < pr.0@.len() ==> wf_column(#[trigger] columns_view(pr.0@)[k])) && at(
            inp@,
            start as int,
            enc_columns(columns_view(pr.0@)),
        ) && pr.1 == start + enc_columns(columns_view(pr.0@)).len() && start < pr.1 <= inp@.len(),
        forall|ms: Seq<ColumnModel>|
            (forall|k: int| 0 <= k < ms.len() ==> wf_column(#[trigger] ms[k])) && at(
                inp@,
                start as int,
                enc_columns(ms),
            ) ==> (r matches Some(pr) && columns_view(pr.0@) == ms),
{
    proof {
        reveal_strlit("[");
        reveal_strlit("]");
        reveal_strlit("[]");
        reveal_strlit("{\"name\":");
        assert("[]"@ =~= "["@ + "]"@);
        assert forall|ms: Seq<ColumnModel>| at(inp@, start as int, enc_columns(ms)) implies (at(
            inp@,
            start as int,
            "["@,
        ) && (ms.len() == 0 ==> at(inp@, start + 1, "]"@)) && (ms.len() >= 1 ==> at(
            inp@,
            start + 1,
            enc_columns_tail(ms),
        ))) by {
            if ms.len() == 0 {
                lemma_at_split(inp@, start as int, "["@, "]"@);
            } else {
                lemma_at_split(inp@, start as int, "["@, enc_columns_tail(ms));
            }
        }
    }
    let e1 = match expect_lit(inp, start, "[") {
        Some(e) => e,
        None => {
            return None;
        },
    };
    match expect_lit(inp, e1, "]") {
        Some(end) => {
            proof {
                let empty = Seq::<ColumnModel>::empty();
                assert(columns_view(Seq::<ColumnDeclaration>::empty()) =~= empty);
                lemma_at_split(inp@, start as int, "["@, "]"@);
                assert forall|ms: Seq<ColumnModel>|
                    ms.len() >= 1 && at(inp@, e1 as int, enc_columns_tail(ms)) implies false by {
                    assert(enc_columns_tail(ms).len() > 0);
                    if ms.len() == 1 {
                        lemma_at_split(inp@, e1 as int, enc_column(ms[0]), "]"@);
                        lemma_at_char(inp@, e1 as int, enc_column(ms[0]), 0);
                    } else {
                        assert(enc_columns_tail(ms) == enc_column(ms[0]) + ","@
                            + enc_columns_tail(ms.drop_first()));
                        lemma_at_split(inp@, e1 as int, enc_column(ms[0]) + ","@,
                            enc_columns_tail(ms.drop_first()));
                        lemma_at_split(inp@, e1 as int, enc_column(ms[0]), ","@);
                        lemma_at_char(inp@, e1 as int, enc_column(ms[0]), 0);
                    }
                    lemma_at_char(inp@, e1 as int, "]"@, 0);
                }
            }
            Some((Vec::new(), end))
        },
        None => {
            let mut acc: Vec<ColumnDeclaration> = Vec::new();
            let res = parse_columns_tail(inp, e1, &mut acc);
            match res {
                Some(end) => {
                    proof {
                        assert(columns_view(acc@).skip(0) =~= columns_view(acc@));
                        lemma_at_split(inp@, start as int, "["@, enc_columns_tail(
                            columns_view(acc@),
                        ));
                        assert forall|ms: Seq<ColumnModel>|
                            (forall|k: int| 0 <= k < ms.len() ==> wf_column(#[trigger] ms[k]))
                                && at(inp@, start as int, enc_columns(ms)) implies (
                        columns_view(acc@) == ms) by {
                            if ms.len() == 0 {
                                lemma_at_char(inp@, e1 as int, "]"@, 0);
                                assert(false);
                            }
                            assert(columns_view(acc@) =~= columns_view(
                                Seq::<ColumnDeclaration>::empty(),
                            ) + ms);
                        }
                    }
                    Some((acc, end))
                },
                None => {
                    proof {
                        assert forall|ms: Seq<ColumnModel>|
                            (forall|k: int| 0 <= k < ms.len() ==> wf_column(#[trigger] ms[k]))
                                && at(inp@, start as int, enc_columns(ms)) implies false by {
                            if ms.len() == 0 {
                                lemma_at_char(inp@, e1 as int, "]"@, 0);
                            }
                        }
                    }
                    None
                },
            }
        },
    }
}

/// One table document.
fn parse_table(inp: &Vec<char>, start: usize) -> (r: Option<(TableDeclaration, usize)>)
    requires
        start <= inp@.len(),
    ensures
        r matches Some(pr) ==> wf_table(pr.0@) && at(inp@, start as int, enc_table(pr.0@)) && pr.1
            == start + enc_table(pr.0@).len() && start < pr.1 <= inp@.len(),
        forall|m: TableModel|
            wf_table(m) && at(inp@, start as int, enc_table(m)) ==> (r matches Some(pr) && pr.0@
                == m),
{
    proof {
        reveal_strlit("{\"name\":");
        assert forall|m: TableModel| at(inp@, start as int, enc_table(m)) implies (at(
            inp@,
            start as int,
            "{\"name\":"@,
        ) && at(inp@, start + "{\"name\":"@.len(), enc_string(m.name)) && at(
            inp@,
            start + "{\"name\":"@.len() + enc_string(m.name).len(),
            ",\"columns\":"@,
        ) && at(
            inp@,
            start + "{\"name\":"@.len() + enc_string(m.name).len() + ",\"columns\":"@.len(),
            enc_columns(m.columns),
        ) && at(
            inp@,
            start + "{\"name\":"@.len() + enc_string(m.name).len() + ",\"columns\":"@.len()
                + enc_columns(m.columns).len(),
            "}"@,
        )) by {
            let a = "{\"name\":"@;
            let b = enc_string(m.name);
            let c = ",\"columns\":"@;
            let d = enc_columns(m.columns);
            lemma_at_split(inp@, start as int, a + b + c + d, "}"@);
            lemma_at_split(inp@, start as int, a + b + c, d);
            lemma_at_split(inp@, start as int, a + b, c);
            lemma_at_split(inp@, start as int, a, b);
        }
    }
    let e1 = match expect_lit(inp, start, "{\"name\":") {
        Some(e) => e,
        None => {
            return None;
        },
    };
    let (name, p2) = match parse_json_string(inp, e1) {
        Some(x) => x,
        None => {
            return None;
        },
    };
    let p3 = match expect_lit(inp, p2, ",\"columns\":") {
        Some(e) => e,
        None => {
            return None;
        },
    };
    let (cols, p4) = match parse_columns(inp, p3) {
        Some(x) => x,
        None => {
            return None;
        },
    };
    let end = match expect_lit(inp, p4, "}") {
        Some(e) => e,
        None => {
            return None;
        },
    };
    let tab = TableDeclaration { name, columns: cols };
    proof {
        let a = "{\"name\":"@;
        let b = enc_string(tab@.name);
        let c = ",\"columns\":"@;
        let d = enc_columns(tab@.columns);
        lemma_at_split(inp@, start as int, a, b);
        lemma_at_split(inp@, start as int, a + b, c);
        lemma_at_split(inp@, start as int, a + b + c, d);
        lemma_at_split(inp@, start as int, a + b + c + d, "}"@);
        assert(enc_table(tab@) == a + b + c + d + "}"@);
    }
    Some((tab, end))
}

/// The elements of a non-empty table list, after the opening bracket.
#[verifier::rlimit(30)]
fn parse_tables_tail(inp: &Vec<char>, start: usize, acc: &mut Vec<TableDeclaration>) -> (r: Option<
    usize,
>)
    requires
        start <= inp@.len(),
    ensures
        r matches Some(end) ==> old(acc)@.len() < final(acc)@.len() && (forall|k: int|
            old(acc)@.len() <= k < final(acc)@.len() ==> wf_table(
                #[trigger] tables_view(final(acc)@)[k],
            )) && at(
            inp@,
            start as int,
            enc_tables_tail(tables_view(final(acc)@).skip(old(acc)@.len() as int)),
        ) && end == start + enc_tables_tail(
            tables_view(final(acc)@).skip(old(acc)@.len() as int),
        ).len() && start < end <= inp@.len(),
        forall|ms: Seq<TableModel>|
            ms.len() >= 1 && (forall|k: int| 0 <= k < ms.len() ==> wf_table(#[trigger] ms[k]))
                && at(inp@, start as int, enc_tables_tail(ms)) ==> (r matches Some(end)
                && tables_view(final(acc)@) == tables_view(old(acc)@) + ms && end == start
                + enc_tables_tail(ms).len()),
    decreases inp@.len() - start,
{
    proof {
        reveal_strlit("]");
        reveal_strlit(",");
        assert forall|ms: Seq<TableModel>|
            ms.len() >= 1 && at(inp@, start as int, enc_tables_tail(ms)) implies (at(
            inp@,
            start as int,
            enc_table(ms[0]),
        ) && (ms.len() == 1 ==> at(inp@, start + enc_table(ms[0]).len(), "]"@)) && (ms.len() > 1
            ==> at(inp@, start + enc_table(ms[0]).len(), ","@) && at(
            inp@,
            start + enc_table(ms[0]).len() + 1,
            enc_tables_tail(ms.drop_first()),
        ))) by {
            if ms.len() == 1 {
                lemma_at_split(inp@, start as int, enc_table(ms[0]), "]"@);
            } else {
                assert(enc_tables_tail(ms) == enc_table(ms[0]) + ","@ + enc_tables_tail(
                    ms.drop_first(),
                ));
                lemma_at_split(
                    inp@,
                    start as int,
                    enc_table(ms[0]) + ","@,
                    enc_tables_tail(ms.drop_first()),
                );
                lemma_at_split(inp@, start as int, enc_table(ms[0]), ","@);
            }
        }
    }
    let ghost acc0 = acc@;
    let (t, p1) = match parse_table(inp, start) {
        Some(x) => x,
        None => {
            return None;
        },
    };
    acc.push(t);
    proof {
        assert(tables_view(acc@) =~= tables_view(acc0).push(t@));
        assert forall|ms: Seq<TableModel>|
            ms.len() >= 1 && (forall|k: int| 0 <= k < ms.len() ==> wf_table(#[trigger] ms[k]))
                && at(inp@, start as int, enc_tables_tail(ms)) implies (t@ == ms[0] && p1 == start
            + enc_table(ms[0]).len()) by {
            assert(wf_table(ms[0]));
        }
    }
    match expect_lit(inp, p1, "]") {
        Some(end) => {
            proof {
                let new = tables_view(acc@).skip(acc0.len() as int);
                assert(new =~= seq![t@]);
                assert(enc_tables_tail(new) == enc_table(t@) + "]"@);
                lemma_at_split(inp@, start as int, enc_table(t@), "]"@);
                assert forall|ms: Seq<TableModel>|
                    ms.len() >= 1 && (forall|k: int|
                        0 <= k < ms.len() ==> wf_table(#[trigger] ms[k])) && at(
                        inp@,
                        start as int,
                        enc_tables_tail(ms),
                    ) implies (tables_view(acc@) == tables_view(acc0) + ms && end == start
                    + enc_tables_tail(ms).len()) by {
                    if ms.len() > 1 {
                        lemma_at_char(inp@, p1 as int, ","@, 0);
                        lemma_at_char(inp@, p1 as int, "]"@, 0);
                        assert(false);
                    }
                    assert(ms =~= seq![t@]);
                    assert(tables_view(acc@) =~= tables_view(acc0) + ms);
                }
            }
            Some(end)
        },
        None => {
            match expect_lit(inp, p1, ",") {
                Some(p2) => {
                    let ghost acc1 = acc@;
                    match parse_tables_tail(inp, p2, acc) {
                        Some(end) => {
                            proof {
                                let rest = tables_view(acc@).skip(acc1.len() as int);
                                let new = tables_view(acc@).skip(acc0.len() as int);
                                assert(new =~= seq![t@] + rest) by {
                                    assert(tables_view(acc1) =~= tables_view(
                                        acc@,
                                    ).take(acc1.len() as int));
                                    assert(tables_view(acc1)[acc0.len() as int] == t@);
                                }
                                assert(new.drop_first() =~= rest);
                                assert(new[0] == t@);
                                assert(enc_tables_tail(new) == enc_table(t@) + ","@
                                    + enc_tables_tail(rest));
                                lemma_at_split(inp@, start as int, enc_table(t@), ","@);
                                lemma_at_split(
                                    inp@,
                                    start as int,
                                    enc_table(t@) + ","@,
                                    enc_tables_tail(rest),
                                );
                                assert forall|ms: Seq<TableModel>|
                                    ms.len() >= 1 && (forall|k: int|
                                        0 <= k < ms.len() ==> wf_table(#[trigger] ms[k])) && at(
                                        inp@,
                                        start as int,
                                        enc_tables_tail(ms),
                                    ) implies (tables_view(acc@) == tables_view(acc0) + ms && end
                                    == start + enc_tables_tail(ms).len()) by {
                                    if ms.len() == 1 {
                                        lemma_at_char(inp@, p1 as int, "]"@, 0);
                                        assert(false);
                                    }
                                    assert(forall|k: int|
                                        0 <= k < ms.drop_first().len() ==> wf_table(
                                            #[trigger] ms.drop_first()[k],
                                        ));
                                    assert(tables_view(acc@) == tables_view(acc1)
                                        + ms.drop_first());
                                    assert(tables_view(acc@) =~= tables_view(acc0) + ms);
                                }
                            }
                            Some(end)
                        },
                        None => {
                            proof {
                                assert forall|ms: Seq<TableModel>|
                                    ms.len() >= 1 && (forall|k: int|
                                        0 <= k < ms.len() ==> wf_table(#[trigger] ms[k])) && at(
                                        inp@,
                                        start as int,
                                        enc_tables_tail(ms),
                                    ) implies false by {
                                    if ms.len() == 1 {
                                        lemma_at_char(inp@, p1 as int, "]"@, 0);
                                        assert(false);
                                    }
                                    assert(forall|k: int|
                                        0 <= k < ms.drop_first().len() ==> wf_table(
                                            #[trigger] ms.drop_first()[k],
                                        ));
                                }
                            }
                            None
                        },
                    }
                },
                None => {
                    proof {
                        assert forall|ms: Seq<TableModel>|
                            ms.len() >= 1 && (forall|k: int|
                                0 <= k < ms.len() ==> wf_table(#[trigger] ms[k])) && at(
                                inp@,
                                start as int,
                                enc_tables_tail(ms),
                            ) implies false by {
                        }
                    }
                    None
                },
            }
        },
    }
}

/// A table list document.
fn parse_tables(inp: &Vec<char>, start: usize) -> (r: Option<(Vec<TableDeclaration>, usize)>)
    requires
        start <= inp@.len(),
    ensures
        r matches Some(pr) ==> (forall|k: int|
            0 <= k < pr.0@.len() ==> wf_table(#[trigger] tables_view(pr.0@)[k])) && at(
            inp@,
            start as int,
            enc_tables(tables_view(pr.0@)),
        ) && pr.1 == start + enc_tables(tables_view(pr.0@)).len() && start < pr.1 <= inp@.len(),
        forall|ms: Seq<TableModel>|
            (forall|k: int| 0 <= k < ms.len() ==> wf_table(#[trigger] ms[k])) && at(
                inp@,
                start as int,
                enc_tables(ms),
            ) ==> (r matches Some(pr) && tables_view(pr.0@) == ms),
{
    proof {
        reveal_strlit("[");
        reveal_strlit("]");
        reveal_strlit("[]");
        reveal_strlit("{\"name\":");
        assert("[]"@ =~= "["@ + "]"@);
        assert forall|ms: Seq<TableModel>| at(inp@, start as int, enc_tables(ms)) implies (at(
            inp@,
            start as int,
            "["@,
        ) && (ms.len() == 0 ==> at(inp@, start + 1, "]"@)) && (ms.len() >= 1 ==> at(
            inp@,
            start + 1,
            enc_tables_tail(ms),
        ))) by {
            if ms.len() == 0 {
                lemma_at_split(inp@, start as int, "["@, "]"@);
            } else {
                lemma_at_split(inp@, start as int, "["@, enc_tables_tail(ms));
            }
        }
    }
    let e1 = match expect_lit(inp, start, "[") {
        Some(e) => e,
        None => {
            return None;
        },
    };
    match expect_lit(inp, e1, "]") {
        Some(end) => {
            proof {
                assert(tables_view(Seq::<TableDeclaration>::empty()) =~= Seq::<
                    TableModel,
                >::empty());
                lemma_at_split(inp@, start as int, "["@, "]"@);
                assert forall|ms: Seq<TableModel>|
                    ms.len() >= 1 && at(inp@, e1 as int, enc_tables_tail(ms)) implies false by {
                    if ms.len() == 1 {
                        lemma_at_split(inp@, e1 as int, enc_table(ms[0]), "]"@);
                        lemma_at_char(inp@, e1 as int, enc_table(ms[0]), 0);
                    } else {
                        assert(enc_tables_tail(ms) == enc_table(ms[0]) + ","@ + enc_tables_tail(
                            ms.drop_first(),
                        ));
                        lemma_at_split(
                            inp@,
                            e1 as int,
                            enc_table(ms[0]) + ","@,
                            enc_tables_tail(ms.drop_first()),
                        );
                        lemma_at_split(inp@, e1 as int, enc_table(ms[0]), ","@);
                        lemma_at_char(inp@, e1 as int, enc_table(ms[0]), 0);
                    }
                    lemma_at_char(inp@, e1 as int, "]"@, 0);
                }
            }
            Some((Vec::new(), end))
        },
        None => {
            let mut acc: Vec<TableDeclaration> = Vec::new();
            let res = parse_tables_tail(inp, e1, &mut acc);
            match res {
                Some(end) => {
                    proof {
                        assert(tables_view(acc@).skip(0) =~= tables_view(acc@));
                        lemma_at_split(
                            inp@,
                            start as int,
                            "["@,
                            enc_tables_tail(tables_view(acc@)),
                        );
                        assert forall|ms: Seq<TableModel>|
                            (forall|k: int| 0 <= k < ms.len() ==> wf_table(#[trigger] ms[k]))
                                && at(inp@, start as int, enc_tables(ms)) implies (tables_view(
                            acc@,
                        ) == ms) by {
                            if ms.len() == 0 {
                                lemma_at_char(inp@, e1 as int, "]"@, 0);
                                assert(false);
                            }
                            assert(tables_view(acc@) =~= tables_view(
                                Seq::<TableDeclaration>::empty(),
                            ) + ms);
                        }
                    }
                    Some((acc, end))
                },
                None => {
                    proof {
                        assert forall|ms: Seq<TableModel>|
                            (forall|k: int| 0 <= k < ms.len() ==> wf_table(#[trigger] ms[k]))
                                && at(inp@, start as int, enc_tables(ms)) implies false by {
                            if ms.len() == 0 {
                                lemma_at_char(inp@, e1 as int, "]"@, 0);
                            }
                        }
                    }
                    None
                },
            }
        },
    }
}

/// A whole declaration document.
fn parse_decl(inp: &Vec<char>, start: usize) -> (r: Option<(ApiDeclaration, usize)>)
    requires
        start <= inp@.len(),
    ensures
        r matches Some(pr) ==> wf_decl(pr.0@) && at(inp@, start as int, enc_decl(pr.0@)) && pr.1
            == start + enc_decl(pr.0@).len() && start < pr.1 <= inp@.len(),
        forall|m: DeclModel|
            wf_decl(m) && at(inp@, start as int, enc_decl(m)) ==> (r matches Some(pr) && pr.0@
                == m),
{
    proof {
        reveal_strlit("{\"name\":");
        assert forall|m: DeclModel| at(inp@, start as int, enc_decl(m)) implies (at(
            inp@,
            start as int,
            "{\"name\":"@,
        ) && at(inp@, start + "{\"name\":"@.len(), enc_string(m.name)) && at(
            inp@,
            start + "{\"name\":"@.len() + enc_string(m.name).len(),
            ",\"db_name\":"@,
        ) && at(
            inp@,
            start + "{\"name\":"@.len() + enc_string(m.name).len() + ",\"db_name\":"@.len(),
            enc_string(m.db_name),
        ) && at(
            inp@,
            start + "{\"name\":"@.len() + enc_string(m.name).len() + ",\"db_name\":"@.len()
                + enc_string(m.db_name).len(),
            ",\"tables\":"@,
        ) && at(
            inp@,
            start + "{\"name\":"@.len() + enc_string(m.name).len() + ",\"db_name\":"@.len()
                + enc_string(m.db_name).len() + ",\"tables\":"@.len(),
            enc_tables(m.tables),
        ) && at(
            inp@,
            start + "{\"name\":"@.len() + enc_string(m.name).len() + ",\"db_name\":"@.len()
                + enc_string(m.db_name).len() + ",\"tables\":"@.len() + enc_tables(m.tables).len(),
            "}"@,
        )) by {
            let a = "{\"name\":"@;
            let b = enc_string(m.name);
            let c = ",\"db_name\":"@;
            let d = enc_string(m.db_name);
            let e = ",\"tables\":"@;
            let f = enc_tables(m.tables);
            lemma_at_split(inp@, start as int, a + b + c + d + e + f, "}"@);
            lemma_at_split(inp@, start as int, a + b + c + d + e, f);
            lemma_at_split(inp@, start as int, a + b + c + d, e);
            lemma_at_split(inp@, start as int, a + b + c, d);
            lemma_at_split(inp@, start as int, a + b, c);
            lemma_at_split(inp@, start as int, a, b);
        }
    }
    let e1 = match expect_lit(inp, start, "{\"name\":") {
        Some(e) => e,
        None => {
            return None;
        },
    };
    let (name, p2) = match parse_json_string(inp, e1) {
        Some(x) => x,
        None => {
            return None;
        },
    };
    let p3 = match expect_lit(inp, p2, ",\"db_name\":") {
        Some(e) => e,
        None => {
            return None;
        },
    };
    let (db_name, p4) = match parse_json_string(inp, p3) {
        Some(x) => x,
        None => {
            return None;
        },
    };
    let p5 = match expect_lit(inp, p4, ",\"tables\":") {
        Some(e) => e,
        None => {
            return None;
        },
    };
    let (tables, p6) = match parse_tables(inp, p5) {
        Some(x) => x,
        None => {
            return None;
        },
    };
    let end = match expect_lit(inp, p6, "}") {
        Some(e) => e,
        None => {
            return None;
        },
    };
    let decl = ApiDeclaration { name, db_name, tables };
    proof {
        let a = "{\"name\":"@;
        let b = enc_string(decl@.name);
        let c = ",\"db_name\":"@;
        let d = enc_string(decl@.db_name);
        let e = ",\"tables\":"@;
        let f = enc_tables(decl@.tables);
        lemma_at_split(inp@, start as int, a, b);
        lemma_at_split(inp@, start as int, a + b, c);
        lemma_at_split(inp@, start as int, a + b + c, d);
        lemma_at_split(inp@, start as int, a + b + c + d, e);
        lemma_at_split(inp@, start as int, a + b + c + d + e, f);
        lemma_at_split(inp@, start as int, a + b + c + d + e + f, "}"@);
        assert(enc_decl(decl@) == a + b + c + d + e + f + "}"@);
    }
    Some((decl, end))
}

/// Why a queue message was rejected: the payload was not UTF-8 text at all,
/// or the text was not a declaration document.
#[derive(Clone, Copy, Debug, PartialEq, Eq)]
pub enum DecodeError {
    InvalidUtf8,
    MalformedDocument,
}

/// The declaration carried by one queue message.
///
/// Exact in both directions: a result is returned exactly when the payload is
/// the wire form of a well-formed declaration, and then it is that
/// declaration. With `encode`'s contract this is the round-trip law: decoding
/// `encode(d)` yields `d` again for every well-formed `d` (`wf_decl`:
/// float bounds are JSON numbers, timestamp bounds have the RFC 3339
/// shape; names are arbitrary).
pub fn decode(bytes: &[u8]) -> (r: Result<ApiDeclaration, DecodeError>)
    ensures
        r matches Ok(d) ==> wf_decl(d@) && bytes@ == encode_utf8(enc_decl(d@)),
        forall|m: DeclModel|
            wf_decl(m) && bytes@ == encode_utf8(enc_decl(m)) ==> (r matches Ok(d) && d@ == m),
        (r matches Err(e) && e is InvalidUtf8) <==> !valid_utf8(bytes@),
{
    proof {
        assert forall|m: DeclModel| bytes@ == encode_utf8(enc_decl(m)) implies valid_utf8(bytes@)
            && decode_utf8(bytes@) == enc_decl(m) by {
            encode_utf8_valid_utf8(enc_decl(m));
            encode_utf8_decode_utf8(enc_decl(m));
        }
    }
    match str_from_utf8(bytes) {
        None => Err(DecodeError::InvalidUtf8),
        Some(s) => {
            let inp = str_to_chars(s);
            proof {
                decode_utf8_encode_utf8(bytes@);
                assert forall|m: DeclModel|
                    wf_decl(m) && bytes@ == encode_utf8(enc_decl(m)) implies at(
                    inp@,
                    0,
                    enc_decl(m),
                ) && inp@.len() == enc_decl(m).len() by {
                    assert(inp@ == enc_decl(m));
                    assert(inp@.subrange(0, enc_decl(m).len() as int) =~= enc_decl(m));
                }
            }
            match parse_decl(&inp, 0) {
                None => Err(DecodeError::MalformedDocument),
                Some((d, end)) => {
                    if end == inp.len() {
                        proof {
                            assert(inp@.subrange(0, enc_decl(d@).len() as int) =~= inp@);
                            assert(bytes@ == encode_utf8(inp@));
                        }
                        Ok(d)
                    } else {
                        Err(DecodeError::MalformedDocument)
                    }
                },
            }
        },
    }
}

} // verus!
