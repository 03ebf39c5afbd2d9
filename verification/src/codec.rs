//! The wire form of an API declaration and its verified encoder.
//!
//! A declaration travels as a compact JSON document with a fixed key order
//! and an explicit `null` for every absent constraint. `enc_decl` is the
//! mathematical definition of that document; `encode` produces exactly it.
//! The decoder in `parse` accepts exactly the documents this definition
//! produces for well-formed models, which is what makes the round-trip law
//! provable.
//!
//! Convention held in both directions: string values are stored raw except
//! for `\"` and `\\`, the two escapes, which the encoder writes and the
//! decoder reads back. The codec round-trips every well-formed declaration
//! (`wf_decl` in `models`): names are arbitrary, float bounds are JSON
//! numbers, timestamp bounds have the RFC 3339 shape.

use vstd::prelude::*;
use vstd::arithmetic::div_mod::lemma_fundamental_div_mod_converse;
use crate::models::{
    plain_char, plain_text, number_char, number_text, lemma_number_text_chars, wf_db_type,
    wf_column, wf_table, wf_decl, opt_number_view, opt_timestamp_view, columns_view,
    tables_view, ApiDeclaration, TableDeclaration, ColumnDeclaration, DbType, NumberText,
    TimestampText, DeclModel, TableModel, ColumnModel, DbTypeModel,
};
use crate::text::chars_to_string;
use vstd::string::StrSliceExecFns;

verus! {

/// The word `w` stands in `s` at position `i`.
pub open spec fn at(s: Seq<char>, i: int, w: Seq<char>) -> bool {
    &&& 0 <= i
    &&& i + w.len() <= s.len()
    &&& s.subrange(i, i + w.len()) == w
}

/// The wire form of one string character: `"` and `\` are escaped, all
/// others stand raw.
pub open spec fn esc_char(c: char) -> Seq<char> {
    if c == '"' || c == '\\' {
        seq!['\\', c]
    } else {
        seq![c]
    }
}

/// The wire form of string contents.
pub open spec fn esc(s: Seq<char>) -> Seq<char>
    decreases s.len(),
{
    if s.len() == 0 {
        Seq::<char>::empty()
    } else {
        esc(s.drop_last()) + esc_char(s.last())
    }
}

/// A quoted JSON string.
pub open spec fn enc_string(s: Seq<char>) -> Seq<char> {
    seq!['"'] + esc(s) + seq!['"']
}

pub open spec fn is_digit(c: char) -> bool {
    '0' <= c && c <= '9'
}

pub open spec fn digit_char(n: nat) -> char {
    if n == 0 {
        '0'
    } else if n == 1 {
        '1'
    } else if n == 2 {
        '2'
    } else if n == 3 {
        '3'
    } else if n == 4 {
        '4'
    } else if n == 5 {
        '5'
    } else if n == 6 {
        '6'
    } else if n == 7 {
        '7'
    } else if n == 8 {
        '8'
    } else {
        '9'
    }
}

pub open spec fn digit_val(c: char) -> int {
    c as int - '0' as int
}

/// The decimal digits of `n`, most significant first, without leading zeros.
pub open spec fn dec_digits(n: nat) -> Seq<char>
    decreases n,
{
    if n < 10 {
        seq![digit_char(n)]
    } else {
        dec_digits(n / 10).push(digit_char(n % 10))
    }
}

/// The number denoted by a digit sequence.
pub open spec fn digits_val(s: Seq<char>) -> int
    decreases s.len(),
{
    if s.len() == 0 {
        0
    } else {
        digits_val(s.drop_last()) * 10 + digit_val(s.last())
    }
}

pub open spec fn enc_opt_usize(o: Option<usize>) -> Seq<char> {
    match o {
        Option::None => "null"@,
        Option::Some(n) => dec_digits(n as nat),
    }
}

pub open spec fn enc_opt_number(o: Option<Seq<char>>) -> Seq<char> {
    match o {
        Option::None => "null"@,
        Option::Some(t) => t,
    }
}

pub open spec fn enc_opt_timestamp(o: Option<Seq<char>>) -> Seq<char> {
    match o {
        Option::None => "null"@,
        Option::Some(t) => enc_string(t),
    }
}

pub open spec fn enc_bool(b: bool) -> Seq<char> {
    if b {
        "true"@
    } else {
        "false"@
    }
}

/// The `type` tag of a column type.
pub open spec fn tag_of(t: DbTypeModel) -> Seq<char> {
    match t {
        DbTypeModel::Uuid => "Uuid"@,
        DbTypeModel::Text { .. } => "String"@,
        DbTypeModel::Int { .. } => "Int"@,
        DbTypeModel::Float { .. } => "Float"@,
        DbTypeModel::DateTime { .. } => "DateTime"@,
        DbTypeModel::Boolean => "Boolean"@,
    }
}

/// What follows the closing quote of the tag, up to and including the
/// closing brace. Payload-free variants carry nothing but the brace.
pub open spec fn db_payload(t: DbTypeModel) -> Seq<char> {
    match t {
        DbTypeModel::Uuid => "}"@,
        DbTypeModel::Boolean => "}"@,
        DbTypeModel::Text { min_length, max_length } => ",\"min_length\":"@
            + enc_opt_usize(min_length) + ",\"max_length\":"@ + enc_opt_usize(max_length) + "}"@,
        DbTypeModel::Int { min_range, max_range } => ",\"min_range\":"@ + enc_opt_usize(min_range)
            + ",\"max_range\":"@ + enc_opt_usize(max_range) + "}"@,
        DbTypeModel::Float { min_range, max_range } => ",\"min_range\":"@
            + enc_opt_number(min_range) + ",\"max_range\":"@ + enc_opt_number(max_range) + "}"@,
        DbTypeModel::DateTime { min_range, max_range } => ",\"min_range\":"@
            + enc_opt_timestamp(min_range) + ",\"max_range\":"@ + enc_opt_timestamp(max_range)
            + "}"@,
    }
}

/// The wire form of a column type: a tagged object.
pub open spec fn enc_db_type(t: DbTypeModel) -> Seq<char> {
    "{\"type\":\""@ + tag_of(t) + "\""@ + db_payload(t)
}

/// The wire form of a column.
pub open spec fn enc_column(c: ColumnModel) -> Seq<char> {
    "{\"name\":"@ + enc_string(c.name) + ",\"db_type\":"@ + enc_db_type(c.db_type)
        + ",\"is_nullable\":"@ + enc_bool(c.is_nullable) + "}"@
}

/// The elements of a non-empty column list, commas between them, up to and
/// including the closing bracket.
pub open spec fn enc_columns_tail(cs: Seq<ColumnModel>) -> Seq<char>
    decreases cs.len(),
{
    if cs.len() <= 1 {
        enc_column(cs[0]) + "]"@
    } else {
        enc_column(cs[0]) + ","@ + enc_columns_tail(cs.drop_first())
    }
}

/// The wire form of a column list.
pub open spec fn enc_columns(cs: Seq<ColumnModel>) -> Seq<char> {
    if cs.len() == 0 {
        "[]"@
    } else {
        "["@ + enc_columns_tail(cs)
    }
}

/// The wire form of a table.
pub open spec fn enc_table(t: TableModel) -> Seq<char> {
    "{\"name\":"@ + enc_string(t.name) + ",\"columns\":"@ + enc_columns(t.columns) + "}"@
}

/// The elements of a non-empty table list, as for columns.
pub open spec fn enc_tables_tail(ts: Seq<TableModel>) -> Seq<char>
    decreases ts.len(),
{
    if ts.len() <= 1 {
        enc_table(ts[0]) + "]"@
    } else {
        enc_table(ts[0]) + ","@ + enc_tables_tail(ts.drop_first())
    }
}

/// The wire form of a table list.
pub open spec fn enc_tables(ts: Seq<TableModel>) -> Seq<char> {
    if ts.len() == 0 {
        "[]"@
    } else {
        "["@ + enc_tables_tail(ts)
    }
}

/// The wire form of a whole declaration: the document `decode` accepts and
/// `encode` produces.
pub open spec fn enc_decl(d: DeclModel) -> Seq<char> {
    "{\"name\":"@ + enc_string(d.name) + ",\"db_name\":"@ + enc_string(d.db_name)
        + ",\"tables\":"@ + enc_tables(d.tables) + "}"@
}

/// Escaping read from the front: the first character's wire form, then the
/// rest.
pub proof fn lemma_esc_cons(t: Seq<char>)
    requires
        t.len() >= 1,
    ensures
        esc(t) == esc_char(t[0]) + esc(t.drop_first()),
    decreases t.len(),
{
    if t.len() == 1 {
        assert(t.drop_last() =~= Seq::<char>::empty());
        assert(t.drop_first() =~= Seq::<char>::empty());
        assert(esc(t) =~= esc_char(t[0]) + esc(t.drop_first()));
    } else {
        let u = t.drop_last();
        assert(u[0] == t[0]);
        lemma_esc_cons(u);
        assert(u.drop_first() =~= t.drop_first().drop_last());
        assert(t.drop_first().last() == t.last());
        assert(esc(t.drop_first()) == esc(t.drop_first().drop_last()) + esc_char(t.last()));
        assert(esc(t) =~= esc_char(t[0]) + esc(t.drop_first()));
    }
}

/// Escaped string bodies are unambiguous: two escaped bodies closed by a
/// quote, standing at one position, come from the same text.
proof fn lemma_esc_unamb(s: Seq<char>, i: int, t1: Seq<char>, t2: Seq<char>)
    requires
        at(s, i, esc(t1) + seq!['"']),
        at(s, i, esc(t2) + seq!['"']),
    ensures
        t1 == t2,
    decreases t1.len(),
{
    if t1.len() == 0 {
        assert(esc(t1) =~= Seq::<char>::empty());
        assert(s[i] == '"') by {
            assert(s.subrange(i, i + (esc(t1) + seq!['"']).len() as int)[0] == '"');
        }
        if t2.len() > 0 {
            lemma_esc_cons(t2);
            assert(s[i] == esc_char(t2[0])[0]) by {
                assert(s.subrange(i, i + (esc(t2) + seq!['"']).len() as int)[0] == (esc(t2)
                    + seq!['"'])[0]);
            }
            assert(false);
        }
        assert(t1 =~= t2);
    } else {
        lemma_esc_cons(t1);
        assert(s[i] == esc_char(t1[0])[0]) by {
            assert(s.subrange(i, i + (esc(t1) + seq!['"']).len() as int)[0] == (esc(t1)
                + seq!['"'])[0]);
        }
        if t2.len() == 0 {
            assert(esc(t2) =~= Seq::<char>::empty());
            assert(s[i] == '"') by {
                assert(s.subrange(i, i + (esc(t2) + seq!['"']).len() as int)[0] == '"');
            }
            assert(false);
        }
        lemma_esc_cons(t2);
        assert(s[i] == esc_char(t2[0])[0]) by {
            assert(s.subrange(i, i + (esc(t2) + seq!['"']).len() as int)[0] == (esc(t2)
                + seq!['"'])[0]);
        }
        if t1[0] == '"' || t1[0] == '\\' {
            assert(s[i] == '\\');
            assert(t2[0] == '"' || t2[0] == '\\');
            assert(s[i + 1] == t1[0]) by {
                assert((esc(t1) + seq!['"'])[1] == t1[0]);
                assert(s.subrange(i, i + (esc(t1) + seq!['"']).len() as int)[1] == (esc(t1)
                    + seq!['"'])[1]);
            }
            assert(s[i + 1] == t2[0]) by {
                assert((esc(t2) + seq!['"'])[1] == t2[0]);
                assert(s.subrange(i, i + (esc(t2) + seq!['"']).len() as int)[1] == (esc(t2)
                    + seq!['"'])[1]);
            }
            assert((esc(t1) + seq!['"']) =~= seq!['\\', t1[0]] + (esc(t1.drop_first())
                + seq!['"']));
            assert((esc(t2) + seq!['"']) =~= seq!['\\', t2[0]] + (esc(t2.drop_first())
                + seq!['"']));
            lemma_at_split(s, i, seq!['\\', t1[0]], esc(t1.drop_first()) + seq!['"']);
            lemma_at_split(s, i, seq!['\\', t2[0]], esc(t2.drop_first()) + seq!['"']);
            lemma_esc_unamb(s, i + 2, t1.drop_first(), t2.drop_first());
            assert(t1 =~= seq![t1[0]] + t1.drop_first());
            assert(t2 =~= seq![t2[0]] + t2.drop_first());
        } else {
            assert(s[i] == t1[0]);
            if t2[0] == '"' || t2[0] == '\\' {
                assert(s[i] == '\\');
                assert(false);
            }
            assert(s[i] == t2[0]);
            assert((esc(t1) + seq!['"']) =~= seq![t1[0]] + (esc(t1.drop_first()) + seq!['"']));
            assert((esc(t2) + seq!['"']) =~= seq![t2[0]] + (esc(t2.drop_first()) + seq!['"']));
            lemma_at_split(s, i, seq![t1[0]], esc(t1.drop_first()) + seq!['"']);
            lemma_at_split(s, i, seq![t2[0]], esc(t2.drop_first()) + seq!['"']);
            lemma_esc_unamb(s, i + 1, t1.drop_first(), t2.drop_first());
            assert(t1 =~= seq![t1[0]] + t1.drop_first());
            assert(t2 =~= seq![t2[0]] + t2.drop_first());
        }
    }
}

/// Escaping leaves plain text unchanged.
pub proof fn lemma_esc_plain(s: Seq<char>)
    requires
        plain_text(s),
    ensures
        esc(s) == s,
    decreases s.len(),
{
    if s.len() == 0 {
        assert(esc(s) =~= s);
    } else {
        assert(plain_text(s.drop_last())) by {
            assert(forall|i: int|
                0 <= i < s.drop_last().len() ==> #[trigger] s.drop_last()[i] == s[i]);
        }
        lemma_esc_plain(s.drop_last());
        assert(plain_char(s.last()));
        assert(esc_char(s.last()) =~= seq![s.last()]);
        assert(esc(s) =~= s.drop_last().push(s.last()));
        assert(s.drop_last().push(s.last()) =~= s);
    }
}

/// Splitting a word that stands in `s` into its two halves.
pub proof fn lemma_at_split(s: Seq<char>, i: int, a: Seq<char>, b: Seq<char>)
    ensures
        at(s, i, a + b) <==> (at(s, i, a) && at(s, i + a.len(), b)),
{
    if at(s, i, a + b) {
        assert(s.subrange(i, i + a.len()) =~= a) by {
            assert(forall|k: int|
                0 <= k < a.len() ==> s.subrange(i, i + (a + b).len() as int)[k] == (a + b)[k]);
        }
        assert forall|k: int| 0 <= k < b.len() implies s.subrange(
            i + a.len(),
            i + a.len() + b.len() as int,
        )[k] == b[k] by {
            assert(s[i + a.len() + k] == s.subrange(i, i + (a + b).len() as int)[a.len() + k]);
            assert((a + b)[a.len() + k] == b[k]);
        }
        assert(s.subrange(i + a.len(), i + a.len() + b.len() as int) =~= b);
    }
    if at(s, i, a) && at(s, i + a.len(), b) {
        assert(s.subrange(i, i + (a + b).len() as int) =~= a + b) by {
            assert(forall|k: int|
                0 <= k < a.len() ==> s.subrange(i, i + a.len() as int)[k] == a[k]);
            assert(forall|k: int|
                0 <= k < b.len() ==> s.subrange(
                    i + a.len(),
                    i + a.len() + b.len() as int,
                )[k] == b[k]);
        }
    }
}

/// Two runs of characters from one class, each stopped by a character
/// outside the class (or the end of the text), cover the same span.
pub proof fn lemma_run_unique(
    p: spec_fn(char) -> bool,
    s: Seq<char>,
    i: int,
    a: Seq<char>,
    b: Seq<char>,
)
    requires
        at(s, i, a),
        at(s, i, b),
        forall|k: int| 0 <= k < a.len() ==> p(#[trigger] a[k]),
        forall|k: int| 0 <= k < b.len() ==> p(#[trigger] b[k]),
        i + a.len() == s.len() || !p(s[i + a.len()]),
        i + b.len() == s.len() || !p(s[i + b.len()]),
    ensures
        a == b,
{
    if a.len() < b.len() {
        assert(s[i + a.len()] == b[a.len() as int]);
        assert(p(b[a.len() as int]));
        assert(false);
    }
    if b.len() < a.len() {
        assert(s[i + b.len()] == a[b.len() as int]);
        assert(false);
    }
    assert(a =~= b) by {
        assert(forall|k: int| 0 <= k < a.len() ==> a[k] == s[i + k] && b[k] == s[i + k]);
    }
}

/// Facts about the decimal form of a number: non-empty, all digits, no
/// leading zero, and it denotes the number itself.
pub proof fn lemma_dec_digits(n: nat)
    ensures
        dec_digits(n).len() >= 1,
        forall|i: int| 0 <= i < dec_digits(n).len() ==> is_digit(#[trigger] dec_digits(n)[i]),
        dec_digits(n).len() > 1 ==> dec_digits(n)[0] != '0',
        digits_val(dec_digits(n)) == n,
        n < 10 <==> dec_digits(n).len() == 1,
    decreases n,
{
    if n < 10 {
        assert(digits_val(dec_digits(n)) == digits_val(
            dec_digits(n).drop_last(),
        ) * 10 + digit_val(digit_char(n)));
        assert(dec_digits(n).drop_last() =~= Seq::<char>::empty());
    } else {
        lemma_dec_digits(n / 10);
        let s = dec_digits(n / 10).push(digit_char(n % 10));
        assert(s.drop_last() =~= dec_digits(n / 10));
        assert(s.last() == digit_char(n % 10));
        assert(digits_val(s) == (n / 10) * 10 + (n % 10));
        assert((n / 10) * 10 + (n % 10) == n) by (nonlinear_arith);
        assert(s[0] == dec_digits(n / 10)[0]);
        assert(dec_digits(n / 10).len() > 1 ==> dec_digits(n / 10)[0] != '0');
        assert(n / 10 >= 1);
        assert(dec_digits(n / 10)[0] != '0');
    }
}

/// A digit sequence without a leading zero denotes a positive number.
proof fn lemma_digits_val_pos(s: Seq<char>)
    requires
        s.len() >= 1,
        forall|i: int| 0 <= i < s.len() ==> is_digit(#[trigger] s[i]),
        s[0] != '0',
    ensures
        digits_val(s) >= 1,
    decreases s.len(),
{
    if s.len() == 1 {
        assert(s.drop_last() =~= Seq::<char>::empty());
        assert(digits_val(s) == digit_val(s[0]));
    } else {
        assert(s.drop_last()[0] == s[0]);
        lemma_digits_val_pos(s.drop_last());
        assert(digit_val(s.last()) >= 0);
        assert(digits_val(s.drop_last()) * 10 >= 10) by (nonlinear_arith)
            requires
                digits_val(s.drop_last()) >= 1,
        ;
    }
}

/// The number a digit sequence denotes is non-negative.
pub proof fn lemma_digits_val_nonneg(s: Seq<char>)
    requires
        forall|i: int| 0 <= i < s.len() ==> is_digit(#[trigger] s[i]),
    ensures
        digits_val(s) >= 0,
    decreases s.len(),
{
    if s.len() > 0 {
        lemma_digits_val_nonneg(s.drop_last());
        assert(digits_val(s.drop_last()) * 10 >= 0) by (nonlinear_arith)
            requires
                digits_val(s.drop_last()) >= 0,
        ;
    }
}

/// A digit prefix denotes no more than the whole sequence.
pub proof fn lemma_digits_val_prefix(s: Seq<char>, i: int)
    requires
        forall|k: int| 0 <= k < s.len() ==> is_digit(#[trigger] s[k]),
        0 <= i <= s.len(),
    ensures
        digits_val(s.subrange(0, i)) <= digits_val(s),
    decreases s.len() - i,
{
    if i == s.len() {
        assert(s.subrange(0, i) =~= s);
    } else {
        let a = s.subrange(0, i);
        let b = s.subrange(0, i + 1);
        assert(b.drop_last() =~= a);
        lemma_digits_val_nonneg(a);
        assert(digit_val(b.last()) >= 0);
        assert(digits_val(a) * 10 >= digits_val(a)) by (nonlinear_arith)
            requires
                digits_val(a) >= 0,
        ;
        lemma_digits_val_prefix(s, i + 1);
    }
}

/// Decimal representations are unique: a digit sequence without a leading
/// zero that denotes `n` is `dec_digits(n)`.
pub proof fn lemma_digits_unique(s: Seq<char>, n: nat)
    requires
        s.len() >= 1,
        forall|i: int| 0 <= i < s.len() ==> is_digit(#[trigger] s[i]),
        s.len() > 1 ==> s[0] != '0',
        digits_val(s) == n,
    ensures
        s == dec_digits(n),
    decreases s.len(),
{
    if s.len() == 1 {
        assert(s.drop_last() =~= Seq::<char>::empty());
        assert(digits_val(Seq::<char>::empty()) == 0);
        assert(digits_val(s) == digits_val(s.drop_last()) * 10 + digit_val(s.last()));
        assert(n == digit_val(s[0]));
        assert(n < 10);
        assert(s =~= seq![digit_char(n)]);
    } else {
        let q = s.drop_last();
        assert(q[0] == s[0]);
        lemma_digits_val_pos(q);
        let d = digit_val(s.last());
        assert(0 <= d < 10);
        lemma_fundamental_div_mod_converse(n as int, 10, digits_val(q), d);
        assert(n / 10 == digits_val(q));
        assert(n % 10 == d);
        assert(n >= 10) by (nonlinear_arith)
            requires
                digits_val(q) >= 1,
                d >= 0,
                n == digits_val(q) * 10 + d,
        ;
        lemma_digits_unique(q, (n / 10) as nat);
        assert(digit_char((n % 10) as nat) == s.last());
        assert(s =~= q.push(s.last()));
    }
}

/// Tag closure: the `type` tag of every column type the codec writes or
/// accepts is one of the six known names; no document with another tag is
/// the wire form of any column type.
pub proof fn lemma_tag_closure(m: DbTypeModel)
    ensures
        tag_of(m) == "Uuid"@ || tag_of(m) == "String"@ || tag_of(m) == "Int"@ || tag_of(m)
            == "Float"@ || tag_of(m) == "DateTime"@ || tag_of(m) == "Boolean"@,
{
}

/// Payload mismatch: the payload-free variants' wire form ends right after
/// the tag, so a document that carries constraint fields behind a `Uuid` or
/// `Boolean` tag is the wire form of no column type and is refused.
pub proof fn lemma_payload_free(m: DbTypeModel)
    ensures
        tag_of(m) == "Uuid"@ ==> enc_db_type(m) == "{\"type\":\"Uuid\"}"@,
        tag_of(m) == "Boolean"@ ==> enc_db_type(m) == "{\"type\":\"Boolean\"}"@,
{
    reveal_strlit("Uuid");
    reveal_strlit("String");
    reveal_strlit("Int");
    reveal_strlit("Float");
    reveal_strlit("DateTime");
    reveal_strlit("Boolean");
    reveal_strlit("{\"type\":\"");
    reveal_strlit("\"");
    reveal_strlit("}");
    reveal_strlit("{\"type\":\"Uuid\"}");
    reveal_strlit("{\"type\":\"Boolean\"}");
    if tag_of(m) == "Uuid"@ {
        assert(enc_db_type(m) =~= "{\"type\":\"Uuid\"}"@);
    }
    if tag_of(m) == "Boolean"@ {
        assert(enc_db_type(m) =~= "{\"type\":\"Boolean\"}"@);
    }
}

/// Bound ordering is not checked: length and range constraints are carried
/// as given, so a pair with its minimum above its maximum is as well-formed
/// as any other and decoding accepts its document unchanged.
pub proof fn lemma_bounds_not_compared(min_v: usize, max_v: usize)
    ensures
        wf_db_type(
            DbTypeModel::Text {
                min_length: Option::Some(min_v),
                max_length: Option::Some(max_v),
            },
        ),
        wf_db_type(
            DbTypeModel::Int { min_range: Option::Some(min_v), max_range: Option::Some(max_v) },
        ),
{
}


/// Two quoted strings standing at one position are the same string.
proof fn lemma_enc_string_inj(s: Seq<char>, i: int, t1: Seq<char>, t2: Seq<char>)
    requires
        at(s, i, enc_string(t1)),
        at(s, i, enc_string(t2)),
    ensures
        t1 == t2,
{
    assert(enc_string(t1) =~= seq!['"'] + (esc(t1) + seq!['"']));
    assert(enc_string(t2) =~= seq!['"'] + (esc(t2) + seq!['"']));
    lemma_at_split(s, i, seq!['"'], esc(t1) + seq!['"']);
    lemma_at_split(s, i, seq!['"'], esc(t2) + seq!['"']);
    lemma_esc_unamb(s, i + 1, t1, t2);
}

/// Two optional decimal numbers standing at one position, each followed by a
/// non-digit, are the same option.
proof fn lemma_enc_opt_usize_inj(s: Seq<char>, i: int, a: Option<usize>, b: Option<usize>)
    requires
        at(s, i, enc_opt_usize(a)),
        at(s, i, enc_opt_usize(b)),
        i + enc_opt_usize(a).len() == s.len() || !is_digit(s[i + enc_opt_usize(a).len()]),
        i + enc_opt_usize(b).len() == s.len() || !is_digit(s[i + enc_opt_usize(b).len()]),
    ensures
        a == b,
{
    reveal_strlit("null");
    let dig = |c: char| is_digit(c);
    match (a, b) {
        (Option::None, Option::None) => {},
        (Option::Some(n1), Option::Some(n2)) => {
            lemma_dec_digits(n1 as nat);
            lemma_dec_digits(n2 as nat);
            lemma_run_unique(dig, s, i, dec_digits(n1 as nat), dec_digits(n2 as nat));
            assert(digits_val(dec_digits(n1 as nat)) == digits_val(dec_digits(n2 as nat)));
        },
        (Option::None, Option::Some(n2)) => {
            lemma_dec_digits(n2 as nat);
            assert(s[i] == "null"@[0]) by {
                assert(s.subrange(i, i + 4)[0] == "null"@[0]);
            }
            assert(s[i] == dec_digits(n2 as nat)[0]) by {
                assert(s.subrange(i, i + dec_digits(n2 as nat).len() as int)[0] == dec_digits(
                    n2 as nat,
                )[0]);
            }
        },
        (Option::Some(n1), Option::None) => {
            lemma_dec_digits(n1 as nat);
            assert(s[i] == "null"@[0]) by {
                assert(s.subrange(i, i + 4)[0] == "null"@[0]);
            }
            assert(s[i] == dec_digits(n1 as nat)[0]) by {
                assert(s.subrange(i, i + dec_digits(n1 as nat).len() as int)[0] == dec_digits(
                    n1 as nat,
                )[0]);
            }
        },
    }
}

/// Two optional number texts standing at one position, each followed by a
/// character no number contains, are the same option.
proof fn lemma_enc_opt_number_inj(
    s: Seq<char>,
    i: int,
    a: Option<Seq<char>>,
    b: Option<Seq<char>>,
)
    requires
        a matches Option::Some(u) ==> number_text(u),
        b matches Option::Some(u) ==> number_text(u),
        at(s, i, enc_opt_number(a)),
        at(s, i, enc_opt_number(b)),
        i + enc_opt_number(a).len() == s.len() || !number_char(s[i + enc_opt_number(a).len()]),
        i + enc_opt_number(b).len() == s.len() || !number_char(s[i + enc_opt_number(b).len()]),
    ensures
        a == b,
{
    reveal_strlit("null");
    let numc = |c: char| number_char(c);
    match (a, b) {
        (Option::None, Option::None) => {},
        (Option::Some(u1), Option::Some(u2)) => {
            lemma_number_text_chars(u1);
            lemma_number_text_chars(u2);
            lemma_run_unique(numc, s, i, u1, u2);
        },
        (Option::None, Option::Some(u2)) => {
            lemma_number_text_chars(u2);
            assert(s[i] == "null"@[0]) by {
                assert(s.subrange(i, i + 4)[0] == "null"@[0]);
            }
            assert(s[i] == u2[0]) by {
                assert(s.subrange(i, i + u2.len() as int)[0] == u2[0]);
            }
        },
        (Option::Some(u1), Option::None) => {
            lemma_number_text_chars(u1);
            assert(s[i] == "null"@[0]) by {
                assert(s.subrange(i, i + 4)[0] == "null"@[0]);
            }
            assert(s[i] == u1[0]) by {
                assert(s.subrange(i, i + u1.len() as int)[0] == u1[0]);
            }
        },
    }
}

/// Two optional quoted timestamps standing at one position are the same
/// option.
proof fn lemma_enc_opt_timestamp_inj(
    s: Seq<char>,
    i: int,
    a: Option<Seq<char>>,
    b: Option<Seq<char>>,
)
    requires
        at(s, i, enc_opt_timestamp(a)),
        at(s, i, enc_opt_timestamp(b)),
    ensures
        a == b,
{
    reveal_strlit("null");
    match (a, b) {
        (Option::None, Option::None) => {},
        (Option::Some(u1), Option::Some(u2)) => {
            lemma_enc_string_inj(s, i, u1, u2);
        },
        (Option::None, Option::Some(u2)) => {
            assert(s[i] == "null"@[0]) by {
                assert(s.subrange(i, i + 4)[0] == "null"@[0]);
            }
            assert(s[i] == enc_string(u2)[0]) by {
                assert(s.subrange(i, i + enc_string(u2).len() as int)[0] == enc_string(u2)[0]);
            }
        },
        (Option::Some(u1), Option::None) => {
            assert(s[i] == "null"@[0]) by {
                assert(s.subrange(i, i + 4)[0] == "null"@[0]);
            }
            assert(s[i] == enc_string(u1)[0]) by {
                assert(s.subrange(i, i + enc_string(u1).len() as int)[0] == enc_string(u1)[0]);
            }
        },
    }
}

/// Two boolean words standing at one position are the same boolean.
proof fn lemma_enc_bool_inj(s: Seq<char>, i: int, a: bool, b: bool)
    requires
        at(s, i, enc_bool(a)),
        at(s, i, enc_bool(b)),
    ensures
        a == b,
{
    reveal_strlit("true");
    reveal_strlit("false");
    if a != b {
        assert(s[i] == enc_bool(a)[0]) by {
            assert(s.subrange(i, i + enc_bool(a).len() as int)[0] == enc_bool(a)[0]);
        }
        assert(s[i] == enc_bool(b)[0]) by {
            assert(s.subrange(i, i + enc_bool(b).len() as int)[0] == enc_bool(b)[0]);
        }
    }
}


/// Two pairs of optional decimal numbers under the same keys, standing at
/// one position, are the same pairs.
proof fn lemma_pair_usize_inj(
    s: Seq<char>,
    i: int,
    key1: Seq<char>,
    key2: Seq<char>,
    a1: Option<usize>,
    b1: Option<usize>,
    a2: Option<usize>,
    b2: Option<usize>,
)
    requires
        key2.len() > 0,
        !is_digit(key2[0]),
        at(s, i, key1 + enc_opt_usize(a1) + key2 + enc_opt_usize(b1) + "}"@),
        at(s, i, key1 + enc_opt_usize(a2) + key2 + enc_opt_usize(b2) + "}"@),
    ensures
        a1 == a2,
        b1 == b2,
{
    reveal_strlit("}");
    let ea1 = enc_opt_usize(a1);
    let eb1 = enc_opt_usize(b1);
    let ea2 = enc_opt_usize(a2);
    let eb2 = enc_opt_usize(b2);
    lemma_at_split(s, i, key1 + ea1 + key2 + eb1, "}"@);
    lemma_at_split(s, i, key1 + ea1 + key2, eb1);
    lemma_at_split(s, i, key1 + ea1, key2);
    lemma_at_split(s, i, key1, ea1);
    lemma_at_split(s, i, key1 + ea2 + key2 + eb2, "}"@);
    lemma_at_split(s, i, key1 + ea2 + key2, eb2);
    lemma_at_split(s, i, key1 + ea2, key2);
    lemma_at_split(s, i, key1, ea2);
    let j = i + key1.len();
    assert(s[j + ea1.len()] == key2[0]) by {
        assert(s.subrange(j + ea1.len(), j + ea1.len() + key2.len() as int)[0] == key2[0]);
    }
    assert(s[j + ea2.len()] == key2[0]) by {
        assert(s.subrange(j + ea2.len(), j + ea2.len() + key2.len() as int)[0] == key2[0]);
    }
    lemma_enc_opt_usize_inj(s, j, a1, a2);
    let k = j + ea1.len() + key2.len();
    assert(s[k + eb1.len()] == '}') by {
        assert(s.subrange(k + eb1.len(), k + eb1.len() + 1)[0] == "}"@[0]);
    }
    assert(s[k + eb2.len()] == '}') by {
        assert(s.subrange(k + eb2.len(), k + eb2.len() + 1)[0] == "}"@[0]);
    }
    lemma_enc_opt_usize_inj(s, k, b1, b2);
}

/// As `lemma_pair_usize_inj`, for optional number texts.
proof fn lemma_pair_number_inj(
    s: Seq<char>,
    i: int,
    key1: Seq<char>,
    key2: Seq<char>,
    a1: Option<Seq<char>>,
    b1: Option<Seq<char>>,
    a2: Option<Seq<char>>,
    b2: Option<Seq<char>>,
)
    requires
        key2.len() > 0,
        !number_char(key2[0]),
        a1 matches Option::Some(u) ==> number_text(u),
        b1 matches Option::Some(u) ==> number_text(u),
        a2 matches Option::Some(u) ==> number_text(u),
        b2 matches Option::Some(u) ==> number_text(u),
        at(s, i, key1 + enc_opt_number(a1) + key2 + enc_opt_number(b1) + "}"@),
        at(s, i, key1 + enc_opt_number(a2) + key2 + enc_opt_number(b2) + "}"@),
    ensures
        a1 == a2,
        b1 == b2,
{
    reveal_strlit("}");
    let ea1 = enc_opt_number(a1);
    let eb1 = enc_opt_number(b1);
    let ea2 = enc_opt_number(a2);
    let eb2 = enc_opt_number(b2);
    lemma_at_split(s, i, key1 + ea1 + key2 + eb1, "}"@);
    lemma_at_split(s, i, key1 + ea1 + key2, eb1);
    lemma_at_split(s, i, key1 + ea1, key2);
    lemma_at_split(s, i, key1, ea1);
    lemma_at_split(s, i, key1 + ea2 + key2 + eb2, "}"@);
    lemma_at_split(s, i, key1 + ea2 + key2, eb2);
    lemma_at_split(s, i, key1 + ea2, key2);
    lemma_at_split(s, i, key1, ea2);
    let j = i + key1.len();
    assert(s[j + ea1.len()] == key2[0]) by {
        assert(s.subrange(j + ea1.len(), j + ea1.len() + key2.len() as int)[0] == key2[0]);
    }
    assert(s[j + ea2.len()] == key2[0]) by {
        assert(s.subrange(j + ea2.len(), j + ea2.len() + key2.len() as int)[0] == key2[0]);
    }
    lemma_enc_opt_number_inj(s, j, a1, a2);
    let k = j + ea1.len() + key2.len();
    assert(s[k + eb1.len()] == '}') by {
        assert(s.subrange(k + eb1.len(), k + eb1.len() + 1)[0] == "}"@[0]);
    }
    assert(s[k + eb2.len()] == '}') by {
        assert(s.subrange(k + eb2.len(), k + eb2.len() + 1)[0] == "}"@[0]);
    }
    lemma_enc_opt_number_inj(s, k, b1, b2);
}

/// As `lemma_pair_usize_inj`, for optional quoted timestamps.
proof fn lemma_pair_timestamp_inj(
    s: Seq<char>,
    i: int,
    key1: Seq<char>,
    key2: Seq<char>,
    a1: Option<Seq<char>>,
    b1: Option<Seq<char>>,
    a2: Option<Seq<char>>,
    b2: Option<Seq<char>>,
)
    requires
        at(s, i, key1 + enc_opt_timestamp(a1) + key2 + enc_opt_timestamp(b1) + "}"@),
        at(s, i, key1 + enc_opt_timestamp(a2) + key2 + enc_opt_timestamp(b2) + "}"@),
    ensures
        a1 == a2,
        b1 == b2,
{
    let ea1 = enc_opt_timestamp(a1);
    let eb1 = enc_opt_timestamp(b1);
    let ea2 = enc_opt_timestamp(a2);
    let eb2 = enc_opt_timestamp(b2);
    lemma_at_split(s, i, key1 + ea1 + key2 + eb1, "}"@);
    lemma_at_split(s, i, key1 + ea1 + key2, eb1);
    lemma_at_split(s, i, key1 + ea1, key2);
    lemma_at_split(s, i, key1, ea1);
    lemma_at_split(s, i, key1 + ea2 + key2 + eb2, "}"@);
    lemma_at_split(s, i, key1 + ea2 + key2, eb2);
    lemma_at_split(s, i, key1 + ea2, key2);
    lemma_at_split(s, i, key1, ea2);
    let j = i + key1.len();
    lemma_enc_opt_timestamp_inj(s, j, a1, a2);
    let k = j + ea1.len() + key2.len();
    lemma_enc_opt_timestamp_inj(s, k, b1, b2);
}

/// Two column type documents standing at one position describe the same
/// column type.
proof fn lemma_enc_db_type_inj(s: Seq<char>, i: int, m1: DbTypeModel, m2: DbTypeModel)
    requires
        wf_db_type(m1),
        wf_db_type(m2),
        at(s, i, enc_db_type(m1)),
        at(s, i, enc_db_type(m2)),
    ensures
        m1 == m2,
{
    let p = |c: char| plain_char(c);
    reveal_strlit("{\"type\":\"");
    reveal_strlit("\"");
    reveal_strlit("Uuid");
    reveal_strlit("String");
    reveal_strlit("Int");
    reveal_strlit("Float");
    reveal_strlit("DateTime");
    reveal_strlit("Boolean");
    assert(plain_text("Uuid"@));
    assert(plain_text("String"@));
    assert(plain_text("Int"@));
    assert(plain_text("Float"@));
    assert(plain_text("DateTime"@));
    assert(plain_text("Boolean"@));
    assert("\""@ =~= seq!['"']);
    let a = "{\"type\":\""@;
    let t1 = tag_of(m1);
    let t2 = tag_of(m2);
    assert(enc_db_type(m1) =~= a + ((t1 + seq!['"']) + db_payload(m1)));
    assert(enc_db_type(m2) =~= a + ((t2 + seq!['"']) + db_payload(m2)));
    lemma_at_split(s, i, a, (t1 + seq!['"']) + db_payload(m1));
    lemma_at_split(s, i + a.len(), t1 + seq!['"'], db_payload(m1));
    lemma_at_split(s, i + a.len(), t1, seq!['"']);
    lemma_at_split(s, i, a, (t2 + seq!['"']) + db_payload(m2));
    lemma_at_split(s, i + a.len(), t2 + seq!['"'], db_payload(m2));
    lemma_at_split(s, i + a.len(), t2, seq!['"']);
    assert(s[i + a.len() + t1.len()] == '"') by {
        assert(s.subrange(i + a.len() + t1.len(), i + a.len() + t1.len() + 1)[0] == '"');
    }
    assert(s[i + a.len() + t2.len()] == '"') by {
        assert(s.subrange(i + a.len() + t2.len(), i + a.len() + t2.len() + 1)[0] == '"');
    }
    lemma_run_unique(p, s, i + a.len(), t1, t2);
    let q = i + a.len() + t1.len() + 1;
    match (m1, m2) {
        (DbTypeModel::Uuid, DbTypeModel::Uuid) => {},
        (DbTypeModel::Boolean, DbTypeModel::Boolean) => {},
        (
            DbTypeModel::Text { min_length: x1, max_length: y1 },
            DbTypeModel::Text { min_length: x2, max_length: y2 },
        ) => {
            reveal_strlit(",\"max_length\":");
            lemma_pair_usize_inj(s, q, ",\"min_length\":"@, ",\"max_length\":"@, x1, y1, x2, y2);
        },
        (
            DbTypeModel::Int { min_range: x1, max_range: y1 },
            DbTypeModel::Int { min_range: x2, max_range: y2 },
        ) => {
            reveal_strlit(",\"max_range\":");
            lemma_pair_usize_inj(s, q, ",\"min_range\":"@, ",\"max_range\":"@, x1, y1, x2, y2);
        },
        (
            DbTypeModel::Float { min_range: x1, max_range: y1 },
            DbTypeModel::Float { min_range: x2, max_range: y2 },
        ) => {
            reveal_strlit(",\"max_range\":");
            lemma_pair_number_inj(s, q, ",\"min_range\":"@, ",\"max_range\":"@, x1, y1, x2, y2);
        },
        (
            DbTypeModel::DateTime { min_range: x1, max_range: y1 },
            DbTypeModel::DateTime { min_range: x2, max_range: y2 },
        ) => {
            lemma_pair_timestamp_inj(
                s,
                q,
                ",\"min_range\":"@,
                ",\"max_range\":"@,
                x1,
                y1,
                x2,
                y2,
            );
        },
        _ => {
            assert(false);
        },
    }
}


/// Two column documents standing at one position describe the same column.
proof fn lemma_enc_column_inj(s: Seq<char>, i: int, m1: ColumnModel, m2: ColumnModel)
    requires
        wf_column(m1),
        wf_column(m2),
        at(s, i, enc_column(m1)),
        at(s, i, enc_column(m2)),
    ensures
        m1 == m2,
{
    reveal_strlit("}");
    let a = "{\"name\":"@;
    let c = ",\"db_type\":"@;
    let e = ",\"is_nullable\":"@;
    let b1 = enc_string(m1.name);
    let d1 = enc_db_type(m1.db_type);
    let f1 = enc_bool(m1.is_nullable);
    let b2 = enc_string(m2.name);
    let d2 = enc_db_type(m2.db_type);
    let f2 = enc_bool(m2.is_nullable);
    lemma_at_split(s, i, a + b1 + c + d1 + e + f1, "}"@);
    lemma_at_split(s, i, a + b1 + c + d1 + e, f1);
    lemma_at_split(s, i, a + b1 + c + d1, e);
    lemma_at_split(s, i, a + b1 + c, d1);
    lemma_at_split(s, i, a + b1, c);
    lemma_at_split(s, i, a, b1);
    lemma_at_split(s, i, a + b2 + c + d2 + e + f2, "}"@);
    lemma_at_split(s, i, a + b2 + c + d2 + e, f2);
    lemma_at_split(s, i, a + b2 + c + d2, e);
    lemma_at_split(s, i, a + b2 + c, d2);
    lemma_at_split(s, i, a + b2, c);
    lemma_at_split(s, i, a, b2);
    lemma_enc_string_inj(s, i + a.len(), m1.name, m2.name);
    lemma_enc_db_type_inj(s, i + a.len() + b1.len() + c.len(), m1.db_type, m2.db_type);
    lemma_enc_bool_inj(
        s,
        i + a.len() + b1.len() + c.len() + d1.len() + e.len(),
        m1.is_nullable,
        m2.is_nullable,
    );
}

/// Two non-empty column list tails standing at one position are the same
/// list.
proof fn lemma_enc_columns_tail_inj(s: Seq<char>, i: int, ms1: Seq<ColumnModel>, ms2: Seq<
    ColumnModel,
>)
    requires
        ms1.len() >= 1,
        ms2.len() >= 1,
        forall|k: int| 0 <= k < ms1.len() ==> wf_column(#[trigger] ms1[k]),
        forall|k: int| 0 <= k < ms2.len() ==> wf_column(#[trigger] ms2[k]),
        at(s, i, enc_columns_tail(ms1)),
        at(s, i, enc_columns_tail(ms2)),
    ensures
        ms1 == ms2,
    decreases ms1.len(),
{
    reveal_strlit("]");
    reveal_strlit(",");
    if ms1.len() == 1 {
        lemma_at_split(s, i, enc_column(ms1[0]), "]"@);
    } else {
        assert(enc_columns_tail(ms1) == enc_column(ms1[0]) + ","@ + enc_columns_tail(
            ms1.drop_first(),
        ));
        lemma_at_split(s, i, enc_column(ms1[0]) + ","@, enc_columns_tail(ms1.drop_first()));
        lemma_at_split(s, i, enc_column(ms1[0]), ","@);
    }
    if ms2.len() == 1 {
        lemma_at_split(s, i, enc_column(ms2[0]), "]"@);
    } else {
        assert(enc_columns_tail(ms2) == enc_column(ms2[0]) + ","@ + enc_columns_tail(
            ms2.drop_first(),
        ));
        lemma_at_split(s, i, enc_column(ms2[0]) + ","@, enc_columns_tail(ms2.drop_first()));
        lemma_at_split(s, i, enc_column(ms2[0]), ","@);
    }
    lemma_enc_column_inj(s, i, ms1[0], ms2[0]);
    let j = i + enc_column(ms1[0]).len();
    if ms1.len() == 1 && ms2.len() == 1 {
        assert(ms1 =~= ms2);
    } else if ms1.len() == 1 {
        assert(s[j] == ']') by {
            assert(s.subrange(j, j + 1)[0] == "]"@[0]);
        }
        assert(s[j] == ',') by {
            assert(s.subrange(j, j + 1)[0] == ","@[0]);
        }
    } else if ms2.len() == 1 {
        assert(s[j] == ']') by {
            assert(s.subrange(j, j + 1)[0] == "]"@[0]);
        }
        assert(s[j] == ',') by {
            assert(s.subrange(j, j + 1)[0] == ","@[0]);
        }
    } else {
        assert(forall|k: int|
            0 <= k < ms1.drop_first().len() ==> wf_column(#[trigger] ms1.drop_first()[k]));
        assert(forall|k: int|
            0 <= k < ms2.drop_first().len() ==> wf_column(#[trigger] ms2.drop_first()[k]));
        lemma_enc_columns_tail_inj(s, j + 1, ms1.drop_first(), ms2.drop_first());
        assert(ms1 =~= ms2) by {
            assert(ms1 =~= seq![ms1[0]] + ms1.drop_first());
            assert(ms2 =~= seq![ms2[0]] + ms2.drop_first());
        }
    }
}

/// Two column list documents standing at one position are the same list.
proof fn lemma_enc_columns_inj(s: Seq<char>, i: int, ms1: Seq<ColumnModel>, ms2: Seq<ColumnModel>)
    requires
        forall|k: int| 0 <= k < ms1.len() ==> wf_column(#[trigger] ms1[k]),
        forall|k: int| 0 <= k < ms2.len() ==> wf_column(#[trigger] ms2[k]),
        at(s, i, enc_columns(ms1)),
        at(s, i, enc_columns(ms2)),
    ensures
        ms1 == ms2,
{
    reveal_strlit("[");
    reveal_strlit("]");
    reveal_strlit("[]");
    reveal_strlit("{\"name\":");
    assert("[]"@ =~= "["@ + "]"@);
    if ms1.len() == 0 && ms2.len() == 0 {
        assert(ms1 =~= ms2);
    } else if ms1.len() == 0 && ms2.len() >= 1 {
        lemma_at_split(s, i, "["@, "]"@);
        lemma_at_split(s, i, "["@, enc_columns_tail(ms2));
        assert(s[i + 1] == ']') by {
            assert(s.subrange(i + 1, i + 2)[0] == "]"@[0]);
        }
        if ms2.len() == 1 {
            lemma_at_split(s, i + 1, enc_column(ms2[0]), "]"@);
        } else {
            assert(enc_columns_tail(ms2) == enc_column(ms2[0]) + ","@ + enc_columns_tail(
                ms2.drop_first(),
            ));
            lemma_at_split(s, i + 1, enc_column(ms2[0]) + ","@, enc_columns_tail(
                ms2.drop_first(),
            ));
            lemma_at_split(s, i + 1, enc_column(ms2[0]), ","@);
        }
        assert(s[i + 1] == '{') by {
            assert(s.subrange(i + 1, i + 1 + enc_column(ms2[0]).len() as int)[0] == enc_column(
                ms2[0],
            )[0]);
        }
    } else if ms2.len() == 0 && ms1.len() >= 1 {
        lemma_at_split(s, i, "["@, "]"@);
        lemma_at_split(s, i, "["@, enc_columns_tail(ms1));
        assert(s[i + 1] == ']') by {
            assert(s.subrange(i + 1, i + 2)[0] == "]"@[0]);
        }
        if ms1.len() == 1 {
            lemma_at_split(s, i + 1, enc_column(ms1[0]), "]"@);
        } else {
            assert(enc_columns_tail(ms1) == enc_column(ms1[0]) + ","@ + enc_columns_tail(
                ms1.drop_first(),
            ));
            lemma_at_split(s, i + 1, enc_column(ms1[0]) + ","@, enc_columns_tail(
                ms1.drop_first(),
            ));
            lemma_at_split(s, i + 1, enc_column(ms1[0]), ","@);
        }
        assert(s[i + 1] == '{') by {
            assert(s.subrange(i + 1, i + 1 + enc_column(ms1[0]).len() as int)[0] == enc_column(
                ms1[0],
            )[0]);
        }
    } else {
        lemma_at_split(s, i, "["@, enc_columns_tail(ms1));
        lemma_at_split(s, i, "["@, enc_columns_tail(ms2));
        lemma_enc_columns_tail_inj(s, i + 1, ms1, ms2);
    }
}

/// Two table documents standing at one position describe the same table.
proof fn lemma_enc_table_inj(s: Seq<char>, i: int, m1: TableModel, m2: TableModel)
    requires
        wf_table(m1),
        wf_table(m2),
        at(s, i, enc_table(m1)),
        at(s, i, enc_table(m2)),
    ensures
        m1 == m2,
{
    reveal_strlit("}");
    let a = "{\"name\":"@;
    let c = ",\"columns\":"@;
    let b1 = enc_string(m1.name);
    let d1 = enc_columns(m1.columns);
    let b2 = enc_string(m2.name);
    let d2 = enc_columns(m2.columns);
    lemma_at_split(s, i, a + b1 + c + d1, "}"@);
    lemma_at_split(s, i, a + b1 + c, d1);
    lemma_at_split(s, i, a + b1, c);
    lemma_at_split(s, i, a, b1);
    lemma_at_split(s, i, a + b2 + c + d2, "}"@);
    lemma_at_split(s, i, a + b2 + c, d2);
    lemma_at_split(s, i, a + b2, c);
    lemma_at_split(s, i, a, b2);
    lemma_enc_string_inj(s, i + a.len(), m1.name, m2.name);
    lemma_enc_columns_inj(s, i + a.len() + b1.len() + c.len(), m1.columns, m2.columns);
}

/// Two non-empty table list tails standing at one position are the same
/// list.
proof fn lemma_enc_tables_tail_inj(s: Seq<char>, i: int, ms1: Seq<TableModel>, ms2: Seq<
    TableModel,
>)
    requires
        ms1.len() >= 1,
        ms2.len() >= 1,
        forall|k: int| 0 <= k < ms1.len() ==> wf_table(#[trigger] ms1[k]),
        forall|k: int| 0 <= k < ms2.len() ==> wf_table(#[trigger] ms2[k]),
        at(s, i, enc_tables_tail(ms1)),
        at(s, i, enc_tables_tail(ms2)),
    ensures
        ms1 == ms2,
    decreases ms1.len(),
{
    reveal_strlit("]");
    reveal_strlit(",");
    if ms1.len() == 1 {
        lemma_at_split(s, i, enc_table(ms1[0]), "]"@);
    } else {
        assert(enc_tables_tail(ms1) == enc_table(ms1[0]) + ","@ + enc_tables_tail(
            ms1.drop_first(),
        ));
        lemma_at_split(s, i, enc_table(ms1[0]) + ","@, enc_tables_tail(ms1.drop_first()));
        lemma_at_split(s, i, enc_table(ms1[0]), ","@);
    }
    if ms2.len() == 1 {
        lemma_at_split(s, i, enc_table(ms2[0]), "]"@);
    } else {
        assert(enc_tables_tail(ms2) == enc_table(ms2[0]) + ","@ + enc_tables_tail(
            ms2.drop_first(),
        ));
        lemma_at_split(s, i, enc_table(ms2[0]) + ","@, enc_tables_tail(ms2.drop_first()));
        lemma_at_split(s, i, enc_table(ms2[0]), ","@);
    }
    lemma_enc_table_inj(s, i, ms1[0], ms2[0]);
    let j = i + enc_table(ms1[0]).len();
    if ms1.len() == 1 && ms2.len() == 1 {
        assert(ms1 =~= ms2);
    } else if ms1.len() == 1 {
        assert(s[j] == ']') by {
            assert(s.subrange(j, j + 1)[0] == "]"@[0]);
        }
        assert(s[j] == ',') by {
            assert(s.subrange(j, j + 1)[0] == ","@[0]);
        }
    } else if ms2.len() == 1 {
        assert(s[j] == ']') by {
            assert(s.subrange(j, j + 1)[0] == "]"@[0]);
        }
        assert(s[j] == ',') by {
            assert(s.subrange(j, j + 1)[0] == ","@[0]);
        }
    } else {
        assert(forall|k: int|
            0 <= k < ms1.drop_first().len() ==> wf_table(#[trigger] ms1.drop_first()[k]));
        assert(forall|k: int|
            0 <= k < ms2.drop_first().len() ==> wf_table(#[trigger] ms2.drop_first()[k]));
        lemma_enc_tables_tail_inj(s, j + 1, ms1.drop_first(), ms2.drop_first());
        assert(ms1 =~= ms2) by {
            assert(ms1 =~= seq![ms1[0]] + ms1.drop_first());
            assert(ms2 =~= seq![ms2[0]] + ms2.drop_first());
        }
    }
}

/// Two table list documents standing at one position are the same list.
proof fn lemma_enc_tables_inj(s: Seq<char>, i: int, ms1: Seq<TableModel>, ms2: Seq<TableModel>)
    requires
        forall|k: int| 0 <= k < ms1.len() ==> wf_table(#[trigger] ms1[k]),
        forall|k: int| 0 <= k < ms2.len() ==> wf_table(#[trigger] ms2[k]),
        at(s, i, enc_tables(ms1)),
        at(s, i, enc_tables(ms2)),
    ensures
        ms1 == ms2,
{
    reveal_strlit("[");
    reveal_strlit("]");
    reveal_strlit("[]");
    reveal_strlit("{\"name\":");
    assert("[]"@ =~= "["@ + "]"@);
    if ms1.len() == 0 && ms2.len() == 0 {
        assert(ms1 =~= ms2);
    } else if ms1.len() == 0 && ms2.len() >= 1 {
        lemma_at_split(s, i, "["@, "]"@);
        lemma_at_split(s, i, "["@, enc_tables_tail(ms2));
        assert(s[i + 1] == ']') by {
            assert(s.subrange(i + 1, i + 2)[0] == "]"@[0]);
        }
        if ms2.len() == 1 {
            lemma_at_split(s, i + 1, enc_table(ms2[0]), "]"@);
        } else {
            assert(enc_tables_tail(ms2) == enc_table(ms2[0]) + ","@ + enc_tables_tail(
                ms2.drop_first(),
            ));
            lemma_at_split(s, i + 1, enc_table(ms2[0]) + ","@, enc_tables_tail(ms2.drop_first()));
            lemma_at_split(s, i + 1, enc_table(ms2[0]), ","@);
        }
        assert(s[i + 1] == '{') by {
            assert(s.subrange(i + 1, i + 1 + enc_table(ms2[0]).len() as int)[0] == enc_table(
                ms2[0],
            )[0]);
        }
    } else if ms2.len() == 0 && ms1.len() >= 1 {
        lemma_at_split(s, i, "["@, "]"@);
        lemma_at_split(s, i, "["@, enc_tables_tail(ms1));
        assert(s[i + 1] == ']') by {
            assert(s.subrange(i + 1, i + 2)[0] == "]"@[0]);
        }
        if ms1.len() == 1 {
            lemma_at_split(s, i + 1, enc_table(ms1[0]), "]"@);
        } else {
            assert(enc_tables_tail(ms1) == enc_table(ms1[0]) + ","@ + enc_tables_tail(
                ms1.drop_first(),
            ));
            lemma_at_split(s, i + 1, enc_table(ms1[0]) + ","@, enc_tables_tail(ms1.drop_first()));
            lemma_at_split(s, i + 1, enc_table(ms1[0]), ","@);
        }
        assert(s[i + 1] == '{') by {
            assert(s.subrange(i + 1, i + 1 + enc_table(ms1[0]).len() as int)[0] == enc_table(
                ms1[0],
            )[0]);
        }
    } else {
        lemma_at_split(s, i, "["@, enc_tables_tail(ms1));
        lemma_at_split(s, i, "["@, enc_tables_tail(ms2));
        lemma_enc_tables_tail_inj(s, i + 1, ms1, ms2);
    }
}

/// Wire documents identify declarations: two well-formed declarations with
/// the same document are the same declaration.
pub proof fn lemma_encode_injective(d1: DeclModel, d2: DeclModel)
    requires
        wf_decl(d1),
        wf_decl(d2),
        enc_decl(d1) == enc_decl(d2),
    ensures
        d1 == d2,
{
    reveal_strlit("}");
    let s = enc_decl(d1);
    assert(at(s, 0, enc_decl(d1))) by {
        assert(s.subrange(0, s.len() as int) =~= s);
    }
    assert(at(s, 0, enc_decl(d2)));
    let a = "{\"name\":"@;
    let c = ",\"db_name\":"@;
    let e = ",\"tables\":"@;
    let b1 = enc_string(d1.name);
    let dd1 = enc_string(d1.db_name);
    let f1 = enc_tables(d1.tables);
    let b2 = enc_string(d2.name);
    let dd2 = enc_string(d2.db_name);
    let f2 = enc_tables(d2.tables);
    lemma_at_split(s, 0, a + b1 + c + dd1 + e + f1, "}"@);
    lemma_at_split(s, 0, a + b1 + c + dd1 + e, f1);
    lemma_at_split(s, 0, a + b1 + c + dd1, e);
    lemma_at_split(s, 0, a + b1 + c, dd1);
    lemma_at_split(s, 0, a + b1, c);
    lemma_at_split(s, 0, a, b1);
    lemma_at_split(s, 0, a + b2 + c + dd2 + e + f2, "}"@);
    lemma_at_split(s, 0, a + b2 + c + dd2 + e, f2);
    lemma_at_split(s, 0, a + b2 + c + dd2, e);
    lemma_at_split(s, 0, a + b2 + c, dd2);
    lemma_at_split(s, 0, a + b2, c);
    lemma_at_split(s, 0, a, b2);
    lemma_enc_string_inj(s, a.len() as int, d1.name, d2.name);
    lemma_enc_string_inj(s, (a.len() + b1.len() + c.len()) as int, d1.db_name, d2.db_name);
    lemma_enc_tables_inj(
        s,
        (a.len() + b1.len() + c.len() + dd1.len() + e.len()) as int,
        d1.tables,
        d2.tables,
    );
}

/// The declaration a wire document stands for, if any: the well-formed
/// model whose encoding it is.
pub open spec fn wire_decl(s: Seq<char>) -> Option<DeclModel> {
    if exists|m: DeclModel| wf_decl(m) && enc_decl(m) == s {
        Option::Some(choose|m: DeclModel| wf_decl(m) && enc_decl(m) == s)
    } else {
        Option::None
    }
}

/// Round-trip law: the document written for a well-formed declaration
/// stands for that declaration and no other, so decoding the encoding gives
/// the declaration back. `wf_decl` asks only that float bounds are JSON
/// numbers and timestamp bounds have the RFC 3339 shape; names are
/// arbitrary.
pub proof fn lemma_round_trip(d: DeclModel)
    requires
        wf_decl(d),
    ensures
        wire_decl(enc_decl(d)) == Option::<DeclModel>::Some(d),
{
    assert(wf_decl(d) && enc_decl(d) == enc_decl(d));
    let m = choose|m: DeclModel| wf_decl(m) && enc_decl(m) == enc_decl(d);
    lemma_encode_injective(m, d);
}

fn digit_to_char(r: usize) -> (c: char)
    requires
        r < 10,
    ensures
        c == digit_char(r as nat),
{
    if r == 0 {
        '0'
    } else if r == 1 {
        '1'
    } else if r == 2 {
        '2'
    } else if r == 3 {
        '3'
    } else if r == 4 {
        '4'
    } else if r == 5 {
        '5'
    } else if r == 6 {
        '6'
    } else if r == 7 {
        '7'
    } else if r == 8 {
        '8'
    } else {
        '9'
    }
}

pub(crate) fn emit_lit(out: &mut Vec<char>, lit: &str)
    ensures
        final(out)@ == old(out)@ + lit@,
{
    let n = lit.unicode_len();
    let mut j: usize = 0;
    while j < n
        invariant
            n == lit@.len(),
            j <= n,
            out@ == old(out)@ + lit@.subrange(0, j as int),
        decreases n - j,
    {
        out.push(lit.get_char(j));
        j = j + 1;
        proof {
            assert(out@ =~= old(out)@ + lit@.subrange(0, j as int));
        }
    }
    proof {
        assert(lit@.subrange(0, n as int) =~= lit@);
    }
}

fn emit_usize(out: &mut Vec<char>, n: usize)
    ensures
        final(out)@ == old(out)@ + dec_digits(n as nat),
    decreases n,
{
    if n < 10 {
        out.push(digit_to_char(n));
        proof {
            assert(out@ =~= old(out)@ + dec_digits(n as nat));
        }
    } else {
        emit_usize(out, n / 10);
        out.push(digit_to_char(n % 10));
        proof {
            assert(out@ =~= old(out)@ + dec_digits(n as nat));
        }
    }
}

pub(crate) fn emit_string(out: &mut Vec<char>, s: &str)
    ensures
        final(out)@ == old(out)@ + enc_string(s@),
{
    out.push('"');
    let n = s.unicode_len();
    let mut i: usize = 0;
    proof {
        assert(esc(s@.subrange(0, 0)) =~= Seq::<char>::empty());
        assert(out@ =~= old(out)@ + seq!['"'] + esc(s@.subrange(0, 0)));
    }
    while i < n
        invariant
            n == s@.len(),
            i <= n,
            out@ == old(out)@ + seq!['"'] + esc(s@.subrange(0, i as int)),
        decreases n - i,
    {
        let c = s.get_char(i);
        if c == '"' || c == '\\' {
            out.push('\\');
        }
        out.push(c);
        proof {
            let t = s@.subrange(0, i + 1);
            assert(t.drop_last() =~= s@.subrange(0, i as int));
            assert(t.last() == s@[i as int]);
            assert(esc(t) == esc(s@.subrange(0, i as int)) + esc_char(s@[i as int]));
            assert(out@ =~= old(out)@ + seq!['"'] + esc(t));
        }
        i = i + 1;
    }
    out.push('"');
    proof {
        assert(s@.subrange(0, n as int) =~= s@);
        assert(out@ =~= old(out)@ + enc_string(s@));
    }
}

fn emit_opt_usize(out: &mut Vec<char>, o: &Option<usize>)
    ensures
        final(out)@ == old(out)@ + enc_opt_usize(*o),
{
    match o {
        Option::None => emit_lit(out, "null"),
        Option::Some(n) => emit_usize(out, *n),
    }
}

fn emit_opt_number(out: &mut Vec<char>, o: &Option<NumberText>)
    ensures
        final(out)@ == old(out)@ + enc_opt_number(opt_number_view(*o)),
{
    match o {
        Option::None => emit_lit(out, "null"),
        Option::Some(t) => emit_lit(out, t.text.as_str()),
    }
}

fn emit_opt_timestamp(out: &mut Vec<char>, o: &Option<TimestampText>)
    ensures
        final(out)@ == old(out)@ + enc_opt_timestamp(opt_timestamp_view(*o)),
{
    match o {
        Option::None => emit_lit(out, "null"),
        Option::Some(t) => emit_string(out, t.text.as_str()),
    }
}

fn emit_bool(out: &mut Vec<char>, b: bool)
    ensures
        final(out)@ == old(out)@ + enc_bool(b),
{
    if b {
        emit_lit(out, "true");
    } else {
        emit_lit(out, "false");
    }
}

fn emit_db_type(out: &mut Vec<char>, t: &DbType)
    ensures
        final(out)@ == old(out)@ + enc_db_type(t@),
{
    emit_lit(out, "{\"type\":\"");
    match t {
        DbType::Uuid => {
            emit_lit(out, "Uuid");
            emit_lit(out, "\"");
            emit_lit(out, "}");
        },
        DbType::String(c) => {
            emit_lit(out, "String");
            emit_lit(out, "\"");
            emit_lit(out, ",\"min_length\":");
            emit_opt_usize(out, &c.min_length);
            emit_lit(out, ",\"max_length\":");
            emit_opt_usize(out, &c.max_length);
            emit_lit(out, "}");
        },
        DbType::Int(c) => {
            emit_lit(out, "Int");
            emit_lit(out, "\"");
            emit_lit(out, ",\"min_range\":");
            emit_opt_usize(out, &c.min_range);
            emit_lit(out, ",\"max_range\":");
            emit_opt_usize(out, &c.max_range);
            emit_lit(out, "}");
        },
        DbType::Float(c) => {
            emit_lit(out, "Float");
            emit_lit(out, "\"");
            emit_lit(out, ",\"min_range\":");
            emit_opt_number(out, &c.min_range);
            emit_lit(out, ",\"max_range\":");
            emit_opt_number(out, &c.max_range);
            emit_lit(out, "}");
        },
        DbType::DateTime(c) => {
            emit_lit(out, "DateTime");
            emit_lit(out, "\"");
            emit_lit(out, ",\"min_range\":");
            emit_opt_timestamp(out, &c.min_range);
            emit_lit(out, ",\"max_range\":");
            emit_opt_timestamp(out, &c.max_range);
            emit_lit(out, "}");
        },
        DbType::Boolean => {
            emit_lit(out, "Boolean");
            emit_lit(out, "\"");
            emit_lit(out, "}");
        },
    }
    proof {
        assert(out@ =~= old(out)@ + enc_db_type(t@));
    }
}

fn emit_column(out: &mut Vec<char>, c: &ColumnDeclaration)
    ensures
        final(out)@ == old(out)@ + enc_column(c@),
{
    emit_lit(out, "{\"name\":");
    emit_string(out, c.name.as_str());
    emit_lit(out, ",\"db_type\":");
    emit_db_type(out, &c.db_type);
    emit_lit(out, ",\"is_nullable\":");
    emit_bool(out, c.is_nullable);
    emit_lit(out, "}");
    proof {
        assert(out@ =~= old(out)@ + enc_column(c@));
    }
}

fn emit_columns_tail(out: &mut Vec<char>, cs: &Vec<ColumnDeclaration>, i: usize)
    requires
        i < cs@.len(),
    ensures
        final(out)@ == old(out)@ + enc_columns_tail(columns_view(cs@).skip(i as int)),
    decreases cs@.len() - i,
{
    let ghost m = columns_view(cs@).skip(i as int);
    proof {
        assert(m[0] == cs@[i as int]@);
    }
    emit_column(out, &cs[i]);
    if i == cs.len() - 1 {
        emit_lit(out, "]");
        proof {
            assert(m.len() == 1);
            assert(out@ =~= old(out)@ + enc_columns_tail(m));
        }
    } else {
        emit_lit(out, ",");
        emit_columns_tail(out, cs, i + 1);
        proof {
            assert(m.drop_first() =~= columns_view(cs@).skip(i + 1));
            assert(out@ =~= old(out)@ + enc_columns_tail(m));
        }
    }
}

fn emit_columns(out: &mut Vec<char>, cs: &Vec<ColumnDeclaration>)
    ensures
        final(out)@ == old(out)@ + enc_columns(columns_view(cs@)),
{
    if cs.len() == 0 {
        emit_lit(out, "[]");
    } else {
        emit_lit(out, "[");
        proof {
            assert(columns_view(cs@).skip(0) =~= columns_view(cs@));
        }
        emit_columns_tail(out, cs, 0);
        proof {
            assert(out@ =~= old(out)@ + enc_columns(columns_view(cs@)));
        }
    }
}

fn emit_table(out: &mut Vec<char>, t: &TableDeclaration)
    ensures
        final(out)@ == old(out)@ + enc_table(t@),
{
    emit_lit(out, "{\"name\":");
    emit_string(out, t.name.as_str());
    emit_lit(out, ",\"columns\":");
    emit_columns(out, &t.columns);
    emit_lit(out, "}");
    proof {
        assert(out@ =~= old(out)@ + enc_table(t@));
    }
}

fn emit_tables_tail(out: &mut Vec<char>, ts: &Vec<TableDeclaration>, i: usize)
    requires
        i < ts@.len(),
    ensures
        final(out)@ == old(out)@ + enc_tables_tail(tables_view(ts@).skip(i as int)),
    decreases ts@.len() - i,
{
    let ghost m = tables_view(ts@).skip(i as int);
    proof {
        assert(m[0] == ts@[i as int]@);
    }
    emit_table(out, &ts[i]);
    if i == ts.len() - 1 {
        emit_lit(out, "]");
        proof {
            assert(m.len() == 1);
            assert(out@ =~= old(out)@ + enc_tables_tail(m));
        }
    } else {
        emit_lit(out, ",");
        emit_tables_tail(out, ts, i + 1);
        proof {
            assert(m.drop_first() =~= tables_view(ts@).skip(i + 1));
            assert(out@ =~= old(out)@ + enc_tables_tail(m));
        }
    }
}

fn emit_tables(out: &mut Vec<char>, ts: &Vec<TableDeclaration>)
    ensures
        final(out)@ == old(out)@ + enc_tables(tables_view(ts@)),
{
    if ts.len() == 0 {
        emit_lit(out, "[]");
    } else {
        emit_lit(out, "[");
        proof {
            assert(tables_view(ts@).skip(0) =~= tables_view(ts@));
        }
        emit_tables_tail(out, ts, 0);
        proof {
            assert(out@ =~= old(out)@ + enc_tables(tables_view(ts@)));
        }
    }
}

/// The wire document of a declaration, exactly `enc_decl` of its model.
///
/// Together with `decode`'s contract this is the round-trip law: decoding
/// `encode(d)` yields `d` again for every well-formed declaration.
pub fn encode(d: &ApiDeclaration) -> (s: String)
    ensures
        s@ == enc_decl(d@),
{
    let mut out: Vec<char> = Vec::new();
    emit_lit(&mut out, "{\"name\":");
    emit_string(&mut out, d.name.as_str());
    emit_lit(&mut out, ",\"db_name\":");
    emit_string(&mut out, d.db_name.as_str());
    emit_lit(&mut out, ",\"tables\":");
    emit_tables(&mut out, &d.tables);
    emit_lit(&mut out, "}");
    proof {
        assert(out@ =~= enc_decl(d@));
    }
    chars_to_string(&out)
}

} // verus!
