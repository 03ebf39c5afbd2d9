//! The typed schema for an API declaration.
//!
//! An `ApiDeclaration` names a project and a database and lists the tables to
//! generate. Each column carries a `DbType`, a closed tagged union over the
//! supported column types and their optional constraints. Floating-point and
//! timestamp bounds are carried as their decimal / RFC 3339 wire text: the
//! library never computes with them, it only round-trips them, so the text is
//! the faithful plain-value model of those payloads.
//!
//! Each executable type has a mathematical model (`DeclModel`, `TableModel`,
//! `ColumnModel`, `DbTypeModel`) reached through `View`; every contract in the
//! crate speaks of those models.

use vstd::prelude::*;

verus! {

/// A user-submitted description of the database schema of one backend
/// project. Decoded from one queue message; immutable afterwards.
#[derive(Clone, Debug, PartialEq)]
pub struct ApiDeclaration {
    pub name: String,
    pub db_name: String,
    pub tables: Vec<TableDeclaration>,
}

/// One table of a declaration, with its columns in generation order.
#[derive(Clone, Debug, PartialEq)]
pub struct TableDeclaration {
    pub name: String,
    pub columns: Vec<ColumnDeclaration>,
}

/// One column of a table.
#[derive(Clone, Debug, PartialEq)]
pub struct ColumnDeclaration {
    pub name: String,
    pub db_type: DbType,
    pub is_nullable: bool,
}

/// The closed tagged union of column types. Its wire form is an object with
/// an explicit `type` tag naming the variant; the payload-free variants
/// (`Uuid`, `Boolean`) carry nothing else.
#[derive(Clone, Debug, PartialEq)]
pub enum DbType {
    Uuid,
    String(StringConstraints),
    Int(RangeConstraints<usize>),
    Float(RangeConstraints<NumberText>),
    DateTime(RangeConstraints<TimestampText>),
    Boolean,
}

/// Optional length bounds of a string column. Decoding does not require
/// `min_length <= max_length`: a pair with `min_length > max_length` is
/// accepted as-is.
#[derive(Clone, Debug, PartialEq)]
pub struct StringConstraints {
    pub min_length: Option<usize>,
    pub max_length: Option<usize>,
}

/// Optional range bounds of a column type. As with `StringConstraints`,
/// decoding does not compare the two bounds.
#[derive(Clone, Debug, PartialEq)]
pub struct RangeConstraints<T> {
    pub min_range: Option<T>,
    pub max_range: Option<T>,
}

/// The decimal text of a floating-point bound, exactly as it stands in the
/// wire document (for example `"2.5"` or `"-1e3"`). The library carries the
/// text losslessly and never does arithmetic on it.
#[derive(Clone, Debug, PartialEq)]
pub struct NumberText {
    pub text: String,
}

/// The text of a timestamp-with-timezone bound, carried losslessly in the
/// lexical shape of RFC 3339 (`timestamp_text`); calendar arithmetic is no
/// concern of this library.
#[derive(Clone, Debug, PartialEq)]
pub struct TimestampText {
    pub text: String,
}

/// Mathematical model of `ApiDeclaration`.
pub struct DeclModel {
    pub name: Seq<char>,
    pub db_name: Seq<char>,
    pub tables: Seq<TableModel>,
}

/// Mathematical model of `TableDeclaration`.
pub struct TableModel {
    pub name: Seq<char>,
    pub columns: Seq<ColumnModel>,
}

/// Mathematical model of `ColumnDeclaration`.
pub struct ColumnModel {
    pub name: Seq<char>,
    pub db_type: DbTypeModel,
    pub is_nullable: bool,
}

/// Mathematical model of `DbType`; text payloads become character sequences.
pub enum DbTypeModel {
    Uuid,
    Text { min_length: Option<usize>, max_length: Option<usize> },
    Int { min_range: Option<usize>, max_range: Option<usize> },
    Float { min_range: Option<Seq<char>>, max_range: Option<Seq<char>> },
    DateTime { min_range: Option<Seq<char>>, max_range: Option<Seq<char>> },
    Boolean,
}

impl View for NumberText {
    type V = Seq<char>;

    open spec fn view(&self) -> Seq<char> {
        self.text@
    }
}

impl View for TimestampText {
    type V = Seq<char>;

    open spec fn view(&self) -> Seq<char> {
        self.text@
    }
}

/// The text, if any, of an optional number payload.
pub open spec fn opt_number_view(o: Option<NumberText>) -> Option<Seq<char>> {
    match o {
        Option::Some(n) => Option::Some(n@),
        Option::None => Option::None,
    }
}

/// The text, if any, of an optional timestamp payload.
pub open spec fn opt_timestamp_view(o: Option<TimestampText>) -> Option<Seq<char>> {
    match o {
        Option::Some(t) => Option::Some(t@),
        Option::None => Option::None,
    }
}

impl View for DbType {
    type V = DbTypeModel;

    open spec fn view(&self) -> DbTypeModel {
        match self {
            DbType::Uuid => DbTypeModel::Uuid,
            DbType::String(c) => DbTypeModel::Text {
                min_length: c.min_length,
                max_length: c.max_length,
            },
            DbType::Int(c) => DbTypeModel::Int {
                min_range: c.min_range,
                max_range: c.max_range,
            },
            DbType::Float(c) => DbTypeModel::Float {
                min_range: opt_number_view(c.min_range),
                max_range: opt_number_view(c.max_range),
            },
            DbType::DateTime(c) => DbTypeModel::DateTime {
                min_range: opt_timestamp_view(c.min_range),
                max_range: opt_timestamp_view(c.max_range),
            },
            DbType::Boolean => DbTypeModel::Boolean,
        }
    }
}

/// The models of a column list.
pub open spec fn columns_view(cs: Seq<ColumnDeclaration>) -> Seq<ColumnModel> {
    cs.map_values(|c: ColumnDeclaration| c@)
}

/// The models of a table list.
pub open spec fn tables_view(ts: Seq<TableDeclaration>) -> Seq<TableModel> {
    ts.map_values(|t: TableDeclaration| t@)
}

impl View for ColumnDeclaration {
    type V = ColumnModel;

    open spec fn view(&self) -> ColumnModel {
        ColumnModel { name: self.name@, db_type: self.db_type@, is_nullable: self.is_nullable }
    }
}

impl View for TableDeclaration {
    type V = TableModel;

    open spec fn view(&self) -> TableModel {
        TableModel { name: self.name@, columns: columns_view(self.columns@) }
    }
}

impl View for ApiDeclaration {
    type V = DeclModel;

    open spec fn view(&self) -> DeclModel {
        DeclModel { name: self.name@, db_name: self.db_name@, tables: tables_view(self.tables@) }
    }
}

/// A character the codec stores raw inside a JSON string: anything but the
/// closing quote and the escape character, which travel escaped.
pub open spec fn plain_char(c: char) -> bool {
    c != '"' && c != '\\'
}

/// A character sequence of raw-storable characters.
pub open spec fn plain_text(s: Seq<char>) -> bool {
    forall|i: int| 0 <= i < s.len() ==> plain_char(#[trigger] s[i])
}

/// A character allowed inside the decimal text of a number.
pub open spec fn number_char(c: char) -> bool {
    ('0' <= c && c <= '9') || c == '-' || c == '+' || c == '.' || c == 'e' || c == 'E'
}

/// The states of the JSON number grammar, read left to right: an optional
/// minus, an integer part without leading zeros, an optional fraction with
/// at least one digit, and an optional exponent with an optional sign and at
/// least one digit.
pub enum NumState {
    Start,
    Minus,
    IntZero,
    IntMore,
    FracDot,
    FracMore,
    ExpMark,
    ExpSign,
    ExpMore,
    Dead,
}

/// One step of the number grammar.
pub open spec fn num_step(st: NumState, c: char) -> NumState {
    match st {
        NumState::Start => {
            if c == '-' {
                NumState::Minus
            } else if c == '0' {
                NumState::IntZero
            } else if '1' <= c && c <= '9' {
                NumState::IntMore
            } else {
                NumState::Dead
            }
        },
        NumState::Minus => {
            if c == '0' {
                NumState::IntZero
            } else if '1' <= c && c <= '9' {
                NumState::IntMore
            } else {
                NumState::Dead
            }
        },
        NumState::IntZero => {
            if c == '.' {
                NumState::FracDot
            } else if c == 'e' || c == 'E' {
                NumState::ExpMark
            } else {
                NumState::Dead
            }
        },
        NumState::IntMore => {
            if '0' <= c && c <= '9' {
                NumState::IntMore
            } else if c == '.' {
                NumState::FracDot
            } else if c == 'e' || c == 'E' {
                NumState::ExpMark
            } else {
                NumState::Dead
            }
        },
        NumState::FracDot => {
            if '0' <= c && c <= '9' {
                NumState::FracMore
            } else {
                NumState::Dead
            }
        },
        NumState::FracMore => {
            if '0' <= c && c <= '9' {
                NumState::FracMore
            } else if c == 'e' || c == 'E' {
                NumState::ExpMark
            } else {
                NumState::Dead
            }
        },
        NumState::ExpMark => {
            if c == '+' || c == '-' {
                NumState::ExpSign
            } else if '0' <= c && c <= '9' {
                NumState::ExpMore
            } else {
                NumState::Dead
            }
        },
        NumState::ExpSign => {
            if '0' <= c && c <= '9' {
                NumState::ExpMore
            } else {
                NumState::Dead
            }
        },
        NumState::ExpMore => {
            if '0' <= c && c <= '9' {
                NumState::ExpMore
            } else {
                NumState::Dead
            }
        },
        NumState::Dead => NumState::Dead,
    }
}

/// The state after reading all of `s`.
pub open spec fn num_state(s: Seq<char>) -> NumState
    decreases s.len(),
{
    if s.len() == 0 {
        NumState::Start
    } else {
        num_step(num_state(s.drop_last()), s.last())
    }
}

/// A state in which a number may end: after the integer part, after at
/// least one fraction digit, or after at least one exponent digit.
pub open spec fn num_accepting(st: NumState) -> bool {
    match st {
        NumState::IntZero => true,
        NumState::IntMore => true,
        NumState::FracMore => true,
        NumState::ExpMore => true,
        _ => false,
    }
}

/// A well-formed number text: exactly a JSON number.
pub open spec fn number_text(s: Seq<char>) -> bool {
    num_accepting(num_state(s))
}

/// A text the number grammar has not rejected is made of number characters,
/// and it opens with a digit or a minus sign.
pub proof fn lemma_num_state_chars(s: Seq<char>)
    requires
        !(num_state(s) is Dead),
    ensures
        forall|i: int| 0 <= i < s.len() ==> number_char(#[trigger] s[i]),
        s.len() >= 1 ==> s[0] == '-' || ('0' <= s[0] && s[0] <= '9'),
    decreases s.len(),
{
    if s.len() > 0 {
        assert(num_state(s) == num_step(num_state(s.drop_last()), s.last()));
        assert(!(num_state(s.drop_last()) is Dead));
        lemma_num_state_chars(s.drop_last());
        assert(number_char(s.last()));
        assert forall|i: int| 0 <= i < s.len() implies number_char(s[i]) by {
            if i < s.len() - 1 {
                assert(s.drop_last()[i] == s[i]);
                assert(number_char(s.drop_last()[i]));
            } else {
                assert(s[i] == s.last());
            }
        }
        if s.len() == 1 {
            assert(num_state(s.drop_last()) is Start);
        } else {
            assert(s.drop_last()[0] == s[0]);
        }
    }
}

/// A well-formed number text is non-empty, made of number characters, and
/// opens with a digit or a minus sign.
pub proof fn lemma_number_text_chars(s: Seq<char>)
    requires
        number_text(s),
    ensures
        s.len() >= 1,
        forall|i: int| 0 <= i < s.len() ==> number_char(#[trigger] s[i]),
        s[0] == '-' || ('0' <= s[0] && s[0] <= '9'),
{
    lemma_num_state_chars(s);
}

/// A decimal digit stands at position `i`.
pub open spec fn ts_digit(s: Seq<char>, i: int) -> bool {
    0 <= i < s.len() && '0' <= s[i] && s[i] <= '9'
}

/// The fixed `YYYY-MM-DDTHH:MM:SS` opening of a timestamp.
pub open spec fn ts_core(s: Seq<char>) -> bool {
    &&& s.len() >= 19
    &&& ts_digit(s, 0) && ts_digit(s, 1) && ts_digit(s, 2) && ts_digit(s, 3)
    &&& s[4] == '-' && ts_digit(s, 5) && ts_digit(s, 6) && s[7] == '-'
    &&& ts_digit(s, 8) && ts_digit(s, 9) && s[10] == 'T'
    &&& ts_digit(s, 11) && ts_digit(s, 12) && s[13] == ':'
    &&& ts_digit(s, 14) && ts_digit(s, 15) && s[16] == ':'
    &&& ts_digit(s, 17) && ts_digit(s, 18)
}

/// A timezone offset fills the rest of the text from position `j`: `Z`, or a
/// sign with `HH:MM`.
pub open spec fn ts_offset_at(s: Seq<char>, j: int) -> bool {
    ||| (j == s.len() - 1 && s[j] == 'Z')
    ||| (j == s.len() - 6 && (s[j] == '+' || s[j] == '-') && ts_digit(s, j + 1) && ts_digit(
        s,
        j + 2,
    ) && s[j + 3] == ':' && ts_digit(s, j + 4) && ts_digit(s, j + 5))
}

/// The lexical shape of an RFC 3339 timestamp with timezone: the fixed
/// date-time opening, an optional fraction with at least one digit, and a
/// closing offset. Calendar validity (month and day ranges and the like) is
/// the downstream consumers' concern; the library checks the shape and
/// carries the text.
pub open spec fn timestamp_text(s: Seq<char>) -> bool {
    &&& ts_core(s)
    &&& {
        ||| ts_offset_at(s, 19)
        ||| (s.len() >= 21 && s[19] == '.' && exists|j: int|
            21 <= j <= s.len() && (forall|k: int| 20 <= k < j ==> ts_digit(s, k))
                && #[trigger] ts_offset_at(s, j))
    }
}

/// Well-formedness of a column type model: text payloads that can appear on
/// the wire. This is the exact domain on which the codec round-trips.
pub open spec fn wf_db_type(t: DbTypeModel) -> bool {
    match t {
        DbTypeModel::Float { min_range, max_range } => {
            &&& (min_range matches Option::Some(s) ==> number_text(s))
            &&& (max_range matches Option::Some(s) ==> number_text(s))
        },
        DbTypeModel::DateTime { min_range, max_range } => {
            &&& (min_range matches Option::Some(s) ==> timestamp_text(s))
            &&& (max_range matches Option::Some(s) ==> timestamp_text(s))
        },
        _ => true,
    }
}

/// Well-formedness of a column model.
pub open spec fn wf_column(c: ColumnModel) -> bool {
    wf_db_type(c.db_type)
}

/// Well-formedness of a table model.
pub open spec fn wf_table(t: TableModel) -> bool {
    forall|i: int| 0 <= i < t.columns.len() ==> wf_column(#[trigger] t.columns[i])
}

/// Well-formedness of a declaration model: every number text is a JSON
/// number and every timestamp text has the RFC 3339 shape. Names are
/// arbitrary: the codec escapes and unescapes them.
pub open spec fn wf_decl(d: DeclModel) -> bool {
    forall|i: int| 0 <= i < d.tables.len() ==> wf_table(#[trigger] d.tables[i])
}

} // verus!
