//! The statement shim: CREATE TABLE / INSERT / UPDATE / ALTER TABLE text
//! turned into changes, and CSV records turned into row inserts.
use vstd::prelude::*;
use vstd::utf8::*;
use vstd::slice::slice_to_vec;
use crate::codec::enc_value;
use crate::crdt::encode_payload;
use crate::error::BranchDBError;
use crate::models::{Change, ChangeV, CrdtValue, ValueV};
use crate::sql::{parse_sql_values, sql_values, text_of, trim, trim_chars};
use crate::text::{chars_of, find, find_in, pieces, pieces_of, starts, starts_chars, sub_chars, unquote, unquoted, views, words, words_of};
use vstd::string::StringExecFns;

verus! {

/// The upper-case form of a text.
pub uninterp spec fn upper_of(s: Seq<char>) -> Seq<char>;

/// Relies on `str::to_uppercase`: the result depends on the characters alone.
#[verifier::external_body]
fn uppercase(s: &str) -> (r: String)
    ensures
        r@ == upper_of(s@),
{
    s.to_uppercase()
}

/// The JSON array text of a list of strings.
pub uninterp spec fn json_strings_of(v: Seq<Seq<char>>) -> Seq<char>;

/// Relies on `serde_json::to_string` on a list of strings, which cannot fail
/// and depends on the strings alone.
#[verifier::external_body]
fn json_strings(v: &Vec<String>) -> (r: String)
    ensures
        r@ == json_strings_of(v@.map_values(|x: String| x@)),
{
    serde_json::to_string(v).unwrap_or_default()
}

/// A statement the shim understands.
#[derive(Debug, Clone, PartialEq, Eq)]
pub enum SqlStatement {
    CreateTable { table: String },
    Insert { table: String, values: Vec<String> },
    Update { table: String, id: String, set_clause: String },
    AlterAdd { table: String, column: String, column_type: String },
    AlterDrop { table: String, column: String },
}

/// Mathematical form of a `SqlStatement`.
pub enum SqlStatementV {
    CreateTable { table: Seq<char> },
    Insert { table: Seq<char>, values: Seq<Seq<char>> },
    Update { table: Seq<char>, id: Seq<char>, set_clause: Seq<char> },
    AlterAdd { table: Seq<char>, column: Seq<char>, column_type: Seq<char> },
    AlterDrop { table: Seq<char>, column: Seq<char> },
}

impl View for SqlStatement {
    type V = SqlStatementV;

    open spec fn view(&self) -> SqlStatementV {
        match self {
            SqlStatement::CreateTable { table } => SqlStatementV::CreateTable { table: table@ },
            SqlStatement::Insert { table, values } => SqlStatementV::Insert {
                table: table@,
                values: values@.map_values(|x: String| x@),
            },
            SqlStatement::Update { table, id, set_clause } => SqlStatementV::Update {
                table: table@,
                id: id@,
                set_clause: set_clause@,
            },
            SqlStatement::AlterAdd { table, column, column_type } => SqlStatementV::AlterAdd {
                table: table@,
                column: column@,
                column_type: column_type@,
            },
            SqlStatement::AlterDrop { table, column } => SqlStatementV::AlterDrop { table: table@, column: column@ },
        }
    }
}

/// An UPDATE statement's row id, after `WHERE`: the text after the first
/// `=`, trimmed and without quotes.
pub open spec fn update_of(cmd: Seq<char>, w: Seq<Seq<char>>) -> Result<SqlStatementV, ()> {
    if w.len() <= 1 {
        Err(())
    } else {
        match (find(cmd, "SET"@), find(cmd, "WHERE"@)) {
            (Some(si), Some(wi)) => if wi < si + 3 {
                Err(())
            } else {
                let where_clause = trim(cmd.skip(wi + 5));
                match find(where_clause, "="@) {
                    None => Err(()),
                    Some(eq) => Ok(SqlStatementV::Update {
                        table: w[1],
                        id: unquote(trim(where_clause.skip(eq + 1))),
                        set_clause: trim(cmd.subrange(si + 3, wi)),
                    }),
                }
            },
            _ => Err(()),
        }
    }
}

/// What a command says, by its upper-cased start: the table is the third
/// word (the second for UPDATE), the values follow `VALUES`, the updated row
/// and assignments surround `SET` and `WHERE`, and ALTER's column and type
/// are the words after `ADD COLUMN` or `DROP COLUMN` (the sixth and seventh).
/// Anything else is refused.
pub open spec fn statement_of(cmd: Seq<char>) -> Result<SqlStatementV, ()> {
    let up = upper_of(cmd);
    let w = words(cmd);
    if starts(up, "CREATE TABLE"@) {
        if w.len() > 2 { Ok(SqlStatementV::CreateTable { table: w[2] }) } else { Err(()) }
    } else if starts(up, "INSERT INTO"@) {
        if w.len() <= 2 {
            Err(())
        } else {
            match find(cmd, "VALUES"@) {
                None => Err(()),
                Some(i) => {
                    let values = sql_values(trim(cmd.skip(i + 6)));
                    if values.len() == 0 { Err(()) } else { Ok(SqlStatementV::Insert { table: w[2], values }) }
                },
            }
        }
    } else if starts(up, "UPDATE"@) {
        update_of(cmd, w)
    } else if starts(up, "ALTER TABLE"@) {
        if w.len() <= 2 {
            Err(())
        } else if find(up, "ADD COLUMN"@) is Some {
            if w.len() > 6 {
                Ok(SqlStatementV::AlterAdd { table: w[2], column: w[5], column_type: w[6] })
            } else {
                Err(())
            }
        } else if find(up, "DROP COLUMN"@) is Some {
            if w.len() > 5 { Ok(SqlStatementV::AlterDrop { table: w[2], column: w[5] }) } else { Err(()) }
        } else {
            Err(())
        }
    } else {
        Err(())
    }
}

fn invalid(msg: &str) -> (r: BranchDBError)
    ensures
        r is InvalidInput,
{
    BranchDBError::InvalidInput(msg.to_owned())
}

fn text_from(v: &Vec<char>) -> (r: String)
    ensures
        r@ == v@,
{
    text_of(v.as_slice())
}

fn update_statement(cmd: &Vec<char>, w: &Vec<Vec<char>>) -> (r: Result<SqlStatement, BranchDBError>)
    ensures
        match update_of(cmd@, views(w@)) {
            Ok(v) => r matches Ok(x) && x@ == v,
            Err(_) => r matches Err(e) && e is InvalidInput,
        },
{
    if w.len() <= 1 {
        return Err(invalid("Missing table name"));
    }
    proof {
        reveal_strlit("SET");
        reveal_strlit("WHERE");
        reveal_strlit("=");
    }
    let set_kw = chars_of("SET");
    let where_kw = chars_of("WHERE");
    let si = match find_in(cmd, &set_kw) {
        Some(i) => i,
        None => { return Err(invalid("Missing SET clause")); },
    };
    let wi = match find_in(cmd, &where_kw) {
        Some(i) => i,
        None => { return Err(invalid("Missing WHERE clause")); },
    };
    let _n: usize = cmd.len();
    if wi < si + 3 {
        return Err(invalid("Invalid SET clause"));
    }
    let where_clause = trim_chars(&sub_chars(cmd, wi + 5, cmd.len()));
    let eq_kw = chars_of("=");
    let eq = match find_in(&where_clause, &eq_kw) {
        Some(i) => i,
        None => { return Err(invalid("WHERE clause must contain = operator")); },
    };
    let id = unquoted(&trim_chars(&sub_chars(&where_clause, eq + 1, where_clause.len())));
    let set_clause = trim_chars(&sub_chars(cmd, si + 3, wi));
    assert(w@[1]@ == views(w@)[1]);
    Ok(SqlStatement::Update { table: text_from(&w[1]), id: text_from(&id), set_clause: text_from(&set_clause) })
}

/// Reads a CREATE TABLE, INSERT INTO, UPDATE or ALTER TABLE statement.
pub fn sql_statement(command: &str) -> (r: Result<SqlStatement, BranchDBError>)
    ensures
        match statement_of(command@) {
            Ok(v) => r matches Ok(x) && x@ == v,
            Err(_) => r matches Err(e) && e is InvalidInput,
        },
{
    let upper = uppercase(command);
    let up = chars_of(upper.as_str());
    let cmd = chars_of(command);
    let w = words_of(&cmd);
    assert(views(w@) == words(command@));
    if starts_chars(&up, &chars_of("CREATE TABLE")) {
        if w.len() > 2 {
            assert(w@[2]@ == views(w@)[2]);
            Ok(SqlStatement::CreateTable { table: text_from(&w[2]) })
        } else {
            Err(invalid("Missing table name"))
        }
    } else if starts_chars(&up, &chars_of("INSERT INTO")) {
        if w.len() <= 2 {
            return Err(invalid("Missing table name"));
        }
        proof { reveal_strlit("VALUES"); }
        let _n: usize = cmd.len();
        let i = match find_in(&cmd, &chars_of("VALUES")) {
            Some(i) => i,
            None => { return Err(invalid("Missing VALUES clause")); },
        };
        let rest = text_from(&trim_chars(&sub_chars(&cmd, i + 6, cmd.len())));
        let values = parse_sql_values(rest.as_str())?;
        if values.len() == 0 {
            return Err(invalid("No values provided"));
        }
        assert(w@[2]@ == views(w@)[2]);
        assert(cmd@.subrange(i + 6, cmd@.len() as int) == command@.skip(i + 6));
        Ok(SqlStatement::Insert { table: text_from(&w[2]), values })
    } else if starts_chars(&up, &chars_of("UPDATE")) {
        update_statement(&cmd, &w)
    } else if starts_chars(&up, &chars_of("ALTER TABLE")) {
        if w.len() <= 2 {
            return Err(invalid("Missing table name"));
        }
        assert(w@[2]@ == views(w@)[2]);
        if find_in(&up, &chars_of("ADD COLUMN")).is_some() {
            if w.len() <= 5 {
                return Err(invalid("Missing column name"));
            }
            if w.len() <= 6 {
                return Err(invalid("Missing column type"));
            }
            assert(w@[5]@ == views(w@)[5]);
            assert(w@[6]@ == views(w@)[6]);
            Ok(SqlStatement::AlterAdd { table: text_from(&w[2]), column: text_from(&w[5]), column_type: text_from(&w[6]) })
        } else if find_in(&up, &chars_of("DROP COLUMN")).is_some() {
            if w.len() <= 5 {
                return Err(invalid("Missing column name"));
            }
            assert(w@[5]@ == views(w@)[5]);
            Ok(SqlStatement::AlterDrop { table: text_from(&w[2]), column: text_from(&w[5]) })
        } else {
            Err(invalid("Unsupported ALTER TABLE operation"))
        }
    } else {
        Err(invalid("Unsupported SQL command"))
    }
}

/// The change an INSERT makes: the row whose id is the first value, holding
/// the JSON array of all values in a register.
pub fn insert_change(table: &str, values: &Vec<String>) -> (r: Option<Change>)
    ensures
        r is Some <==> values@.len() > 0,
        r matches Some(c) ==> c@ == (ChangeV::Insert {
            table: table@,
            id: values@[0]@,
            value: enc_value(ValueV::Register(encode_utf8(json_strings_of(values@.map_values(|x: String| x@))))),
        }),
{
    if values.len() == 0 {
        return None;
    }
    let json = json_strings(values);
    let bytes = slice_to_vec(json.as_str().as_bytes());
    let value = encode_payload(&CrdtValue::Register(bytes));
    Some(Change::Insert { table: table.to_owned(), id: values[0].clone(), value })
}

/// The change CREATE TABLE makes: an empty schema document `{}`.
pub fn create_table_change(table: &str) -> (r: Change)
    ensures
        r@ == (ChangeV::Insert { table: table@, id: "!schema"@, value: enc_value(ValueV::Register(seq![123u8, 125u8])) }),
{
    let doc = vec![123u8, 125u8];
    assert(doc@ =~= seq![123u8, 125u8]);
    let value = encode_payload(&CrdtValue::Register(doc));
    Change::Insert { table: table.to_owned(), id: "!schema".to_owned(), value }
}

/// The change that replaces a row's document: UPDATE's edited row, or
/// ALTER TABLE's edited schema under `!schema`.
pub fn update_change(table: &str, id: &str, document: &[u8]) -> (r: Change)
    ensures
        r@ == (ChangeV::Update { table: table@, id: id@, value: enc_value(ValueV::Register(document@)) }),
{
    let value = encode_payload(&CrdtValue::Register(slice_to_vec(document)));
    Change::Update { table: table.to_owned(), id: id.to_owned(), value }
}

/// A cell of a row document as UPDATE sees it: untouched (remembering
/// whether it holds a number), or assigned a number or a text.
#[derive(Debug, Clone, PartialEq, Eq)]
pub enum Cell {
    Kept { number: bool },
    SetNumber(String),
    SetText(String),
}

pub enum CellV {
    Kept { number: bool },
    SetNumber(Seq<char>),
    SetText(Seq<char>),
}

impl View for Cell {
    type V = CellV;

    open spec fn view(&self) -> CellV {
        match self {
            Cell::Kept { number } => CellV::Kept { number: *number },
            Cell::SetNumber(t) => CellV::SetNumber(t@),
            Cell::SetText(t) => CellV::SetText(t@),
        }
    }
}

pub open spec fn is_number(c: CellV) -> bool {
    match c {
        CellV::Kept { number } => number,
        CellV::SetNumber(_) => true,
        CellV::SetText(_) => false,
    }
}

/// The first position of `f` among `cols`.
pub open spec fn column_pos(cols: Seq<Seq<char>>, f: Seq<char>) -> Option<int>
    decreases cols.len(),
{
    if cols.len() == 0 {
        None
    } else if cols[0] == f {
        Some(0)
    } else {
        match column_pos(cols.drop_first(), f) {
            Some(i) => Some(i + 1),
            None => None,
        }
    }
}

/// One assignment `field = value`: the field's column must exist and lie
/// within the row; a number cell takes the value as a number, any other as
/// a text.
pub open spec fn apply_pair(cols: Seq<Seq<char>>, pair: Seq<char>, cells: Seq<CellV>) -> Result<Seq<CellV>, ()> {
    let parts = pieces(pair, '=');
    if parts.len() < 2 {
        Err(())
    } else {
        let value = unquote(trim(parts[1]));
        match column_pos(cols, trim(parts[0])) {
            None => Err(()),
            Some(pos) => if pos >= cells.len() {
                Err(())
            } else {
                Ok(cells.update(pos, if is_number(cells[pos]) { CellV::SetNumber(value) } else { CellV::SetText(value) }))
            },
        }
    }
}

/// The first `n` assignments applied in order.
pub open spec fn apply_pairs(cols: Seq<Seq<char>>, pairs: Seq<Seq<char>>, n: nat, cells: Seq<CellV>) -> Result<Seq<CellV>, ()>
    decreases n,
{
    if n == 0 {
        Ok(cells)
    } else {
        match apply_pairs(cols, pairs, (n - 1) as nat, cells) {
            Err(e) => Err(e),
            Ok(cs) => apply_pair(cols, pairs[n - 1], cs),
        }
    }
}

/// The assignments of a SET clause, separated by commas, applied in order.
pub open spec fn sets_result(cols: Seq<Seq<char>>, clause: Seq<char>, cells: Seq<CellV>) -> Result<Seq<CellV>, ()> {
    let pairs = pieces(clause, ',');
    apply_pairs(cols, pairs, pairs.len(), cells)
}

proof fn lemma_pairs_fail(cols: Seq<Seq<char>>, pairs: Seq<Seq<char>>, m: nat, n: nat, cells: Seq<CellV>)
    requires
        apply_pairs(cols, pairs, m, cells) is Err,
        m <= n,
    ensures
        apply_pairs(cols, pairs, n, cells) is Err,
    decreases n - m,
{
    if m < n {
        lemma_pairs_fail(cols, pairs, m, (n - 1) as nat, cells);
    }
}

pub open spec fn strings_view(v: Seq<String>) -> Seq<Seq<char>> {
    v.map_values(|x: String| x@)
}

pub open spec fn cells_view(v: Seq<Cell>) -> Seq<CellV> {
    v.map_values(|c: Cell| c@)
}

fn copy_cell(c: &Cell) -> (r: Cell)
    ensures
        r@ == c@,
{
    match c {
        Cell::Kept { number } => Cell::Kept { number: *number },
        Cell::SetNumber(t) => Cell::SetNumber(t.clone()),
        Cell::SetText(t) => Cell::SetText(t.clone()),
    }
}

fn position_of(cols: &Vec<String>, field: &String) -> (r: Option<usize>)
    ensures
        r is None <==> column_pos(strings_view(cols@), field@) is None,
        r matches Some(p) ==> column_pos(strings_view(cols@), field@) == Some(p as int),
{
    let ghost cv = strings_view(cols@);
    let mut i: usize = 0;
    assert(cv.skip(0) =~= cv);
    while i < cols.len()
        invariant
            cv == strings_view(cols@),
            i <= cv.len(),
            column_pos(cv, field@) == match column_pos(cv.skip(i as int), field@) {
                Some(j) => Some(j + i),
                None => None::<int>,
            },
        decreases cv.len() - i,
    {
        assert(cv.skip(i as int)[0] == cols@[i as int]@);
        assert(cv.skip(i as int).drop_first() =~= cv.skip(i + 1));
        if cols[i] == *field {
            return Some(i);
        }
        i = i + 1;
    }
    None
}

/// Applies the assignments of a SET clause to a row's cells, naming each
/// field by its position among the schema's columns.
pub fn apply_sets(columns: &Vec<String>, set_clause: &str, cells: &Vec<Cell>) -> (r: Result<Vec<Cell>, BranchDBError>)
    ensures
        match sets_result(strings_view(columns@), set_clause@, cells_view(cells@)) {
            Ok(v) => r matches Ok(x) && cells_view(x@) == v,
            Err(_) => r matches Err(e) && e is InvalidInput,
        },
{
    let ghost cols = strings_view(columns@);
    let mut work: Vec<Cell> = Vec::new();
    let mut k: usize = 0;
    while k < cells.len()
        invariant
            k <= cells@.len(),
            cells_view(work@) == cells_view(cells@).take(k as int),
        decreases cells@.len() - k,
    {
        let ghost before = cells_view(work@);
        work.push(copy_cell(&cells[k]));
        assert(cells_view(cells@)[k as int] == cells@[k as int]@);
        assert(cells_view(work@) =~= before.push(cells@[k as int]@));
        assert(cells_view(cells@).take(k + 1) =~= cells_view(cells@).take(k as int).push(cells@[k as int]@));
        k = k + 1;
    }
    assert(cells_view(cells@).take(k as int) =~= cells_view(cells@));
    let clause = chars_of(set_clause);
    let pairs = pieces_of(&clause, ',');
    let ghost pv = views(pairs@);
    let mut i: usize = 0;
    while i < pairs.len()
        invariant
            cols == strings_view(columns@),
            pv == views(pairs@),
            pv == pieces(set_clause@, ','),
            i <= pv.len(),
            apply_pairs(cols, pv, i as nat, cells_view(cells@)) == Ok::<Seq<CellV>, ()>(cells_view(work@)),
        decreases pv.len() - i,
    {
        assert(pairs@[i as int]@ == pv[i as int]);
        let parts = pieces_of(&pairs[i], '=');
        if parts.len() < 2 {
            proof { lemma_pairs_fail(cols, pv, (i + 1) as nat, pv.len(), cells_view(cells@)); }
            return Err(invalid("Invalid SET clause"));
        }
        assert(views(parts@) == pieces(pv[i as int], '='));
        assert(parts@[0]@ == views(parts@)[0]);
        assert(parts@[1]@ == views(parts@)[1]);
        let field = text_from(&trim_chars(&parts[0]));
        let value = text_from(&unquoted(&trim_chars(&parts[1])));
        let ghost before = cells_view(work@);
        proof {
            assert(views(parts@) == pieces(pv[i as int], '='));
        }
        let pos = match position_of(columns, &field) {
            Some(p) => p,
            None => {
                proof { lemma_pairs_fail(cols, pv, (i + 1) as nat, pv.len(), cells_view(cells@)); }
                return Err(invalid("Field not found in schema"));
            },
        };
        if pos >= work.len() {
            proof { lemma_pairs_fail(cols, pv, (i + 1) as nat, pv.len(), cells_view(cells@)); }
            return Err(invalid("Field position out of bounds"));
        }
        assert(before[pos as int] == work@[pos as int]@);
        let number = match &work[pos] {
            Cell::Kept { number } => *number,
            Cell::SetNumber(_) => true,
            Cell::SetText(_) => false,
        };
        let cell = if number { Cell::SetNumber(value) } else { Cell::SetText(value) };
        work.set(pos, cell);
        assert(cells_view(work@) =~= before.update(pos as int, if is_number(before[pos as int]) {
            CellV::SetNumber(value@) } else { CellV::SetText(value@) }));
        i = i + 1;
    }
    Ok(work)
}

pub open spec fn digit_char(d: nat) -> char {
    if d == 0 { '0' } else if d == 1 { '1' } else if d == 2 { '2' } else if d == 3 { '3' } else if d == 4 { '4' }
    else if d == 5 { '5' } else if d == 6 { '6' } else if d == 7 { '7' } else if d == 8 { '8' } else { '9' }
}

/// The decimal digits of `n`.
pub open spec fn decimal(n: nat) -> Seq<char>
    decreases n,
{
    if n < 10 { seq![digit_char(n)] } else { decimal(n / 10).push(digit_char(n % 10)) }
}

/// The name of a CSV column: its header, or its position when the header
/// row is shorter.
pub open spec fn field_name(headers: Seq<Seq<char>>, i: int) -> Seq<char> {
    if i < headers.len() { headers[i] } else { decimal(i as nat) }
}

/// `"name":"value"` for field `i` of a record.
pub open spec fn csv_entry(headers: Seq<Seq<char>>, record: Seq<Seq<char>>, i: int) -> Seq<char> {
    seq!['"'] + field_name(headers, i) + seq!['"', ':', '"'] + record[i] + seq!['"']
}

/// The entries of the first `n` fields, separated by commas.
pub open spec fn csv_fields(headers: Seq<Seq<char>>, record: Seq<Seq<char>>, n: nat) -> Seq<char>
    decreases n,
{
    if n == 0 {
        Seq::empty()
    } else if n == 1 {
        csv_entry(headers, record, 0)
    } else {
        csv_fields(headers, record, (n - 1) as nat) + seq![','] + csv_entry(headers, record, n - 1)
    }
}

/// A CSV record as the document `{"h0":"v0",...}`, written as is.
pub open spec fn csv_object(headers: Seq<Seq<char>>, record: Seq<Seq<char>>) -> Seq<char> {
    seq!['{'] + csv_fields(headers, record, record.len()) + seq!['}']
}

fn digit_of(d: usize) -> (r: char)
    requires
        d < 10,
    ensures
        r == digit_char(d as nat),
{
    if d == 0 { '0' } else if d == 1 { '1' } else if d == 2 { '2' } else if d == 3 { '3' } else if d == 4 { '4' }
    else if d == 5 { '5' } else if d == 6 { '6' } else if d == 7 { '7' } else if d == 8 { '8' } else { '9' }
}

fn push_decimal(out: &mut Vec<char>, n: usize)
    ensures
        final(out)@ == old(out)@ + decimal(n as nat),
    decreases n,
{
    if n >= 10 {
        push_decimal(out, n / 10);
    }
    out.push(digit_of(n % 10));
    assert(final(out)@ =~= old(out)@ + decimal(n as nat));
}

fn push_all(out: &mut Vec<char>, s: &Vec<char>)
    ensures
        final(out)@ == old(out)@ + s@,
{
    let ghost start = out@;
    let mut i: usize = 0;
    while i < s.len()
        invariant
            i <= s@.len(),
            out@ == start + s@.take(i as int),
        decreases s@.len() - i,
    {
        out.push(s[i]);
        assert(out@ =~= start + s@.take(i + 1));
        i = i + 1;
    }
    assert(s@.take(i as int) =~= s@);
}

/// The change that imports one CSV record into `table`: the row whose id
/// is the record's first field, holding `{"h0":"v0",...}` in a register.
/// An empty record has no id and is refused.
pub fn csv_row_change(table: &str, headers: &Vec<String>, record: &Vec<String>) -> (r: Result<Change, BranchDBError>)
    ensures
        r is Ok <==> record@.len() > 0,
        r matches Ok(c) ==> c@ == (ChangeV::Insert {
            table: table@,
            id: record@[0]@,
            value: enc_value(ValueV::Register(encode_utf8(csv_object(strings_view(headers@), strings_view(record@))))),
        }),
        r matches Err(e) ==> e is InvalidInput,
{
    if record.len() == 0 {
        return Err(invalid("CSV missing ID column"));
    }
    let ghost hv = strings_view(headers@);
    let ghost rv = strings_view(record@);
    let mut out: Vec<char> = vec!['{'];
    let mut i: usize = 0;
    assert(out@ =~= seq!['{'] + csv_fields(hv, rv, 0));
    while i < record.len()
        invariant
            hv == strings_view(headers@),
            rv == strings_view(record@),
            i <= rv.len(),
            out@ == seq!['{'] + csv_fields(hv, rv, i as nat),
        decreases rv.len() - i,
    {
        let ghost before = out@;
        if i > 0 {
            out.push(',');
        }
        out.push('"');
        if i < headers.len() {
            push_all(&mut out, &chars_of(headers[i].as_str()));
        } else {
            push_decimal(&mut out, i);
        }
        out.push('"');
        out.push(':');
        out.push('"');
        push_all(&mut out, &chars_of(record[i].as_str()));
        out.push('"');
        proof {
            let sep: Seq<char> = if i > 0 { seq![','] } else { Seq::empty() };
            assert(out@ =~= before + sep + csv_entry(hv, rv, i as int));
            if i > 0 {
                assert(csv_fields(hv, rv, (i + 1) as nat) == csv_fields(hv, rv, i as nat) + seq![','] + csv_entry(hv, rv, i as int));
                assert(out@ =~= seq!['{'] + csv_fields(hv, rv, (i + 1) as nat));
            } else {
                assert(out@ =~= seq!['{'] + csv_fields(hv, rv, (i + 1) as nat));
            }
        }
        i = i + 1;
    }
    out.push('}');
    assert(out@ =~= csv_object(hv, rv));
    let text = text_from(&out);
    let bytes = slice_to_vec(text.as_str().as_bytes());
    let value = encode_payload(&CrdtValue::Register(bytes));
    Ok(Change::Insert { table: table.to_owned(), id: record[0].clone(), value })
}

/// Whether an import commits after the record at index `i`: after every
/// hundredth record, not after the first.
pub fn flush_after(i: usize) -> (r: bool)
    ensures
        r == (i % 100 == 0 && i > 0),
{
    i % 100 == 0 && i > 0
}

/// The value of a run of decimal digits.
pub open spec fn digits_value(s: Seq<char>) -> int
    decreases s.len(),
{
    if s.len() == 0 { 0 } else { digits_value(s.drop_last()) * 10 + (s.last() as int - '0' as int) }
}

pub open spec fn all_digits(s: Seq<char>) -> bool {
    forall|i: int| 0 <= i < s.len() ==> '0' <= #[trigger] s[i] && s[i] <= '9'
}

/// `s` is the text of a 64-bit signed integer: an optional sign, then one or
/// more decimal digits, within range.
pub open spec fn is_i64_text(s: Seq<char>) -> bool {
    let neg = s.len() > 0 && s[0] == '-';
    let body = if s.len() > 0 && (s[0] == '-' || s[0] == '+') { s.drop_first() } else { s };
    &&& body.len() > 0
    &&& all_digits(body)
    &&& if neg { digits_value(body) <= 9223372036854775808 } else { digits_value(body) <= 9223372036854775807 }
}

/// The code of `c` with ASCII capitals lowered.
pub open spec fn ascii_lower(c: char) -> u32 {
    if 'A' <= c && c <= 'Z' { ((c as u32) + 32) as u32 } else { c as u32 }
}

/// `s` equals `w` ignoring ASCII case.
pub open spec fn same_ignoring_case(s: Seq<char>, w: Seq<char>) -> bool {
    s.len() == w.len() && forall|i: int| 0 <= i < s.len() ==> ascii_lower(#[trigger] s[i]) == ascii_lower(w[i])
}

/// What a value must be for a column type.
#[derive(Debug, Clone, Copy, PartialEq, Eq)]
pub enum TypeCheck {
    /// The value fits the type.
    Accepted,
    /// The type is a floating-point one; the value must parse as a float.
    NeedsFloat,
}

proof fn lemma_digits_bound(s: Seq<char>)
    requires
        all_digits(s),
    ensures
        0 <= digits_value(s),
        digits_value(s.drop_last()) * 10 <= digits_value(s) || s.len() == 0,
    decreases s.len(),
{
    if s.len() > 0 {
        assert(all_digits(s.drop_last())) by {
            assert forall|i: int| 0 <= i < s.drop_last().len() implies '0' <= #[trigger] s.drop_last()[i] && s.drop_last()[i] <= '9' by {
                assert(s.drop_last()[i] == s[i]);
            }
        }
        lemma_digits_bound(s.drop_last());
        assert('0' <= s[s.len() - 1]);
    }
}

proof fn lemma_digits_grow(s: Seq<char>, t: Seq<char>)
    requires
        all_digits(t),
        s.len() <= t.len(),
        s == t.take(s.len() as int),
    ensures
        digits_value(s) <= digits_value(t),
    decreases t.len() - s.len(),
{
    if s.len() < t.len() {
        let t2 = t.drop_last();
        assert(t2.take(s.len() as int) =~= s);
        assert(all_digits(t2)) by {
            assert forall|i: int| 0 <= i < t2.len() implies '0' <= #[trigger] t2[i] && t2[i] <= '9' by {
                assert(t2[i] == t[i]);
            }
        }
        lemma_digits_grow(s, t2);
        lemma_digits_bound(t);
        lemma_digits_bound(t2);
        let v2 = digits_value(t2);
        assert(v2 <= v2 * 10) by (nonlinear_arith)
            requires v2 >= 0;
    } else {
        assert(t.take(t.len() as int) =~= t);
    }
}

/// Whether `s` is the text of a 64-bit signed integer.
pub fn i64_text(s: &str) -> (r: bool)
    ensures
        r == is_i64_text(s@),
{
    let c = chars_of(s);
    let n = c.len();
    let neg = n > 0 && c[0] == '-';
    let start: usize = if n > 0 && (c[0] == '-' || c[0] == '+') { 1 } else { 0 };
    let ghost body = c@.skip(start as int);
    assert(body =~= if s@.len() > 0 && (s@[0] == '-' || s@[0] == '+') { s@.drop_first() } else { s@ });
    if start >= n {
        return false;
    }
    let limit: u64 = if neg { 9223372036854775808 } else { 9223372036854775807 };
    let mut value: u64 = 0;
    let mut i: usize = start;
    assert(body.take(0) =~= Seq::<char>::empty());
    while i < n
        invariant
            n == c@.len(),
            c@ == s@,
            start <= i <= n,
            start < n,
            body == c@.skip(start as int),
            body == (if s@.len() > 0 && (s@[0] == '-' || s@[0] == '+') { s@.drop_first() } else { s@ }),
            neg == (s@.len() > 0 && s@[0] == '-'),
            limit == (if neg { 9223372036854775808u64 } else { 9223372036854775807u64 }),
            all_digits(body.take(i - start)),
            value as int == digits_value(body.take(i - start)),
            value <= limit,
            limit <= 9223372036854775808,
            limit >= 9223372036854775807,
        decreases n - i,
    {
        let ch = c[i];
        let ghost pre = body.take(i - start);
        let ghost next = body.take(i - start + 1);
        assert(next.drop_last() =~= pre);
        assert(next.last() == ch);
        if ch < '0' || ch > '9' {
            let ghost j: int = i - start;
            assert(body[j] == ch);
            assert(!all_digits(body));
            return false;
        }
        let d = (ch as u32 - '0' as u32) as u64;
        assert(d <= 9);
        assert(all_digits(next)) by {
            assert forall|j: int| 0 <= j < next.len() implies '0' <= #[trigger] next[j] && next[j] <= '9' by {
                if j < pre.len() {
                    assert(next[j] == pre[j]);
                }
            }
        }
        if value > (limit - d) / 10 {
            proof {
                assert(digits_value(next) == value * 10 + d);
                assert(value * 10 + d > limit) by (nonlinear_arith)
                    requires value > (limit - d) / 10, d <= 9, limit >= 9;
                if all_digits(body) {
                    lemma_digits_grow(next, body);
                }
            }
            return false;
        }
        assert(value * 10 + d <= limit) by (nonlinear_arith)
            requires value <= (limit - d) / 10, d <= 9, limit >= 9;
        value = value * 10 + d;
        i = i + 1;
    }
    assert(body.take(n - start) =~= body);
    true
}

fn lower_char(c: char) -> (r: u32)
    ensures
        r == ascii_lower(c),
{
    if 'A' <= c && c <= 'Z' { c as u32 + 32 } else { c as u32 }
}

/// Whether `s` equals `w` ignoring ASCII case.
pub fn eq_ignoring_case(s: &str, w: &str) -> (r: bool)
    ensures
        r == same_ignoring_case(s@, w@),
{
    let a = chars_of(s);
    let b = chars_of(w);
    if a.len() != b.len() {
        return false;
    }
    let mut i: usize = 0;
    while i < a.len()
        invariant
            a@.len() == b@.len(),
            a@ == s@,
            b@ == w@,
            i <= a@.len(),
            forall|j: int| 0 <= j < i ==> ascii_lower(#[trigger] a@[j]) == ascii_lower(b@[j]),
        decreases a@.len() - i,
    {
        if lower_char(a[i]) != lower_char(b[i]) {
            return false;
        }
        i = i + 1;
    }
    true
}

/// Checks a value against a column type named in any case: INTEGER or INT
/// ask for a 64-bit integer, BOOLEAN or BOOL for `true` or `false` in any
/// ASCII case, FLOAT or REAL for a float (left to the caller); any other
/// type accepts every value.
pub fn validate_value_type(value: &str, expected_type: &str) -> (r: Result<TypeCheck, BranchDBError>)
    ensures
        ({
            let t = upper_of(expected_type@);
            if t == "INTEGER"@ || t == "INT"@ {
                if is_i64_text(value@) { r == Ok::<TypeCheck, BranchDBError>(TypeCheck::Accepted) } else { r matches Err(e) && e is TypeMismatch }
            } else if t == "FLOAT"@ || t == "REAL"@ {
                r == Ok::<TypeCheck, BranchDBError>(TypeCheck::NeedsFloat)
            } else if t == "BOOLEAN"@ || t == "BOOL"@ {
                if same_ignoring_case(value@, "true"@) || same_ignoring_case(value@, "false"@) {
                    r == Ok::<TypeCheck, BranchDBError>(TypeCheck::Accepted)
                } else {
                    r matches Err(e) && e is TypeMismatch
                }
            } else {
                r == Ok::<TypeCheck, BranchDBError>(TypeCheck::Accepted)
            }
        }),
{
    let t = uppercase(expected_type);
    if t == "INTEGER".to_owned() || t == "INT".to_owned() {
        if i64_text(value) {
            Ok(TypeCheck::Accepted)
        } else {
            Err(BranchDBError::TypeMismatch("Expected integer".to_owned()))
        }
    } else if t == "FLOAT".to_owned() || t == "REAL".to_owned() {
        Ok(TypeCheck::NeedsFloat)
    } else if t == "BOOLEAN".to_owned() || t == "BOOL".to_owned() {
        if eq_ignoring_case(value, "true") || eq_ignoring_case(value, "false") {
            Ok(TypeCheck::Accepted)
        } else {
            Err(BranchDBError::TypeMismatch("Expected boolean".to_owned()))
        }
    } else {
        Ok(TypeCheck::Accepted)
    }
}

} // verus!
