//! A scanner for Solidity-like schema sources: it finds `struct` blocks and
//! records each one's position, name and typed fields.
//!
//! Positions are character indices into the source. Fields are expected one
//! per line, indented by a single tab, as `<type> <name>;`.
use vstd::prelude::*;
use vstd::string::*;

verus! {

/// Column type that a schema field maps to.
#[derive(PartialEq, Eq, Structural, Clone, Copy, Debug)]
pub enum FieldType {
    Varchar,
    Numeric,
}

/// SQL spelling of a column type.
pub open spec fn field_type_name(t: FieldType) -> Seq<char> {
    match t {
        FieldType::Varchar => "VARCHAR"@,
        FieldType::Numeric => "NUMERIC"@,
    }
}

pub fn field_type_as_str(type_ident: &FieldType) -> (r: &'static str)
    ensures
        r@ == field_type_name(*type_ident),
{
    match type_ident {
        FieldType::Varchar => "VARCHAR",
        FieldType::Numeric => "NUMERIC",
    }
}

/// One named, typed field of a struct.
pub struct Field {
    pub name: String,
    pub kind: FieldType,
}

/// A struct found in the source. `start` is the index of the `struct`
/// keyword and `end` that of the closing brace. `fields` holds the fields as
/// `field_insert` places them: strictly ascending by name as `String`
/// orders (see `fields_ascending`), a later field of the same name replacing
/// the earlier one.
pub struct StructCtx {
    pub start: usize,
    pub end: usize,
    pub label: String,
    pub fields: Vec<Field>,
}

/// Mathematical model of a scanned struct.
pub struct StructSpec {
    pub start: int,
    pub end: int,
    pub label: Seq<char>,
    pub fields: Seq<(Seq<char>, FieldType)>,
}

pub open spec fn fields_view(fs: Seq<Field>) -> Seq<(Seq<char>, FieldType)> {
    fs.map_values(|f: Field| (f.name@, f.kind))
}

impl StructCtx {
    /// The field names are strictly ascending.
    pub open spec fn fields_ascending(&self) -> bool {
        names_ascending(fields_view(self.fields@))
    }
}

impl View for StructCtx {
    type V = StructSpec;

    open spec fn view(&self) -> StructSpec {
        StructSpec {
            start: self.start as int,
            end: self.end as int,
            label: self.label@,
            fields: fields_view(self.fields@),
        }
    }
}

/// Why a source could not be scanned.
#[derive(Debug)]
pub enum ParseError {
    /// The source ended inside a comment or a pragma line.
    UnexpectedEnd,
    /// A field's type is none of the known Solidity types.
    UnknownType(String),
    /// A NUL character stands inside a struct body.
    UnclosedBrackets,
    /// The opening brace leaves no room for a struct name.
    MissingName,
    /// A space stands where no field type can end.
    MalformedField,
}

/// Model of a `ParseError`.
pub enum Fault {
    UnexpectedEnd,
    UnknownType(Seq<char>),
    UnclosedBrackets,
    MissingName,
    MalformedField,
}

impl View for ParseError {
    type V = Fault;

    open spec fn view(&self) -> Fault {
        match self {
            ParseError::UnexpectedEnd => Fault::UnexpectedEnd,
            ParseError::UnknownType(t) => Fault::UnknownType(t@),
            ParseError::UnclosedBrackets => Fault::UnclosedBrackets,
            ParseError::MissingName => Fault::MissingName,
            ParseError::MalformedField => Fault::MalformedField,
        }
    }
}

/// Index of the first newline at or after `i`.
pub open spec fn line_end(s: Seq<char>, i: int) -> Result<int, Fault>
    decreases s.len() - i,
{
    if i < 0 || i >= s.len() {
        Err(Fault::UnexpectedEnd)
    } else if s[i] == '\n' {
        Ok(i)
    } else {
        line_end(s, i + 1)
    }
}

/// Where scanning goes on after a `//` comment that may start at `i`.
pub open spec fn skip_comment(s: Seq<char>, i: int) -> Result<int, Fault> {
    if s[i] == '/' {
        if i + 1 >= s.len() {
            Err(Fault::UnexpectedEnd)
        } else if s[i + 1] == '/' {
            line_end(s, i + 1)
        } else {
            Ok(i)
        }
    } else {
        Ok(i)
    }
}

/// Whether the six characters at `i` spell `word`.
pub open spec fn word_at(s: Seq<char>, i: int, word: Seq<char>) -> bool {
    i + 6 <= s.len() && s.subrange(i, i + 6) == word
}

/// Where scanning goes on after a `pragma` line that may start at `i`.
pub open spec fn skip_pragma(s: Seq<char>, i: int) -> Result<int, Fault> {
    if word_at(s, i, "pragma"@) {
        line_end(s, i + 6)
    } else {
        Ok(i)
    }
}

/// The column type of a Solidity type name, if it has one.
pub open spec fn sol_field_type(t: Seq<char>) -> Option<FieldType> {
    if t == "uint"@ || t == "uint8"@ || t == "uint16"@ || t == "uint32"@ || t == "uint64"@
        || t == "uint128"@ || t == "uint256"@ {
        Some(FieldType::Numeric)
    } else if t == "address"@ {
        Some(FieldType::Varchar)
    } else {
        None
    }
}

/// Lexicographic order by code point, compared from index `k` on, assuming
/// `a` and `b` agree before `k`.
pub open spec fn lex_lt_from(a: Seq<char>, b: Seq<char>, k: int) -> bool
    decreases a.len() - k,
{
    if k < 0 || k >= a.len() {
        0 <= k < b.len()
    } else if k >= b.len() {
        false
    } else if a[k] != b[k] {
        (a[k] as int) < (b[k] as int)
    } else {
        lex_lt_from(a, b, k + 1)
    }
}

/// Lexicographic order by code point: the order of `String`.
pub open spec fn lex_lt(a: Seq<char>, b: Seq<char>) -> bool {
    lex_lt_from(a, b, 0)
}

proof fn lemma_lex_trans(a: Seq<char>, b: Seq<char>, c: Seq<char>, k: int)
    requires
        0 <= k,
        lex_lt_from(a, b, k),
        lex_lt_from(b, c, k),
    ensures
        lex_lt_from(a, c, k),
    decreases a.len() - k,
{
    if k < a.len() && k < b.len() && k < c.len() && a[k] == b[k] && b[k] == c[k] {
        lemma_lex_trans(a, b, c, k + 1);
    }
}

/// Strictly ascending names are pairwise distinct.
pub proof fn lemma_ascending_unique(fs: Seq<(Seq<char>, FieldType)>)
    requires
        names_ascending(fs),
    ensures
        forall|i: int, j: int| 0 <= i < j < fs.len() ==> #[trigger] fs[i].0 != #[trigger] fs[j].0,
{
    assert forall|i: int, j: int| 0 <= i < j < fs.len() implies #[trigger] fs[i].0
        != #[trigger] fs[j].0 by {
        lemma_lex_irrefl(fs[i].0, 0);
    }
}

proof fn lemma_lex_irrefl(a: Seq<char>, k: int)
    requires
        0 <= k,
    ensures
        !lex_lt_from(a, a, k),
    decreases a.len() - k,
{
    if k < a.len() {
        lemma_lex_irrefl(a, k + 1);
    }
}

proof fn lemma_lex_total(a: Seq<char>, b: Seq<char>, k: int)
    requires
        0 <= k <= a.len(),
        k <= b.len(),
        forall|j: int| 0 <= j < k ==> a[j] == b[j],
    ensures
        a == b || lex_lt_from(a, b, k) || lex_lt_from(b, a, k),
    decreases a.len() - k,
{
    if k == a.len() && k == b.len() {
        assert(a =~= b);
    } else if k < a.len() && k < b.len() {
        if a[k] == b[k] {
            lemma_lex_total(a, b, k + 1);
        } else {
            assert((a[k] as int) != (b[k] as int));
        }
    }
}

/// Names strictly ascending in the order of `String`: sorted, and each name
/// at most once.
pub open spec fn names_ascending(fs: Seq<(Seq<char>, FieldType)>) -> bool {
    forall|i: int, j: int| 0 <= i < j < fs.len() ==> lex_lt(#[trigger] fs[i].0, #[trigger] fs[j].0)
}

/// A name below `k` and below every name of `fs` is below every name of the
/// list after inserting `k`.
proof fn lemma_insert_lower_bound(
    fs: Seq<(Seq<char>, FieldType)>,
    k: Seq<char>,
    t: FieldType,
    m: Seq<char>,
)
    requires
        lex_lt(m, k),
        forall|j: int| 0 <= j < fs.len() ==> lex_lt(m, #[trigger] fs[j].0),
    ensures
        forall|i: int|
            0 <= i < field_insert(fs, k, t).len() ==> lex_lt(m, #[trigger] field_insert(fs, k, t)[i].0),
    decreases fs.len(),
{
    if fs.len() > 0 && fs[0].0 != k && !lex_lt(k, fs[0].0) {
        let rest = fs.drop_first();
        assert forall|j: int| 0 <= j < rest.len() implies lex_lt(m, #[trigger] rest[j].0) by {
            assert(rest[j] == fs[j + 1]);
        }
        lemma_insert_lower_bound(rest, k, t, m);
        let r = field_insert(fs, k, t);
        assert forall|i: int| 0 <= i < r.len() implies lex_lt(m, #[trigger] r[i].0) by {
            if i > 0 {
                assert(r[i] == field_insert(rest, k, t)[i - 1]);
            }
        }
    }
}

/// Inserting keeps the names strictly ascending.
proof fn lemma_insert_ascending(fs: Seq<(Seq<char>, FieldType)>, k: Seq<char>, t: FieldType)
    requires
        names_ascending(fs),
    ensures
        names_ascending(field_insert(fs, k, t)),
    decreases fs.len(),
{
    let r = field_insert(fs, k, t);
    if fs.len() == 0 {
    } else if fs[0].0 == k {
        assert forall|i: int, j: int| 0 <= i < j < r.len() implies lex_lt(
            #[trigger] r[i].0,
            #[trigger] r[j].0,
        ) by {
            assert(r[i].0 == fs[i].0);
            assert(r[j].0 == fs[j].0);
        }
    } else if lex_lt(k, fs[0].0) {
        assert forall|i: int, j: int| 0 <= i < j < r.len() implies lex_lt(
            #[trigger] r[i].0,
            #[trigger] r[j].0,
        ) by {
            if i == 0 {
                assert(r[j] == fs[j - 1]);
                if j > 1 {
                    assert(lex_lt(fs[0].0, fs[j - 1].0));
                    lemma_lex_trans(k, fs[0].0, fs[j - 1].0, 0);
                }
            } else {
                assert(r[i] == fs[i - 1]);
                assert(r[j] == fs[j - 1]);
            }
        }
    } else {
        let rest = fs.drop_first();
        assert(names_ascending(rest)) by {
            assert forall|i: int, j: int| 0 <= i < j < rest.len() implies lex_lt(
                #[trigger] rest[i].0,
                #[trigger] rest[j].0,
            ) by {
                assert(rest[i] == fs[i + 1]);
                assert(rest[j] == fs[j + 1]);
            }
        }
        lemma_insert_ascending(rest, k, t);
        lemma_lex_total(k, fs[0].0, 0);
        assert forall|j: int| 0 <= j < rest.len() implies lex_lt(fs[0].0, #[trigger] rest[j].0) by {
            assert(rest[j] == fs[j + 1]);
        }
        lemma_insert_lower_bound(rest, k, t, fs[0].0);
        let r2 = field_insert(rest, k, t);
        assert forall|i: int, j: int| 0 <= i < j < r.len() implies lex_lt(
            #[trigger] r[i].0,
            #[trigger] r[j].0,
        ) by {
            assert(r[j] == r2[j - 1]);
            if i > 0 {
                assert(r[i] == r2[i - 1]);
            }
        }
    }
}

/// Inserts `(k, t)` into a list sorted by name, replacing an entry of the
/// same name.
pub open spec fn field_insert(
    fs: Seq<(Seq<char>, FieldType)>,
    k: Seq<char>,
    t: FieldType,
) -> Seq<(Seq<char>, FieldType)>
    decreases fs.len(),
{
    if fs.len() == 0 {
        seq![(k, t)]
    } else if fs[0].0 == k {
        fs.update(0, (k, t))
    } else if lex_lt(k, fs[0].0) {
        seq![(k, t)] + fs
    } else {
        seq![fs[0]] + field_insert(fs.drop_first(), k, t)
    }
}

/// Text of the current field type: the characters in `ty`, or `null` where
/// none was seen yet.
pub open spec fn type_text(s: Seq<char>, ty: Option<(int, int)>) -> Seq<char> {
    match ty {
        Some((a, b)) => s.subrange(a, b),
        None => "null"@,
    }
}

/// Scans a struct body from index `k`. `ts` is where the next field type
/// starts, `ty` the last field type seen, `ls` where the last field name
/// starts, `fs` the fields so far. `Ok(None)`: the source ended first;
/// `Ok(Some((e, fs)))`: the closing brace stands at `e`.
pub open spec fn scan_fields(
    s: Seq<char>,
    k: int,
    ts: int,
    ty: Option<(int, int)>,
    ls: int,
    fs: Seq<(Seq<char>, FieldType)>,
) -> Result<Option<(int, Seq<(Seq<char>, FieldType)>)>, Fault>
    decreases s.len() - k,
{
    if k < 0 || k >= s.len() {
        Ok(None)
    } else if s[k] == '\0' {
        Err(Fault::UnclosedBrackets)
    } else if s[k] == '}' {
        Ok(Some((k, fs)))
    } else if s[k] == ' ' {
        if ts > k {
            Err(Fault::MalformedField)
        } else {
            scan_fields(s, k + 1, ts, Some((ts, k)), k + 1, fs)
        }
    } else if s[k] == ';' {
        match sol_field_type(type_text(s, ty)) {
            None => Err(Fault::UnknownType(type_text(s, ty))),
            Some(t) => scan_fields(s, k + 1, ts, ty, ls, field_insert(fs, s.subrange(ls, k), t)),
        }
    } else if s[k] == '\n' {
        scan_fields(s, k + 1, k + 2, ty, ls, fs)
    } else {
        scan_fields(s, k + 1, ts, ty, ls, fs)
    }
}

/// Index of the first `{` at or after `j`.
pub open spec fn find_brace(s: Seq<char>, j: int) -> Option<int>
    decreases s.len() - j,
{
    if j < 0 || j >= s.len() {
        None
    } else if s[j] == '{' {
        Some(j)
    } else {
        find_brace(s, j + 1)
    }
}

/// Outcome of looking for a struct at one position.
pub enum Scan {
    /// The source ended inside the struct: scanning stops.
    Stop,
    /// Scanning goes on after the index, having found the struct if any.
    Next(int, Option<StructSpec>),
}

/// Looks for a struct that starts at `i`.
pub open spec fn scan_struct(s: Seq<char>, i: int) -> Result<Scan, Fault> {
    if word_at(s, i, "struct"@) {
        match find_brace(s, i + 7) {
            None => Ok(Scan::Stop),
            Some(b) => if b - 1 < i + 7 {
                Err(Fault::MissingName)
            } else {
                match scan_fields(s, b, b, None, 0, seq![]) {
                    Err(f) => Err(f),
                    Ok(None) => Ok(Scan::Stop),
                    Ok(Some((e, fs))) => Ok(
                        Scan::Next(
                            e,
                            Some(
                                StructSpec {
                                    start: i,
                                    end: e,
                                    label: s.subrange(i + 7, b - 1),
                                    fields: fs,
                                },
                            ),
                        ),
                    ),
                }
            },
        }
    } else {
        Ok(Scan::Next(i, None))
    }
}

/// Scans the source from index `i`, `acc` holding the structs found so far.
pub open spec fn parse_from(s: Seq<char>, i: int, acc: Seq<StructSpec>) -> Result<
    Seq<StructSpec>,
    Fault,
>
    decreases s.len() - i,
    via parse_from_decreases
{
    if i < 0 || i >= s.len() {
        Ok(acc)
    } else {
        match skip_comment(s, i) {
            Err(f) => Err(f),
            Ok(i1) => match skip_pragma(s, i1) {
                Err(f) => Err(f),
                Ok(i2) => match scan_struct(s, i2) {
                    Err(f) => Err(f),
                    Ok(Scan::Stop) => Ok(acc),
                    Ok(Scan::Next(i3, found)) => parse_from(
                        s,
                        i3 + 1,
                        match found {
                            Some(st) => acc.push(st),
                            None => acc,
                        },
                    ),
                },
            },
        }
    }
}

/// The structs of a whole source, or why it cannot be scanned.
pub open spec fn parse_model(s: Seq<char>) -> Result<Seq<StructSpec>, Fault> {
    parse_from(s, 0, seq![])
}

proof fn lemma_line_end_after(s: Seq<char>, i: int)
    ensures
        line_end(s, i) is Ok ==> i <= line_end(s, i)->Ok_0 < s.len(),
    decreases s.len() - i,
{
    if 0 <= i < s.len() && s[i] != '\n' {
        lemma_line_end_after(s, i + 1);
    }
}

proof fn lemma_scan_fields_after(
    s: Seq<char>,
    k: int,
    ts: int,
    ty: Option<(int, int)>,
    ls: int,
    fs: Seq<(Seq<char>, FieldType)>,
)
    ensures
        scan_fields(s, k, ts, ty, ls, fs) matches Ok(Some((e, _))) ==> k <= e < s.len(),
    decreases s.len() - k,
{
    if 0 <= k < s.len() && s[k] != '\0' && s[k] != '}' {
        if s[k] == ' ' {
            if ts <= k {
                lemma_scan_fields_after(s, k + 1, ts, Some((ts, k)), k + 1, fs);
            }
        } else if s[k] == ';' {
            if let Some(t) = sol_field_type(type_text(s, ty)) {
                lemma_scan_fields_after(s, k + 1, ts, ty, ls, field_insert(fs, s.subrange(ls, k), t));
            }
        } else if s[k] == '\n' {
            lemma_scan_fields_after(s, k + 1, k + 2, ty, ls, fs);
        } else {
            lemma_scan_fields_after(s, k + 1, ts, ty, ls, fs);
        }
    }
}

proof fn lemma_find_brace_after(s: Seq<char>, j: int)
    ensures
        find_brace(s, j) matches Some(b) ==> j <= b < s.len() && s[b] == '{',
    decreases s.len() - j,
{
    if 0 <= j < s.len() && s[j] != '{' {
        lemma_find_brace_after(s, j + 1);
    }
}

proof fn lemma_scan_struct_after(s: Seq<char>, i: int)
    ensures
        0 <= i < s.len() ==> (scan_struct(s, i) matches Ok(Scan::Next(k, _)) ==> i <= k < s.len()),
{
    lemma_find_brace_after(s, i + 7);
    if let Some(b) = find_brace(s, i + 7) {
        lemma_scan_fields_after(s, b, b, None, 0, seq![]);
    }
}

proof fn lemma_scan_fields_ascending(
    s: Seq<char>,
    k: int,
    ts: int,
    ty: Option<(int, int)>,
    ls: int,
    fs: Seq<(Seq<char>, FieldType)>,
)
    requires
        names_ascending(fs),
    ensures
        scan_fields(s, k, ts, ty, ls, fs) matches Ok(Some((_, f))) ==> names_ascending(f),
    decreases s.len() - k,
{
    if 0 <= k < s.len() && s[k] != '\0' && s[k] != '}' {
        if s[k] == ' ' {
            if ts <= k {
                lemma_scan_fields_ascending(s, k + 1, ts, Some((ts, k)), k + 1, fs);
            }
        } else if s[k] == ';' {
            if let Some(t) = sol_field_type(type_text(s, ty)) {
                lemma_insert_ascending(fs, s.subrange(ls, k), t);
                lemma_scan_fields_ascending(
                    s,
                    k + 1,
                    ts,
                    ty,
                    ls,
                    field_insert(fs, s.subrange(ls, k), t),
                );
            }
        } else if s[k] == '\n' {
            lemma_scan_fields_ascending(s, k + 1, k + 2, ty, ls, fs);
        } else {
            lemma_scan_fields_ascending(s, k + 1, ts, ty, ls, fs);
        }
    }
}

/// Every struct's field names are strictly ascending.
pub open spec fn all_ascending(ss: Seq<StructSpec>) -> bool {
    forall|i: int| 0 <= i < ss.len() ==> names_ascending(#[trigger] ss[i].fields)
}

proof fn lemma_parse_from_ascending(s: Seq<char>, i: int, acc: Seq<StructSpec>)
    requires
        all_ascending(acc),
    ensures
        parse_from(s, i, acc) matches Ok(r) ==> all_ascending(r),
    decreases s.len() - i,
{
    if 0 <= i < s.len() {
        if let Ok(i1) = skip_comment(s, i) {
            lemma_line_end_after(s, i + 1);
            lemma_line_end_after(s, i1 + 6);
            if let Ok(i2) = skip_pragma(s, i1) {
                lemma_scan_struct_after(s, i2);
                if let Ok(Scan::Next(i3, found)) = scan_struct(s, i2) {
                    let next = match found {
                        Some(st) => acc.push(st),
                        None => acc,
                    };
                    if let Some(st) = found {
                        lemma_find_brace_after(s, i2 + 7);
                        let b = find_brace(s, i2 + 7)->Some_0;
                        lemma_scan_fields_ascending(s, b, b, None, 0, seq![]);
                        assert(all_ascending(next)) by {
                            assert forall|j: int| 0 <= j < next.len() implies names_ascending(
                                #[trigger] next[j].fields,
                            ) by {
                                if j < acc.len() {
                                    assert(next[j] == acc[j]);
                                }
                            }
                        }
                    }
                    lemma_parse_from_ascending(s, i3 + 1, next);
                }
            }
        }
    }
}

#[via_fn]
proof fn parse_from_decreases(s: Seq<char>, i: int, acc: Seq<StructSpec>) {
    if 0 <= i < s.len() {
        if let Ok(i1) = skip_comment(s, i) {
            lemma_line_end_after(s, i + 1);
            lemma_line_end_after(s, i1 + 6);
            if let Ok(i2) = skip_pragma(s, i1) {
                lemma_scan_struct_after(s, i2);
                if let Ok(Scan::Next(i3, _)) = scan_struct(s, i2) {
                    assert(i <= i1 <= i2 <= i3 < s.len());
                }
            }
        }
    }
}

pub open spec fn structs_view(v: Seq<StructCtx>) -> Seq<StructSpec> {
    v.map_values(|c: StructCtx| c@)
}

spec fn idx_outcome(r: Result<(), ParseError>, idx: usize, m: Result<int, Fault>) -> bool {
    match m {
        Ok(k) => r is Ok && idx as int == k,
        Err(f) => r is Err && r->Err_0@ == f,
    }
}

spec fn ty_view(ty: Option<(usize, usize)>) -> Option<(int, int)> {
    match ty {
        Some((a, b)) => Some((a as int, b as int)),
        None => None,
    }
}

/// Whether `a` and `b` hold the same characters.
pub(crate) fn str_eq(a: &str, b: &str) -> (r: bool)
    ensures
        r == (a@ == b@),
{
    let n = a.unicode_len();
    if n != b.unicode_len() {
        return false;
    }
    let mut i: usize = 0;
    while i < n
        invariant
            n == a@.len(),
            n == b@.len(),
            i <= n,
            forall|j: int| 0 <= j < i ==> a@[j] == b@[j],
        decreases n - i,
    {
        if a.get_char(i) != b.get_char(i) {
            return false;
        }
        i = i + 1;
    }
    assert(a@ =~= b@);
    true
}

/// Whether `a` comes before `b` in the order of `String`.
fn str_lt(a: &str, b: &str) -> (r: bool)
    ensures
        r == lex_lt(a@, b@),
{
    let na = a.unicode_len();
    let nb = b.unicode_len();
    let mut k: usize = 0;
    while k < na && k < nb
        invariant
            na == a@.len(),
            nb == b@.len(),
            k <= na,
            k <= nb,
            lex_lt(a@, b@) == lex_lt_from(a@, b@, k as int),
        decreases na - k,
    {
        let ca = a.get_char(k);
        let cb = b.get_char(k);
        if ca != cb {
            return (ca as u32) < (cb as u32);
        }
        k = k + 1;
    }
    k < nb
}

/// Inserts a field into a list sorted by name, replacing one of the same name.
fn insert_field(fields: &mut Vec<Field>, name: String, kind: FieldType)
    ensures
        fields_view(final(fields)@) == field_insert(fields_view(old(fields)@), name@, kind),
{
    let ghost v = fields_view(fields@);
    let n = fields.len();
    let mut p: usize = 0;
    assert(v.take(0) =~= Seq::<(Seq<char>, FieldType)>::empty());
    assert(v.skip(0) =~= v);
    while p < n
        invariant
            n == fields@.len(),
            fields@ == old(fields)@,
            v == fields_view(fields@),
            p <= n,
            field_insert(v, name@, kind) == v.take(p as int) + field_insert(
                v.skip(p as int),
                name@,
                kind,
            ),
        decreases n - p,
    {
        let cur: &str = fields[p].name.as_str();
        assert(v.skip(p as int)[0] == v[p as int]);
        if str_eq(cur, name.as_str()) {
            let _ = fields.remove(p);
            fields.insert(p, Field { name, kind });
            assert(fields_view(fields@) =~= v.take(p as int) + v.skip(p as int).update(
                0,
                (name@, kind),
            ));
            return;
        }
        if str_lt(name.as_str(), cur) {
            let ghost k = name@;
            fields.insert(p, Field { name, kind });
            assert(fields_view(fields@) =~= v.take(p as int) + (seq![(k, kind)] + v.skip(
                p as int,
            )));
            return;
        }
        assert(v.skip(p as int).drop_first() =~= v.skip(p as int + 1));
        assert(v.take(p as int) + seq![v[p as int]] =~= v.take(p as int + 1));
        p = p + 1;
    }
    let ghost k = name@;
    fields.push(Field { name, kind });
    assert(v.skip(n as int) =~= Seq::<(Seq<char>, FieldType)>::empty());
    assert(fields_view(fields@) =~= v.take(n as int) + seq![(k, kind)]);
}

/// Moves `idx` to the next newline.
fn skip_to_newline(s: &str, len: usize, idx: &mut usize) -> (r: Result<(), ParseError>)
    requires
        len == s@.len(),
    ensures
        idx_outcome(r, *final(idx), line_end(s@, *old(idx) as int)),
{
    let mut k: usize = *idx;
    while k < len
        invariant
            len == s@.len(),
            line_end(s@, *old(idx) as int) == line_end(s@, k as int),
        decreases len - k,
    {
        if s.get_char(k) == '\n' {
            *idx = k;
            return Ok(());
        }
        k = k + 1;
    }
    Err(ParseError::UnexpectedEnd)
}

fn parse_comments(s: &str, len: usize, src_idx: &mut usize) -> (r: Result<(), ParseError>)
    requires
        len == s@.len(),
        *old(src_idx) < len,
    ensures
        idx_outcome(r, *final(src_idx), skip_comment(s@, *old(src_idx) as int)),
{
    let i = *src_idx;
    if s.get_char(i) == '/' {
        if i + 1 >= len {
            return Err(ParseError::UnexpectedEnd);
        }
        if s.get_char(i + 1) == '/' {
            *src_idx = i + 1;
            return skip_to_newline(s, len, src_idx);
        }
    }
    Ok(())
}

/// Whether the six characters at `i` spell `word`.
fn word_at_exec(s: &str, len: usize, i: usize, word: &str) -> (r: bool)
    requires
        len == s@.len(),
        len < usize::MAX - 8,
        i <= len,
    ensures
        r == word_at(s@, i as int, word@),
{
    if i + 6 > len {
        return false;
    }
    str_eq(s.substring_char(i, i + 6), word)
}

fn parse_pragma(s: &str, len: usize, src_idx: &mut usize) -> (r: Result<(), ParseError>)
    requires
        len == s@.len(),
        len < usize::MAX - 8,
        *old(src_idx) < len,
    ensures
        idx_outcome(r, *final(src_idx), skip_pragma(s@, *old(src_idx) as int)),
{
    if word_at_exec(s, len, *src_idx, "pragma") {
        *src_idx = *src_idx + 6;
        return skip_to_newline(s, len, src_idx);
    }
    Ok(())
}

fn parse_translate_type(sol_type: &str) -> (r: Option<FieldType>)
    ensures
        r == sol_field_type(sol_type@),
{
    if str_eq(sol_type, "uint") || str_eq(sol_type, "uint8") || str_eq(sol_type, "uint16")
        || str_eq(sol_type, "uint32") || str_eq(sol_type, "uint64") || str_eq(
        sol_type,
        "uint128",
    ) || str_eq(sol_type, "uint256") {
        Some(FieldType::Numeric)
    } else if str_eq(sol_type, "address") {
        Some(FieldType::Varchar)
    } else {
        None
    }
}

/// Index of the first `{` at or after `j`.
fn find_brace_exec(s: &str, len: usize, j: usize) -> (r: Option<usize>)
    requires
        len == s@.len(),
    ensures
        ty_idx(r) == find_brace(s@, j as int),
{
    let mut k: usize = j;
    while k < len
        invariant
            len == s@.len(),
            j <= k,
            find_brace(s@, j as int) == find_brace(s@, k as int),
        decreases len - k,
    {
        if s.get_char(k) == '{' {
            return Some(k);
        }
        k = k + 1;
    }
    None
}

spec fn ty_idx(r: Option<usize>) -> Option<int> {
    match r {
        Some(k) => Some(k as int),
        None => None,
    }
}

spec fn body_outcome(
    r: Result<Option<(usize, Vec<Field>)>, ParseError>,
    m: Result<Option<(int, Seq<(Seq<char>, FieldType)>)>, Fault>,
) -> bool {
    match m {
        Err(f) => r is Err && r->Err_0@ == f,
        Ok(None) => r matches Ok(None),
        Ok(Some((e, fs))) => r matches Ok(Some((k, v))) && k as int == e && fields_view(v@) == fs,
    }
}

/// Scans a struct body whose opening brace stands at `b`.
fn parse_body(s: &str, len: usize, b: usize) -> (r: Result<Option<(usize, Vec<Field>)>, ParseError>)
    requires
        len == s@.len(),
        len < usize::MAX - 8,
    ensures
        body_outcome(r, scan_fields(s@, b as int, b as int, None, 0, seq![])),
{
    let mut k: usize = b;
    let mut ts: usize = b;
    let mut ty: Option<(usize, usize)> = None;
    let mut ls: usize = 0;
    let mut fields: Vec<Field> = Vec::new();
    assert(fields_view(fields@) =~= Seq::<(Seq<char>, FieldType)>::empty());
    while k < len
        invariant
            len == s@.len(),
            len < usize::MAX - 8,
            ls <= k,
            ty matches Some((a, e)) ==> a <= e <= len,
            scan_fields(s@, b as int, b as int, None, 0, seq![]) == scan_fields(
                s@,
                k as int,
                ts as int,
                ty_view(ty),
                ls as int,
                fields_view(fields@),
            ),
        decreases len - k,
    {
        let c = s.get_char(k);
        if c == '\0' {
            return Err(ParseError::UnclosedBrackets);
        }
        if c == '}' {
            return Ok(Some((k, fields)));
        }
        if c == ' ' {
            if ts > k {
                return Err(ParseError::MalformedField);
            }
            ty = Some((ts, k));
            ls = k + 1;
        } else if c == ';' {
            let text: String = match ty {
                Some((a, e)) => s.substring_char(a, e).to_owned(),
                None => "null".to_owned(),
            };
            assert(text@ == type_text(s@, ty_view(ty)));
            match parse_translate_type(text.as_str()) {
                None => {
                    return Err(ParseError::UnknownType(text));
                },
                Some(t) => {
                    let name = s.substring_char(ls, k).to_owned();
                    insert_field(&mut fields, name, t);
                },
            }
        } else if c == '\n' {
            ts = k + 2;
        }
        k = k + 1;
    }
    Ok(None)
}

fn parse_struct(s: &str, len: usize, src_idx: &mut usize, struct_ctxs: &mut Vec<StructCtx>) -> (r:
    Result<bool, ParseError>)
    requires
        len == s@.len(),
        len < usize::MAX - 8,
        *old(src_idx) < len,
    ensures
        match scan_struct(s@, *old(src_idx) as int) {
            Err(f) => r is Err && r->Err_0@ == f && final(struct_ctxs)@ == old(struct_ctxs)@,
            Ok(Scan::Stop) => r matches Ok(false) && final(struct_ctxs)@ == old(struct_ctxs)@,
            Ok(Scan::Next(k, found)) => r matches Ok(true) && *final(src_idx) as int == k
                && structs_view(final(struct_ctxs)@) == match found {
                Some(st) => structs_view(old(struct_ctxs)@).push(st),
                None => structs_view(old(struct_ctxs)@),
            },
        },
{
    let start = *src_idx;
    if !word_at_exec(s, len, start, "struct") {
        return Ok(true);
    }
    match find_brace_exec(s, len, start + 7) {
        None => Ok(false),
        Some(b) => {
            proof {
                lemma_find_brace_after(s@, start + 7);
            }
            if b < start + 8 {
                return Err(ParseError::MissingName);
            }
            let label = s.substring_char(start + 7, b - 1).to_owned();
            match parse_body(s, len, b) {
                Err(e) => Err(e),
                Ok(None) => Ok(false),
                Ok(Some((end, fields))) => {
                    let ctx = StructCtx { start, end, label, fields };
                    struct_ctxs.push(ctx);
                    *src_idx = end;
                    assert(structs_view(struct_ctxs@) =~= structs_view(old(struct_ctxs)@).push(
                        ctx@,
                    ));
                    Ok(true)
                },
            }
        },
    }
}

/// Scans `src` and appends the structs it holds to `struct_offsets`, in
/// source order. On failure `struct_offsets` is left as it was.
pub fn parse(src: &mut String, struct_offsets: &mut Vec<StructCtx>) -> (r: Result<(), ParseError>)
    requires
        old(src)@.len() < usize::MAX - 8,
    ensures
        final(src)@ == old(src)@,
        match parse_model(old(src)@) {
            Ok(ss) => r is Ok && structs_view(final(struct_offsets)@) == structs_view(
                old(struct_offsets)@,
            ) + ss && all_ascending(ss) && forall|i: int|
                old(struct_offsets)@.len() <= i < final(struct_offsets)@.len()
                    ==> #[trigger] final(struct_offsets)@[i].fields_ascending(),
            Err(f) => r is Err && r->Err_0@ == f && final(struct_offsets)@ == old(
                struct_offsets,
            )@,
        },
{
    let s: &str = src.as_str();
    proof {
        lemma_parse_from_ascending(s@, 0, seq![]);
    }
    let len = s.unicode_len();
    let mut found: Vec<StructCtx> = Vec::new();
    let mut idx: usize = 0;
    assert(structs_view(found@) =~= Seq::<StructSpec>::empty());
    while idx < len
        invariant_except_break
            idx <= len,
            parse_model(s@) == parse_from(s@, idx as int, structs_view(found@)),
        invariant
            len == s@.len(),
            s@ == old(src)@,
            len < usize::MAX - 8,
        ensures
            parse_model(s@) == Ok::<Seq<StructSpec>, Fault>(structs_view(found@)),
        decreases len - idx,
    {
        let ghost i0 = idx;
        proof {
            lemma_line_end_after(s@, idx + 1);
        }
        if let Err(e) = parse_comments(s, len, &mut idx) {
            return Err(e);
        }
        let ghost i1 = idx;
        proof {
            lemma_line_end_after(s@, i1 + 6);
        }
        if let Err(e) = parse_pragma(s, len, &mut idx) {
            return Err(e);
        }
        let ghost i2 = idx;
        proof {
            lemma_scan_struct_after(s@, i2 as int);
        }
        match parse_struct(s, len, &mut idx, &mut found) {
            Err(e) => {
                return Err(e);
            },
            Ok(false) => {
                assert(parse_from(s@, i0 as int, structs_view(found@)) == Ok::<
                    Seq<StructSpec>,
                    Fault,
                >(structs_view(found@)));
                break;
            },
            Ok(true) => {},
        }
        idx = idx + 1;
    }
    let ghost before = struct_offsets@;
    let ghost added = found@;
    struct_offsets.append(&mut found);
    assert(structs_view(struct_offsets@) =~= structs_view(before) + structs_view(added)) by {
        assert(struct_offsets@ =~= before + added);
    }
    assert forall|i: int| before.len() <= i < struct_offsets@.len() implies #[trigger]
        struct_offsets@[i].fields_ascending() by {
        assert(structs_view(struct_offsets@)[i] == struct_offsets@[i]@);
        assert(structs_view(added)[i - before.len()] == struct_offsets@[i]@);
        assert(all_ascending(structs_view(added)));
        assert(names_ascending(structs_view(added)[i - before.len()].fields));
    }
    Ok(())
}

} // verus!
