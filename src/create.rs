//! Builds the SQL statement that creates a table for a scanned struct.
use vstd::prelude::*;
use vstd::string::*;
use crate::parse::{field_type_as_str, field_type_name, fields_view, FieldType, StructCtx};

verus! {

/// `<name> <TYPE>` for one field.
pub open spec fn column_def(f: (Seq<char>, FieldType)) -> Seq<char> {
    f.0 + " "@ + field_type_name(f.1)
}

/// The column definitions of `fs`, separated by `, `.
pub open spec fn column_list(fs: Seq<(Seq<char>, FieldType)>) -> Seq<char>
    decreases fs.len(),
{
    if fs.len() == 0 {
        seq![]
    } else if fs.len() == 1 {
        column_def(fs[0])
    } else {
        column_list(fs.drop_last()) + ", "@ + column_def(fs.last())
    }
}

/// `CREATE TABLE <label> (<columns>);`. A struct without fields gives
/// `CREATE TABLE <label>);`.
pub open spec fn create_table_query(label: Seq<char>, fs: Seq<(Seq<char>, FieldType)>) -> Seq<
    char,
> {
    if fs.len() == 0 {
        "CREATE TABLE "@ + label + ");"@
    } else {
        "CREATE TABLE "@ + label + " ("@ + column_list(fs) + ");"@
    }
}

pub fn db_gen_query_create(ctx: &StructCtx) -> (query: String)
    ensures
        query@ == create_table_query(ctx.label@, fields_view(ctx.fields@)),
{
    let ghost fs = fields_view(ctx.fields@);
    let mut query = "CREATE TABLE ".to_owned();
    query.append(ctx.label.as_str());
    let n = ctx.fields.len();
    if n == 0 {
        query.append(");");
        return query;
    }
    query.append(" (");
    let ghost head = query@;
    let mut i: usize = 0;
    while i < n
        invariant
            n == ctx.fields@.len(),
            fs == fields_view(ctx.fields@),
            0 <= i <= n,
            query@ == head + column_list(fs.take(i as int)),
        decreases n - i,
    {
        let f = &ctx.fields[i];
        if i > 0 {
            query.append(", ");
        }
        query.append(f.name.as_str());
        query.append(" ");
        query.append(field_type_as_str(&f.kind));
        assert(fs.take(i as int + 1).drop_last() =~= fs.take(i as int));
        assert(fs.take(0) =~= Seq::<(Seq<char>, FieldType)>::empty());
        assert(query@ =~= head + column_list(fs.take(i as int + 1)));
        i = i + 1;
    }
    assert(fs.take(n as int) =~= fs);
    query.append(");");
    query
}

} // verus!
