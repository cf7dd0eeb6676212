//! Source text that the generator splices into existing files: each piece
//! goes in front of a marker line such as `// Structs`.
use vstd::prelude::*;
use vstd::string::*;
use crate::parse::{fields_view, str_eq, FieldType, StructCtx};

verus! {

/// First index at or after `k` where `m` occurs in `s`.
pub open spec fn find_from(s: Seq<char>, m: Seq<char>, k: int) -> Option<int>
    decreases s.len() + 1 - k,
{
    if k < 0 || k + m.len() > s.len() {
        None
    } else if s.subrange(k, k + m.len()) == m {
        Some(k)
    } else {
        find_from(s, m, k + 1)
    }
}

/// Index of the first occurrence of `m` in `s`.
pub open spec fn first_occurrence(s: Seq<char>, m: Seq<char>) -> Option<int> {
    find_from(s, m, 0)
}

/// The pieces concatenated last to first: what inserting each one in turn at
/// the same place leaves there.
pub open spec fn stacked(ps: Seq<Seq<char>>) -> Seq<char>
    decreases ps.len(),
{
    if ps.len() == 0 {
        seq![]
    } else {
        ps.last() + stacked(ps.drop_last())
    }
}

/// `dst` with the pieces inserted one after another in front of the first
/// occurrence of `marker`; `None` where `marker` does not occur.
pub open spec fn spliced(dst: Seq<char>, marker: Seq<char>, ps: Seq<Seq<char>>) -> Option<
    Seq<char>,
> {
    match first_occurrence(dst, marker) {
        None => None,
        Some(p) => Some(dst.take(p) + stacked(ps) + dst.skip(p)),
    }
}

/// Index of the first occurrence of `m` in `s`.
pub fn find_marker(s: &str, m: &str) -> (r: Option<usize>)
    ensures
        match first_occurrence(s@, m@) {
            Some(p) => r == Some(p as usize),
            None => r is None,
        },
{
    let n = s.unicode_len();
    let ml = m.unicode_len();
    if ml > n {
        return None;
    }
    if ml == 0 {
        assert(s@.subrange(0, 0) =~= m@);
        return Some(0);
    }
    let mut k: usize = 0;
    while k <= n - ml
        invariant
            n == s@.len(),
            ml == m@.len(),
            1 <= ml <= n,
            first_occurrence(s@, m@) == find_from(s@, m@, k as int),
        decreases n + 1 - k,
    {
        if str_eq(s.substring_char(k, k + ml), m) {
            return Some(k);
        }
        k = k + 1;
    }
    None
}

pub open spec fn strings_view(v: Seq<String>) -> Seq<Seq<char>> {
    v.map_values(|s: String| s@)
}

/// Inserts each of `pieces`, in turn, in front of the first occurrence of
/// `marker` in `dst`.
pub fn splice_at_marker(dst: &String, marker: &str, pieces: &Vec<String>) -> (r: Option<String>)
    ensures
        match spliced(dst@, marker@, strings_view(pieces@)) {
            Some(t) => r matches Some(x) && x@ == t,
            None => r is None,
        },
{
    let d: &str = dst.as_str();
    let p = match find_marker(d, marker) {
        None => {
            return None;
        },
        Some(p) => p,
    };
    let ghost ps = strings_view(pieces@);
    let n = pieces.len();
    let mut mid = String::new();
    let mut i: usize = 0;
    assert(ps.take(0) =~= Seq::<Seq<char>>::empty());
    while i < n
        invariant
            n == pieces@.len(),
            ps == strings_view(pieces@),
            i <= n,
            mid@ == stacked(ps.take(i as int)),
        decreases n - i,
    {
        let mut next = pieces[i].clone();
        next.append(mid.as_str());
        mid = next;
        assert(ps.take(i as int + 1).drop_last() =~= ps.take(i as int));
        i = i + 1;
    }
    assert(ps.take(n as int) =~= ps);
    let len = d.unicode_len();
    proof {
        lemma_find_from_bound(d@, marker@, 0);
    }
    let mut out = d.substring_char(0, p).to_owned();
    out.append(mid.as_str());
    out.append(d.substring_char(p, len));
    assert(out@ =~= d@.take(p as int) + stacked(ps) + d@.skip(p as int));
    Some(out)
}

proof fn lemma_find_from_bound(s: Seq<char>, m: Seq<char>, k: int)
    ensures
        find_from(s, m, k) matches Some(p) ==> k <= p && p + m.len() <= s.len(),
    decreases s.len() + 1 - k,
{
    if 0 <= k && k + m.len() <= s.len() && s.subrange(k, k + m.len()) != m {
        lemma_find_from_bound(s, m, k + 1);
    }
}

/// Decimal digit `d`.
pub open spec fn digit_char(d: int) -> char {
    if d == 0 {
        '0'
    } else if d == 1 {
        '1'
    } else if d == 2 {
        '2'
    } else if d == 3 {
        '3'
    } else if d == 4 {
        '4'
    } else if d == 5 {
        '5'
    } else if d == 6 {
        '6'
    } else if d == 7 {
        '7'
    } else if d == 8 {
        '8'
    } else {
        '9'
    }
}

/// Decimal notation of `n`, without leading zeros.
pub open spec fn decimal(n: nat) -> Seq<char>
    decreases n,
{
    if n < 10 {
        seq![digit_char(n as int)]
    } else {
        decimal(n / 10) + seq![digit_char((n % 10) as int)]
    }
}

fn digit_str(d: usize) -> (r: &'static str)
    requires
        d < 10,
    ensures
        r@ == seq![digit_char(d as int)],
{
    proof {
        reveal_strlit("0");
        reveal_strlit("1");
        reveal_strlit("2");
        reveal_strlit("3");
        reveal_strlit("4");
        reveal_strlit("5");
        reveal_strlit("6");
        reveal_strlit("7");
        reveal_strlit("8");
        reveal_strlit("9");
    }
    if d == 0 {
        "0"
    } else if d == 1 {
        "1"
    } else if d == 2 {
        "2"
    } else if d == 3 {
        "3"
    } else if d == 4 {
        "4"
    } else if d == 5 {
        "5"
    } else if d == 6 {
        "6"
    } else if d == 7 {
        "7"
    } else if d == 8 {
        "8"
    } else {
        "9"
    }
}

fn decimal_string(n: usize) -> (r: String)
    ensures
        r@ == decimal(n as nat),
    decreases n,
{
    if n < 10 {
        digit_str(n).to_owned()
    } else {
        let mut s = decimal_string(n / 10);
        s.append(digit_str(n % 10));
        s
    }
}

/// Declaration of the cheatcode that saves a value of struct `label`.
pub open spec fn sol_function_text(label: Seq<char>) -> Seq<char> {
    "#[cheatcode(group = Evm, safety = Safe)]\n            function save_"@ + label + "("@ + label
        + " calldata data) external;"@
}

pub fn sol_function(label: &str) -> (r: String)
    ensures
        r@ == sol_function_text(label@),
{
    let mut r = "#[cheatcode(group = Evm, safety = Safe)]\n            function save_".to_owned();
    r.append(label);
    r.append("(");
    r.append(label);
    r.append(" calldata data) external;");
    r
}

/// Registration entry of struct `label`.
pub open spec fn sol_impl_new_text(label: Seq<char>) -> Seq<char> {
    "Vm::"@ + label + "::STRUCT.clone(),"@
}

pub fn sol_impl_new(label: &str) -> (r: String)
    ensures
        r@ == sol_impl_new_text(label@),
{
    let mut r = "Vm::".to_owned();
    r.append(label);
    r.append("::STRUCT.clone(),");
    r
}

/// The names separated by `, `.
pub open spec fn comma_list(ns: Seq<Seq<char>>) -> Seq<char>
    decreases ns.len(),
{
    if ns.len() == 0 {
        seq![]
    } else if ns.len() == 1 {
        ns[0]
    } else {
        comma_list(ns.drop_last()) + ", "@ + ns.last()
    }
}

/// `.bind(<name>)` and a newline for each name.
pub open spec fn bind_list(ns: Seq<Seq<char>>) -> Seq<char>
    decreases ns.len(),
{
    if ns.len() == 0 {
        seq![]
    } else {
        bind_list(ns.drop_last()) + ".bind("@ + ns.last() + ")\n"@
    }
}

/// `$1, $2, ..., $n`.
pub open spec fn placeholders(n: nat) -> Seq<char>
    decreases n,
{
    if n == 0 {
        seq![]
    } else if n == 1 {
        "$1"@
    } else {
        placeholders((n - 1) as nat) + ", $"@ + decimal(n)
    }
}

pub open spec fn field_names(fs: Seq<(Seq<char>, FieldType)>) -> Seq<Seq<char>> {
    fs.map_values(|f: (Seq<char>, FieldType)| f.0)
}

/// Handler that stores a value of struct `label` with fields named `ns`.
pub open spec fn sol_handler_text(label: Seq<char>, ns: Seq<Seq<char>>) -> Seq<char> {
    "\nimpl Cheatcode for "@ + label
        + " {\n    fn apply(&self, _state: &mut Cheatcodes) -> Result {\n        let Self { data } = self;\n\n        let "@
        + label + " { "@ + comma_list(ns)
        + " } = data;\n\n        let query = format!(\"\n        INSERT INTO "@ + label
        + "\n        VALUES\n        ("@ + placeholders(ns.len())
        + ")\n        \");\n\n        sqlx::query(&query)\n            "@ + bind_list(ns)
        + "\n            .execute(&db.pool)\n            .await\n            .unwrap();\n\n        Ok(Default::default())\n    }\n}"@
}

pub fn sol_handler(label: &str, fields: &Vec<crate::parse::Field>) -> (r: String)
    requires
        fields@.len() > 0,
        fields@.len() < usize::MAX,
    ensures
        r@ == sol_handler_text(label@, field_names(fields_view(fields@))),
{
    let ghost ns = field_names(fields_view(fields@));
    let n = fields.len();
    let mut names = String::new();
    let mut binds = String::new();
    let mut holes = String::new();
    let mut i: usize = 0;
    assert(ns.take(0) =~= Seq::<Seq<char>>::empty());
    while i < n
        invariant
            n == fields@.len(),
            n < usize::MAX,
            ns == field_names(fields_view(fields@)),
            i <= n,
            names@ == comma_list(ns.take(i as int)),
            binds@ == bind_list(ns.take(i as int)),
            holes@ == placeholders(i as nat),
        decreases n - i,
    {
        let name: &str = fields[i].name.as_str();
        if i > 0 {
            names.append(", ");
            holes.append(", $");
            let d = decimal_string(i + 1);
            holes.append(d.as_str());
        } else {
            holes.append("$1");
        }
        names.append(name);
        binds.append(".bind(");
        binds.append(name);
        binds.append(")\n");
        assert(ns.take(i as int + 1).drop_last() =~= ns.take(i as int));
        assert(ns.take(i as int + 1).last() == name@);
        assert(names@ =~= comma_list(ns.take(i as int + 1)));
        assert(binds@ =~= bind_list(ns.take(i as int + 1)));
        assert(holes@ =~= placeholders(i as nat + 1));
        i = i + 1;
    }
    assert(ns.take(n as int) =~= ns);
    let mut r = "\nimpl Cheatcode for ".to_owned();
    r.append(label);
    r.append(
        " {\n    fn apply(&self, _state: &mut Cheatcodes) -> Result {\n        let Self { data } = self;\n\n        let ",
    );
    r.append(label);
    r.append(" { ");
    r.append(names.as_str());
    r.append(" } = data;\n\n        let query = format!(\"\n        INSERT INTO ");
    r.append(label);
    r.append("\n        VALUES\n        (");
    r.append(holes.as_str());
    r.append(")\n        \");\n\n        sqlx::query(&query)\n            ");
    r.append(binds.as_str());
    r.append(
        "\n            .execute(&db.pool)\n            .await\n            .unwrap();\n\n        Ok(Default::default())\n    }\n}",
    );
    r
}

pub open spec fn labels(ctxs: Seq<StructCtx>) -> Seq<Seq<char>> {
    ctxs.map_values(|c: StructCtx| c.label@)
}

/// Each struct's source text, from `struct` to its closing brace, then a
/// newline.
pub open spec fn struct_pieces(src: Seq<char>, ctxs: Seq<StructCtx>) -> Seq<Seq<char>> {
    ctxs.map_values(|c: StructCtx| src.subrange(c.start as int, c.end as int + 1) + "\n"@)
}

/// Whether each struct's position lies inside `src`.
pub open spec fn within(src: Seq<char>, ctxs: Seq<StructCtx>) -> bool {
    forall|i: int| 0 <= i < ctxs.len() ==> #[trigger] ctxs[i].start <= ctxs[i].end < src.len()
}

/// `dst` with the source text of each struct inserted in turn in front of
/// the `// Structs` marker; `None` where the marker is missing.
pub fn dst_structs_insert(dst: &String, src: &String, struct_ctxs: &Vec<StructCtx>) -> (r: Option<
    String,
>)
    requires
        within(src@, struct_ctxs@),
        src@.len() < usize::MAX,
    ensures
        match spliced(dst@, "// Structs"@, struct_pieces(src@, struct_ctxs@)) {
            Some(t) => r matches Some(x) && x@ == t,
            None => r is None,
        },
{
    let n = struct_ctxs.len();
    let mut pieces: Vec<String> = Vec::new();
    let mut i: usize = 0;
    while i < n
        invariant
            n == struct_ctxs@.len(),
            within(src@, struct_ctxs@),
            src@.len() < usize::MAX,
            i <= n,
            strings_view(pieces@) =~= struct_pieces(src@, struct_ctxs@).take(i as int),
        decreases n - i,
    {
        let ctx = &struct_ctxs[i];
        let mut piece = src.as_str().substring_char(ctx.start, ctx.end + 1).to_owned();
        piece.append("\n");
        let ghost before = pieces@;
        pieces.push(piece);
        assert(strings_view(pieces@) =~= strings_view(before).push(piece@));
        assert(struct_pieces(src@, struct_ctxs@).take(i as int + 1) =~= struct_pieces(
            src@,
            struct_ctxs@,
        ).take(i as int).push(struct_pieces(src@, struct_ctxs@)[i as int]));
        i = i + 1;
    }
    assert(struct_pieces(src@, struct_ctxs@).take(n as int) =~= struct_pieces(src@, struct_ctxs@));
    splice_at_marker(dst, "// Structs", &pieces)
}

/// `dst` with the cheatcode declaration of each struct inserted in turn in
/// front of the `// Functions` marker; `None` where the marker is missing.
pub fn dst_functions_insert(dst: &String, struct_ctxs: &Vec<StructCtx>) -> (r: Option<String>)
    ensures
        match spliced(
            dst@,
            "// Functions"@,
            labels(struct_ctxs@).map_values(|l: Seq<char>| sol_function_text(l) + "\n"@),
        ) {
            Some(t) => r matches Some(x) && x@ == t,
            None => r is None,
        },
{
    let ghost want = labels(struct_ctxs@).map_values(|l: Seq<char>| sol_function_text(l) + "\n"@);
    let n = struct_ctxs.len();
    let mut pieces: Vec<String> = Vec::new();
    let mut i: usize = 0;
    while i < n
        invariant
            n == struct_ctxs@.len(),
            want == labels(struct_ctxs@).map_values(|l: Seq<char>| sol_function_text(l) + "\n"@),
            i <= n,
            strings_view(pieces@) =~= want.take(i as int),
        decreases n - i,
    {
        let mut piece = sol_function(struct_ctxs[i].label.as_str());
        piece.append("\n");
        let ghost before = pieces@;
        pieces.push(piece);
        assert(strings_view(pieces@) =~= strings_view(before).push(piece@));
        assert(want.take(i as int + 1) =~= want.take(i as int).push(want[i as int]));
        i = i + 1;
    }
    assert(want.take(n as int) =~= want);
    splice_at_marker(dst, "// Functions", &pieces)
}

/// `dst` with the registration entry of each struct inserted in turn in
/// front of the `// Impl new` marker; `None` where the marker is missing.
pub fn dst_impl_new_insert(dst: &String, struct_ctxs: &Vec<StructCtx>) -> (r: Option<String>)
    ensures
        match spliced(
            dst@,
            "// Impl new"@,
            labels(struct_ctxs@).map_values(|l: Seq<char>| sol_impl_new_text(l) + "\n"@),
        ) {
            Some(t) => r matches Some(x) && x@ == t,
            None => r is None,
        },
{
    let ghost want = labels(struct_ctxs@).map_values(|l: Seq<char>| sol_impl_new_text(l) + "\n"@);
    let n = struct_ctxs.len();
    let mut pieces: Vec<String> = Vec::new();
    let mut i: usize = 0;
    while i < n
        invariant
            n == struct_ctxs@.len(),
            want == labels(struct_ctxs@).map_values(|l: Seq<char>| sol_impl_new_text(l) + "\n"@),
            i <= n,
            strings_view(pieces@) =~= want.take(i as int),
        decreases n - i,
    {
        let mut piece = sol_impl_new(struct_ctxs[i].label.as_str());
        piece.append("\n");
        let ghost before = pieces@;
        pieces.push(piece);
        assert(strings_view(pieces@) =~= strings_view(before).push(piece@));
        assert(want.take(i as int + 1) =~= want.take(i as int).push(want[i as int]));
        i = i + 1;
    }
    assert(want.take(n as int) =~= want);
    splice_at_marker(dst, "// Impl new", &pieces)
}

/// Whether every struct has at least one field.
pub open spec fn all_have_fields(ctxs: Seq<StructCtx>) -> bool {
    forall|i: int| 0 <= i < ctxs.len() ==> 0 < #[trigger] ctxs[i].fields@.len() < usize::MAX
}

/// `dst` with the handler of each struct inserted in turn in front of the
/// `// Handlers` marker; `None` where the marker is missing.
pub fn dst_handler_insert(dst: &String, struct_ctxs: &Vec<StructCtx>) -> (r: Option<String>)
    requires
        all_have_fields(struct_ctxs@),
    ensures
        match spliced(
            dst@,
            "// Handlers"@,
            struct_ctxs@.map_values(
                |c: StructCtx| sol_handler_text(c.label@, field_names(fields_view(c.fields@)))
                    + "\n"@,
            ),
        ) {
            Some(t) => r matches Some(x) && x@ == t,
            None => r is None,
        },
{
    let ghost want = struct_ctxs@.map_values(
        |c: StructCtx| sol_handler_text(c.label@, field_names(fields_view(c.fields@))) + "\n"@,
    );
    let n = struct_ctxs.len();
    let mut pieces: Vec<String> = Vec::new();
    let mut i: usize = 0;
    while i < n
        invariant
            n == struct_ctxs@.len(),
            all_have_fields(struct_ctxs@),
            want == struct_ctxs@.map_values(
                |c: StructCtx| sol_handler_text(c.label@, field_names(fields_view(c.fields@)))
                    + "\n"@,
            ),
            i <= n,
            strings_view(pieces@) =~= want.take(i as int),
        decreases n - i,
    {
        let ctx = &struct_ctxs[i];
        let mut piece = sol_handler(ctx.label.as_str(), &ctx.fields);
        piece.append("\n");
        let ghost before = pieces@;
        pieces.push(piece);
        assert(strings_view(pieces@) =~= strings_view(before).push(piece@));
        assert(want.take(i as int + 1) =~= want.take(i as int).push(want[i as int]));
        i = i + 1;
    }
    assert(want.take(n as int) =~= want);
    splice_at_marker(dst, "// Handlers", &pieces)
}

} // verus!
