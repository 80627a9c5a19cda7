use vstd::prelude::*;
use crate::merge::{lemma_trees_view_index, trees_view, tree_view, TreeV, ValueTree};
use crate::schema::{fields_view, lemma_fields_view_index, schema_view, SchemaNode, SchemaV};

verus! {

/// A character as it stands inside an emitted string literal.
pub open spec fn esc_char(c: char) -> Seq<char> {
    if c == '"' || c == '\\' {
        "\\"@ + seq![c]
    } else {
        seq![c]
    }
}

/// Text with `"` and `\` escaped for an emitted string literal.
pub open spec fn esc(s: Seq<char>) -> Seq<char>
    decreases s.len(),
{
    if s.len() == 0 {
        Seq::empty()
    } else {
        esc_char(s[0]) + esc(s.drop_first())
    }
}

proof fn lemma_esc_take_snoc(s: Seq<char>, i: int)
    requires
        0 <= i < s.len(),
    ensures
        esc(s.take(i + 1)) == esc(s.take(i)) + esc_char(s[i]),
    decreases i,
{
    if i == 0 {
        assert(s.take(1).drop_first() =~= Seq::<char>::empty());
        assert(s.take(1)[0] == s[0]);
        assert(s.take(0) =~= Seq::<char>::empty());
        assert(esc_char(s[0]) + Seq::<char>::empty() =~= esc_char(s[0]));
        assert(Seq::<char>::empty() + esc_char(s[0]) =~= esc_char(s[0]));
    } else {
        let d = s.drop_first();
        lemma_esc_take_snoc(d, i - 1);
        assert(s.take(i + 1).drop_first() =~= d.take(i));
        assert(s.take(i).drop_first() =~= d.take(i - 1));
        assert(s.take(i + 1)[0] == s[0]);
        assert(s.take(i)[0] == s[0]);
        assert(d[i - 1] == s[i]);
        assert(esc_char(s[0]) + (esc(d.take(i - 1)) + esc_char(s[i])) =~= (esc_char(s[0]) + esc(
            d.take(i - 1),
        )) + esc_char(s[i]));
    }
}

/// Escapes text for an emitted string literal.
pub fn escape_str(s: &str) -> (r: String)
    ensures
        r@ == esc(s@),
{
    let len = s.unicode_len();
    let mut out = String::new();
    let mut i: usize = 0;
    proof {
        assert(esc(s@.take(0)) =~= Seq::<char>::empty());
    }
    loop
        invariant
            i <= len,
            len == s@.len(),
            out@ == esc(s@.take(i as int)),
        ensures
            i == len,
            out@ == esc(s@.take(i as int)),
        decreases len - i,
    {
        if i >= len {
            break;
        }
        let c = s.get_char(i);
        let ghost pre = out@;
        if c == '"' || c == '\\' {
            out.append("\\");
        }
        let piece = s.substring_char(i, i + 1);
        proof {
            assert(piece@ =~= seq![s@[i as int]]);
        }
        out.append(piece);
        proof {
            lemma_esc_take_snoc(s@, i as int);
            assert(out@ =~= pre + esc_char(s@[i as int]));
        }
        i += 1;
    }
    proof {
        assert(s@.take(len as int) =~= s@);
    }
    out
}

/// A quoted, escaped string literal.
pub open spec fn lit(s: Seq<char>) -> Seq<char> {
    "\""@ + esc(s) + "\""@
}

fn emit_lit(out: &mut String, s: &str)
    ensures
        final(out)@ == old(out)@ + lit(s@),
{
    out.append("\"");
    let e = escape_str(s);
    out.append(e.as_str());
    out.append("\"");
    proof {
        assert(out@ =~= old(out)@ + lit(s@));
    }
}

/// A locale identifier as an emitted function name: `-` becomes `_`.
pub open spec fn ident_of(s: Seq<char>) -> Seq<char> {
    Seq::new(
        s.len(),
        |i: int|
            if s[i] == '-' {
                '_'
            } else {
                s[i]
            },
    )
}

fn emit_ident(out: &mut String, s: &str)
    ensures
        final(out)@ == old(out)@ + ident_of(s@),
{
    let len = s.unicode_len();
    let mut i: usize = 0;
    loop
        invariant
            i <= len,
            len == s@.len(),
            out@.len() == old(out)@.len() + i,
            out@.take(old(out)@.len() as int) == old(out)@,
            forall|j: int| #![trigger out@[old(out)@.len() + j]]
                0 <= j < i ==> out@[old(out)@.len() + j] == ident_of(s@)[j],
        ensures
            i == len,
            out@.len() == old(out)@.len() + i,
            out@.take(old(out)@.len() as int) == old(out)@,
            forall|j: int| #![trigger out@[old(out)@.len() + j]]
                0 <= j < i ==> out@[old(out)@.len() + j] == ident_of(s@)[j],
        decreases len - i,
    {
        if i >= len {
            break;
        }
        let c = s.get_char(i);
        let ghost pre = out@;
        if c == '-' {
            out.append("_");
            proof {
                reveal_strlit("_");
            }
        } else {
            let piece = s.substring_char(i, i + 1);
            proof {
                assert(piece@ =~= seq![s@[i as int]]);
            }
            out.append(piece);
        }
        proof {
            assert(out@.len() == pre.len() + 1);
            assert(out@.take(old(out)@.len() as int) =~= pre.take(old(out)@.len() as int));
            assert(forall|j: int| 0 <= j < pre.len() ==> out@[j] == pre[j]);
        }
        i += 1;
    }
    proof {
        assert forall|m: int| 0 <= m < out@.len() implies out@[m] == (old(out)@ + ident_of(s@))[m] by {
            if m < old(out)@.len() {
                assert(out@.take(old(out)@.len() as int)[m] == out@[m]);
            } else {
                let j = m - old(out)@.len();
                assert(out@[old(out)@.len() + j] == ident_of(s@)[j]);
            }
        }
        assert(out@ =~= old(out)@ + ident_of(s@));
    }
}

/// The emitted type of a schema field: text, or the nested record.
pub open spec fn ty_of(n: SchemaV) -> Seq<char> {
    match n {
        SchemaV::Leaf => "&'static str"@,
        SchemaV::Record { ty_name, .. } => ty_name,
    }
}

/// One record definition's field lines.
pub open spec fn struct_fields_text(fields: Seq<(Seq<char>, SchemaV)>) -> Seq<char>
    decreases fields,
{
    if fields.len() == 0 {
        Seq::empty()
    } else {
        struct_fields_text(fields.drop_last()) + "    pub "@ + fields.last().0 + ": "@ + ty_of(
            fields.last().1,
        ) + ",\n"@
    }
}

/// All record definitions under a schema node, nested records first,
/// each in the schema's field order.
pub open spec fn structs_text(n: SchemaV) -> Seq<char>
    decreases n,
{
    match n {
        SchemaV::Leaf => Seq::empty(),
        SchemaV::Record { ty_name, fields } => structs_list(fields) + "pub struct "@ + ty_name
            + " {\n"@ + struct_fields_text(fields) + "}\n"@,
    }
}

/// The root record's definition: the implicit identifier field first,
/// then the schema's fields; nested records before it.
pub open spec fn root_structs_text(n: SchemaV) -> Seq<char> {
    match n {
        SchemaV::Leaf => Seq::empty(),
        SchemaV::Record { ty_name, fields } => structs_list(fields) + "pub struct "@ + ty_name
            + " {\n    pub lang_id: &'static str,\n"@ + struct_fields_text(fields) + "}\n"@,
    }
}

pub open spec fn structs_list(fields: Seq<(Seq<char>, SchemaV)>) -> Seq<char>
    decreases fields,
{
    if fields.len() == 0 {
        Seq::empty()
    } else {
        structs_list(fields.drop_last()) + structs_text(fields.last().1)
    }
}

/// The constructor expression of one merged value, lock-step with its
/// schema node.
pub open spec fn value_text(n: SchemaV, t: TreeV) -> Seq<char>
    decreases n,
{
    match n {
        SchemaV::Leaf => match t {
            TreeV::Leaf(s) => lit(s),
            _ => Seq::empty(),
        },
        SchemaV::Record { ty_name, fields } => match t {
            TreeV::Record(ts) => ty_name + " { "@ + values_text(fields, ts) + "}"@,
            _ => Seq::empty(),
        },
    }
}

pub open spec fn values_text(
    fields: Seq<(Seq<char>, SchemaV)>,
    ts: Seq<(Seq<char>, TreeV)>,
) -> Seq<char>
    decreases fields,
{
    if fields.len() == 0 || fields.len() != ts.len() {
        Seq::empty()
    } else {
        values_text(fields.drop_last(), ts.drop_last()) + ts.last().0 + ": "@ + value_text(
            fields.last().1,
            ts.last().1,
        ) + ", "@
    }
}

fn emit_struct_fields(out: &mut String, fields: &Vec<(String, SchemaNode)>)
    ensures
        final(out)@ == old(out)@ + struct_fields_text(fields_view(fields@)),
{
    let ghost fv = fields_view(fields@);
    let mut i: usize = 0;
    proof {
        lemma_fields_view_index(fields@);
        assert(struct_fields_text(fv.take(0)) =~= Seq::<char>::empty());
        assert(out@ =~= old(out)@ + struct_fields_text(fv.take(0)));
    }
    loop
        invariant
            i <= fields@.len(),
            fv == fields_view(fields@),
            fv.len() == fields@.len(),
            out@ == old(out)@ + struct_fields_text(fv.take(i as int)),
        ensures
            i == fields@.len(),
            out@ == old(out)@ + struct_fields_text(fv.take(i as int)),
        decreases fields@.len() - i,
    {
        if i >= fields.len() {
            break;
        }
        proof {
            lemma_fields_view_index(fields@);
            assert(fv.take(i as int + 1).drop_last() =~= fv.take(i as int));
            assert(fv.take(i as int + 1).last() == fv[i as int]);
        }
        out.append("    pub ");
        out.append(fields[i].0.as_str());
        out.append(": ");
        match &fields[i].1 {
            SchemaNode::Leaf => {
                out.append("&'static str");
            },
            SchemaNode::Record { ty_name, .. } => {
                out.append(ty_name.as_str());
            },
        }
        out.append(",\n");
        proof {
            assert(out@ =~= old(out)@ + struct_fields_text(fv.take(i as int + 1)));
        }
        i += 1;
    }
    proof {
        assert(fv.take(i as int) =~= fv);
    }
}

/// Appends every record definition under the fields of a record, in
/// field order.
fn emit_structs_list(out: &mut String, fields: &Vec<(String, SchemaNode)>)
    ensures
        final(out)@ == old(out)@ + structs_list(fields_view(fields@)),
    decreases fields,
{
    let ghost fv = fields_view(fields@);
    let mut i: usize = 0;
    proof {
        lemma_fields_view_index(fields@);
        assert(structs_list(fv.take(0)) =~= Seq::<char>::empty());
        assert(out@ =~= old(out)@ + structs_list(fv.take(0)));
    }
    loop
        invariant
            i <= fields@.len(),
            fv == fields_view(fields@),
            fv.len() == fields@.len(),
            out@ == old(out)@ + structs_list(fv.take(i as int)),
        ensures
            i == fields@.len(),
            out@ == old(out)@ + structs_list(fv.take(i as int)),
        decreases fields@.len() - i,
    {
        if i >= fields.len() {
            break;
        }
        proof {
            lemma_fields_view_index(fields@);
            assert(fv.take(i as int + 1).drop_last() =~= fv.take(i as int));
            assert(fv.take(i as int + 1).last() == fv[i as int]);
            broadcast use vstd::std_specs::vec::group_vec_axioms;
            broadcast use vstd::seq::axiom_seq_index_decreases;
            assert(decreases_to!(fields@ => fields@[i as int]));
            assert(decreases_to!(fields@[i as int] => fields@[i as int].1));
        }
        emit_structs(out, &fields[i].1);
        proof {
            assert(out@ =~= old(out)@ + structs_list(fv.take(i as int + 1)));
        }
        i += 1;
    }
    proof {
        assert(fv.take(i as int) =~= fv);
    }
}

/// Appends every record definition under `n`, nested first.
fn emit_structs(out: &mut String, n: &SchemaNode)
    ensures
        final(out)@ == old(out)@ + structs_text(schema_view(*n)),
    decreases n,
{
    match n {
        SchemaNode::Leaf => {
            proof {
                assert(old(out)@ + Seq::<char>::empty() =~= old(out)@);
            }
        },
        SchemaNode::Record { ty_name, fields } => {
            emit_structs_list(out, fields);
            out.append("pub struct ");
            out.append(ty_name.as_str());
            out.append(" {\n");
            emit_struct_fields(out, fields);
            out.append("}\n");
            proof {
                assert(out@ =~= old(out)@ + structs_text(schema_view(*n)));
            }
        },
    }
}

/// Appends the field initializers of one record constructor.
fn emit_record_body(
    out: &mut String,
    fields: &Vec<(String, SchemaNode)>,
    ts: &Vec<(String, ValueTree)>,
)
    ensures
        final(out)@ == old(out)@ + values_text(fields_view(fields@), trees_view(ts@)),
    decreases fields,
{
    let ghost fv = fields_view(fields@);
    let ghost tv = trees_view(ts@);
    proof {
        lemma_fields_view_index(fields@);
        lemma_trees_view_index(ts@);
    }
    if fields.len() != ts.len() {
        proof {
            assert(values_text(fv, tv) =~= Seq::<char>::empty());
            assert(out@ + Seq::<char>::empty() =~= out@);
        }
        return ;
    }
    let mut i: usize = 0;
    proof {
        assert(values_text(fv.take(0), tv.take(0)) =~= Seq::<char>::empty());
        assert(out@ =~= old(out)@ + values_text(fv.take(0), tv.take(0)));
    }
    loop
        invariant
            i <= fields@.len(),
            fields@.len() == ts@.len(),
            fv == fields_view(fields@),
            tv == trees_view(ts@),
            fv.len() == fields@.len(),
            tv.len() == ts@.len(),
            out@ == old(out)@ + values_text(fv.take(i as int), tv.take(i as int)),
        ensures
            i == fields@.len(),
            out@ == old(out)@ + values_text(fv.take(i as int), tv.take(i as int)),
        decreases fields@.len() - i,
    {
        if i >= fields.len() {
            break;
        }
        proof {
            lemma_fields_view_index(fields@);
            lemma_trees_view_index(ts@);
            assert(fv.take(i as int + 1).drop_last() =~= fv.take(i as int));
            assert(tv.take(i as int + 1).drop_last() =~= tv.take(i as int));
            assert(fv.take(i as int + 1).last() == fv[i as int]);
            assert(tv.take(i as int + 1).last() == tv[i as int]);
            broadcast use vstd::std_specs::vec::group_vec_axioms;
            broadcast use vstd::seq::axiom_seq_index_decreases;
            assert(decreases_to!(fields@ => fields@[i as int]));
            assert(decreases_to!(fields@[i as int] => fields@[i as int].1));
        }
        out.append(ts[i].0.as_str());
        out.append(": ");
        emit_value(out, &fields[i].1, &ts[i].1);
        out.append(", ");
        proof {
            assert(out@ =~= old(out)@ + values_text(fv.take(i as int + 1), tv.take(i as int + 1)));
        }
        i += 1;
    }
    proof {
        assert(fv.take(i as int) =~= fv);
        assert(tv.take(i as int) =~= tv);
    }
}

/// Appends the constructor expression of one merged value.
fn emit_value(out: &mut String, n: &SchemaNode, t: &ValueTree)
    ensures
        final(out)@ == old(out)@ + value_text(schema_view(*n), tree_view(*t)),
    decreases n,
{
    match (n, t) {
        (SchemaNode::Leaf, ValueTree::Leaf(s)) => {
            emit_lit(out, s.as_str());
        },
        (SchemaNode::Record { ty_name, fields }, ValueTree::Record(ts)) => {
            out.append(ty_name.as_str());
            out.append(" { ");
            emit_record_body(out, fields, ts);
            out.append("}");
            proof {
                assert(out@ =~= old(out)@ + value_text(schema_view(*n), tree_view(*t)));
            }
        },
        (SchemaNode::Leaf, ValueTree::Record(_)) => {
            proof {
                assert(old(out)@ + Seq::<char>::empty() =~= old(out)@);
            }
        },
        (SchemaNode::Record { .. }, ValueTree::Leaf(_)) => {
            proof {
                assert(old(out)@ + Seq::<char>::empty() =~= old(out)@);
            }
        },
    }
}

/// One dispatch arm: the locale's tag mapped to its constructor.
pub open spec fn arm_text(tag: Seq<char>) -> Seq<char> {
    "            "@ + lit(tag) + " => Some(I18n::"@ + ident_of(tag) + "()),\n"@
}

pub open spec fn arms_text(locs: Seq<(Seq<char>, TreeV)>) -> Seq<char>
    decreases locs,
{
    if locs.len() == 0 {
        Seq::empty()
    } else {
        arms_text(locs.drop_last()) + arm_text(locs.last().0)
    }
}

/// One locale's constructor.
pub open spec fn ctor_text(n: SchemaV, tag: Seq<char>, t: TreeV) -> Seq<char> {
    "    pub fn "@ + ident_of(tag) + "() -> I18n {\n        I18n { lang_id: "@ + lit(tag) + ", "@
        + (match (n, t) {
        (SchemaV::Record { fields, .. }, TreeV::Record(ts)) => values_text(fields, ts),
        _ => Seq::empty(),
    }) + "}\n    }\n"@
}

pub open spec fn ctors_text(n: SchemaV, locs: Seq<(Seq<char>, TreeV)>) -> Seq<char>
    decreases locs,
{
    if locs.len() == 0 {
        Seq::empty()
    } else {
        ctors_text(n, locs.drop_last()) + ctor_text(n, locs.last().0, locs.last().1)
    }
}

/// The whole emitted artifact: record definitions, the dispatch
/// function, the default-selection entry point, and one constructor per
/// locale.
pub open spec fn artifact_text(
    n: SchemaV,
    locs: Seq<(Seq<char>, TreeV)>,
    default_tag: Seq<char>,
) -> Seq<char> {
    root_structs_text(n)
        + "impl I18n {\n    pub fn lookup(tag: &str) -> Option<I18n> {\n        match tag {\n"@
        + arms_text(locs)
        + "            _ => None,\n        }\n    }\n    pub fn default_locale() -> I18n {\n        I18n::"@
        + ident_of(default_tag) + "()\n    }\n"@ + ctors_text(n, locs) + "}\n"@
}

/// Emits the artifact text for a schema, the merged value tree of each
/// locale (tagged by identifier, in source order), and the default
/// locale's identifier.
#[verifier::rlimit(50)]
pub fn emit_artifact(
    schema: &SchemaNode,
    locs: &Vec<(String, ValueTree)>,
    default_tag: &String,
) -> (r: String)
    ensures
        r@ == artifact_text(schema_view(*schema), trees_view(locs@), default_tag@),
{
    let mut out = String::new();
    proof {
        assert(out@ =~= Seq::<char>::empty());
    }
    match schema {
        SchemaNode::Leaf => {
            proof {
                assert(out@ =~= root_structs_text(schema_view(*schema)));
            }
        },
        SchemaNode::Record { ty_name, fields } => {
            emit_structs_list(&mut out, fields);
            out.append("pub struct ");
            out.append(ty_name.as_str());
            out.append(" {\n    pub lang_id: &'static str,\n");
            emit_struct_fields(&mut out, fields);
            out.append("}\n");
            proof {
                assert(out@ =~= root_structs_text(schema_view(*schema)));
            }
        },
    }
    out.append("impl I18n {\n    pub fn lookup(tag: &str) -> Option<I18n> {\n        match tag {\n");
    let ghost lv = trees_view(locs@);
    let ghost mark = out@;
    let mut i: usize = 0;
    proof {
        lemma_trees_view_index(locs@);
        assert(arms_text(lv.take(0)) =~= Seq::<char>::empty());
        assert(out@ =~= mark + arms_text(lv.take(0)));
    }
    loop
        invariant
            i <= locs@.len(),
            lv == trees_view(locs@),
            lv.len() == locs@.len(),
            out@ == mark + arms_text(lv.take(i as int)),
        ensures
            i == locs@.len(),
            out@ == mark + arms_text(lv.take(i as int)),
        decreases locs@.len() - i,
    {
        if i >= locs.len() {
            break;
        }
        proof {
            lemma_trees_view_index(locs@);
            assert(lv.take(i as int + 1).drop_last() =~= lv.take(i as int));
            assert(lv.take(i as int + 1).last() == lv[i as int]);
        }
        out.append("            ");
        emit_lit(&mut out, locs[i].0.as_str());
        out.append(" => Some(I18n::");
        emit_ident(&mut out, locs[i].0.as_str());
        out.append("()),\n");
        proof {
            assert(out@ =~= mark + arms_text(lv.take(i as int + 1)));
        }
        i += 1;
    }
    proof {
        assert(lv.take(i as int) =~= lv);
    }
    out.append("            _ => None,\n        }\n    }\n    pub fn default_locale() -> I18n {\n        I18n::");
    emit_ident(&mut out, default_tag.as_str());
    out.append("()\n    }\n");
    let ghost mark2 = out@;
    let mut i: usize = 0;
    proof {
        lemma_trees_view_index(locs@);
        assert(ctors_text(schema_view(*schema), lv.take(0)) =~= Seq::<char>::empty());
        assert(out@ =~= mark2 + ctors_text(schema_view(*schema), lv.take(0)));
    }
    loop
        invariant
            i <= locs@.len(),
            lv == trees_view(locs@),
            lv.len() == locs@.len(),
            out@ == mark2 + ctors_text(schema_view(*schema), lv.take(i as int)),
        ensures
            i == locs@.len(),
            out@ == mark2 + ctors_text(schema_view(*schema), lv.take(i as int)),
        decreases locs@.len() - i,
    {
        if i >= locs.len() {
            break;
        }
        proof {
            lemma_trees_view_index(locs@);
            assert(lv.take(i as int + 1).drop_last() =~= lv.take(i as int));
            assert(lv.take(i as int + 1).last() == lv[i as int]);
        }
        out.append("    pub fn ");
        emit_ident(&mut out, locs[i].0.as_str());
        out.append("() -> I18n {\n        I18n { lang_id: ");
        emit_lit(&mut out, locs[i].0.as_str());
        out.append(", ");
        match (schema, &locs[i].1) {
            (SchemaNode::Record { fields, .. }, ValueTree::Record(ts)) => {
                emit_record_body(&mut out, fields, ts);
            },
            _ => {},
        }
        out.append("}\n    }\n");
        proof {
            assert(out@ =~= mark2 + ctors_text(schema_view(*schema), lv.take(i as int + 1)));
        }
        i += 1;
    }
    proof {
        assert(lv.take(i as int) =~= lv);
    }
    out.append("}\n");
    proof {
        assert(out@ =~= artifact_text(schema_view(*schema), trees_view(locs@), default_tag@));
    }
    out
}

} // verus!
