//! Decoding one group: its fields, in order, each from the front of what is
//! left of the frame.

use vstd::prelude::*;
use vstd::string::StrSliceExecFns;
use crate::error::{result_view, DecodeError, Failure};
use crate::json::{
    json_clone, json_object, json_text, json_view, object_insert, object_new, object_view, Json,
    Object,
};
use crate::model::{Field, FieldView, Group, GroupView};
use crate::radix::{field_value, slice_val};

verus! {

/// Where decoding stands inside a group: the record built so far, the
/// values known by field name, what is left of the frame, and the failure
/// that stopped it, if one did.
pub struct GroupRun {
    pub record: Map<Seq<char>, Json>,
    pub ctx: Map<Seq<char>, Json>,
    pub cursor: Seq<char>,
    pub failure: Option<Failure>,
}

/// The record entry of one field: its slice as written, its typed value
/// and, where the field has one, its description.
pub open spec fn field_entry(slice: Seq<char>, value: Json, description: Option<Seq<char>>) -> Json {
    let entry = Map::<Seq<char>, Json>::empty().insert("hex"@, Json::Text(slice)).insert(
        "value"@,
        value,
    );
    match description {
        Some(d) => Json::Object(entry.insert("description"@, Json::Text(d))),
        None => Json::Object(entry),
    }
}

/// What decoding one field from the front of `cursor` gives: the slice it
/// takes, exactly as wide as the field, and the slice's typed value. A field
/// wider than what is left is too short an input. A field that fits and has
/// a radix without digits is a malformed grammar; a slice that is no number
/// in the field's radix is a failure to parse.
pub open spec fn field_decoded(cursor: Seq<char>, f: FieldView) -> Result<(Seq<char>, Json), Failure> {
    if cursor.len() < f.len {
        Err(Failure::InputTooShort { field: f.name, needed: f.len, got: cursor.len() })
    } else {
        match field_value(cursor.take(f.len as int), f.base, f.typ) {
            Ok(v) => Ok((cursor.take(f.len as int), v)),
            Err(e) => Err(e),
        }
    }
}

/// What decoding one field leaves of `cursor`: all of it where the field
/// is wider, and else what follows the field's width, whether or not the
/// slice was a number.
pub open spec fn field_rest(cursor: Seq<char>, f: FieldView) -> Seq<char> {
    if cursor.len() < f.len {
        cursor
    } else {
        cursor.skip(f.len as int)
    }
}

/// Decoding one field inside a group. After a failure nothing changes any
/// more. A field that decodes is entered in the record and, over any
/// earlier value of its name, in the context.
pub open spec fn field_step(st: GroupRun, f: FieldView) -> GroupRun {
    if st.failure is Some {
        st
    } else {
        match field_decoded(st.cursor, f) {
            Err(e) => GroupRun { cursor: field_rest(st.cursor, f), failure: Some(e), ..st },
            Ok((slice, v)) => GroupRun {
                record: st.record.insert(f.name, field_entry(slice, v, f.description)),
                ctx: st.ctx.insert(f.name, v),
                cursor: field_rest(st.cursor, f),
                failure: None,
            },
        }
    }
}

/// Decoding the first `n` fields of a list, in order, from `st`.
pub open spec fn fields_run(fields: Seq<FieldView>, n: nat, st: GroupRun) -> GroupRun
    decreases n,
{
    if n == 0 {
        st
    } else {
        field_step(fields_run(fields, (n - 1) as nat, st), fields[n - 1])
    }
}

/// Decoding a whole group from the given cursor and context.
pub open spec fn group_run(g: GroupView, cursor: Seq<char>, ctx: Map<Seq<char>, Json>) -> GroupRun {
    fields_run(
        g.fields,
        g.fields.len(),
        GroupRun { record: Map::empty(), ctx, cursor, failure: None },
    )
}

/// What a group's decoding returns: its record, or the failure.
pub open spec fn group_outcome(end: GroupRun) -> Result<Json, Failure> {
    match end.failure {
        Some(f) => Err(f),
        None => Ok(Json::Object(end.record)),
    }
}

/// Once a field has failed, the fields after it change nothing.
pub proof fn lemma_fields_run_stops(fields: Seq<FieldView>, k: nat, n: nat, st: GroupRun)
    requires
        k <= n,
        fields_run(fields, k, st).failure is Some,
    ensures
        fields_run(fields, n, st) == fields_run(fields, k, st),
    decreases n,
{
    if k < n {
        lemma_fields_run_stops(fields, k, (n - 1) as nat, st);
    }
}

/// Decoding never makes the cursor longer.
pub proof fn lemma_fields_run_shrinks(fields: Seq<FieldView>, n: nat, st: GroupRun)
    ensures
        fields_run(fields, n, st).cursor.len() <= st.cursor.len(),
    decreases n,
{
    if n > 0 {
        lemma_fields_run_shrinks(fields, (n - 1) as nat, st);
    }
}

/// Whether a result is the expected one: the slice with the expected
/// characters and the JSON value with the expected content, or the error
/// that states the expected failure.
pub open spec fn gives_field(r: Result<(&str, serde_json::Value), DecodeError>, expected: Result<
    (Seq<char>, Json),
    Failure,
>) -> bool {
    match expected {
        Ok((slice, v)) => r matches Ok((s, j)) && s@ == slice && json_view(j) == v,
        Err(f) => r matches Err(e) && e@ == f,
    }
}

/// Decodes one field from the front of `cursor`.
///
/// The field takes exactly its width, never less and never more, and
/// leaves the rest in `cursor`. The result holds the slice as written and
/// its typed value.
pub fn decode_field<'a>(cursor: &mut &'a str, f: &Field) -> (r: Result<
    (&'a str, serde_json::Value),
    DecodeError,
>)
    ensures
        final(cursor)@ == field_rest(old(cursor)@, f@),
        gives_field(r, field_decoded(old(cursor)@, f@)),
{
    let whole: &'a str = *cursor;
    let left = whole.unicode_len();
    if left < f.len as usize {
        return Err(
            DecodeError::InputTooShort { field: f.name.clone(), needed: f.len, got: left as u32 },
        );
    }
    let slice = whole.substring_char(0, f.len as usize);
    *cursor = whole.substring_char(f.len as usize, left);
    match slice_val(slice, f.base, f.typ.as_str()) {
        Ok(v) => Ok((slice, v)),
        Err(e) => Err(e),
    }
}

/// Decodes the fields of `g` from the front of `cursor`, in order.
///
/// Each field takes exactly its width and leaves the rest in `cursor`; its
/// typed value goes into `ctx` under the field's name. The result is the
/// group's record, or the failure of the first field that could not be
/// decoded.
#[verifier::loop_isolation(false)]
pub fn decode_group<'a>(g: &Group, cursor: &mut &'a str, ctx: &mut Object) -> (r: Result<
    serde_json::Value,
    DecodeError,
>)
    ensures
        final(cursor)@ == group_run(g@, old(cursor)@, object_view(*old(ctx))).cursor,
        object_view(*final(ctx)) == group_run(g@, old(cursor)@, object_view(*old(ctx))).ctx,
        result_view(r) == group_outcome(group_run(g@, old(cursor)@, object_view(*old(ctx)))),
{
    let ghost init = GroupRun {
        record: Map::empty(),
        ctx: object_view(*ctx),
        cursor: cursor@,
        failure: None,
    };
    let ghost fields = g@.fields;
    let mut record = object_new();
    let mut i: usize = 0;
    while i < g.fields.len()
        invariant
            i <= g.fields.len(),
            fields_run(fields, i as nat, init) == (GroupRun {
                record: object_view(record),
                ctx: object_view(*ctx),
                cursor: cursor@,
                failure: None,
            }),
        decreases g.fields.len() - i,
    {
        let f = &g.fields[i];
        assert(fields[i as int] == f@);
        let (slice, value) = match decode_field(cursor, f) {
            Ok(taken) => taken,
            Err(e) => {
                proof {
                    lemma_fields_run_stops(fields, (i + 1) as nat, fields.len(), init);
                }
                return Err(e);
            },
        };
        object_insert(ctx, f.name.clone(), json_clone(&value));
        let mut entry = object_new();
        object_insert(&mut entry, "hex".to_string(), json_text(slice.to_owned()));
        object_insert(&mut entry, "value".to_string(), value);
        match &f.description {
            Some(d) => {
                object_insert(&mut entry, "description".to_string(), json_text(d.clone()));
            },
            None => {},
        }
        object_insert(&mut record, f.name.clone(), json_object(entry));
        i = i + 1;
    }
    Ok(json_object(record))
}

} // verus!
