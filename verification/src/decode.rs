//! Decoding a frame: its family and command, then the command's items in
//! order, each group from the front of what is left, each switch by a value
//! decoded before it.

use vstd::prelude::*;
use vstd::string::StrSliceExecFns;
use crate::error::{failure_of, result_view, DecodeError, Failure};
use crate::frame::{
    command_of, family_of, find_command, find_family, frame_body, lemma_command_from,
    lemma_family_from, validate,
};
use crate::group::{decode_group, group_run, lemma_fields_run_shrinks, GroupRun};
use crate::json::{
    json_as_u64, json_object, json_text, object_get, object_insert, object_new, object_view, Json,
    Object,
};
use crate::model::{
    groups_view, CommandView, Group, GroupView, Item, ItemView, SpecFile, SpecFileView, Switch,
    SwitchView, Variant, VariantView,
};
use crate::radix::{case_key, case_key_text};
use crate::text::push_char;

verus! {

/// Where decoding stands inside a frame: the entries of the output tree
/// built so far, the typed values known by field name, what is left of the
/// frame, and the failure that stopped it, if one did.
pub struct Run {
    pub out: Map<Seq<char>, Json>,
    pub ctx: Map<Seq<char>, Json>,
    pub cursor: Seq<char>,
    pub failure: Option<Failure>,
}

/// A run that has not failed.
pub open spec fn running(out: Map<Seq<char>, Json>, ctx: Map<Seq<char>, Json>, cursor: Seq<char>) -> Run {
    Run { out, ctx, cursor, failure: None }
}

/// Decoding one group into the output tree, under the group's name and
/// over any earlier entry of that name. After a failure nothing changes any
/// more; a group that fails enters nothing.
pub open spec fn group_step(st: Run, g: GroupView) -> Run {
    if st.failure is Some {
        st
    } else {
        let end = group_run(g, st.cursor, st.ctx);
        match end.failure {
            Some(f) => Run { ctx: end.ctx, cursor: end.cursor, failure: Some(f), ..st },
            None => Run {
                out: st.out.insert(g.name, Json::Object(end.record)),
                ctx: end.ctx,
                cursor: end.cursor,
                failure: None,
            },
        }
    }
}

/// Decoding the first `n` groups of a list, in order, from `st`.
pub open spec fn groups_run(groups: Seq<GroupView>, n: nat, st: Run) -> Run
    decreases n,
{
    if n == 0 {
        st
    } else {
        group_step(groups_run(groups, (n - 1) as nat, st), groups[n - 1])
    }
}

/// The first case at or after position `i` whose key is `key`.
pub open spec fn case_from(cases: Seq<(Seq<char>, VariantView)>, key: Seq<char>, i: int) -> Option<int>
    decreases cases.len() - i,
{
    if i < 0 || i >= cases.len() {
        None
    } else if cases[i].0 == key {
        Some(i)
    } else {
        case_from(cases, key, i + 1)
    }
}

/// The case found has the key and none before it has; where none is
/// found, none has it.
pub proof fn lemma_case_from(cases: Seq<(Seq<char>, VariantView)>, key: Seq<char>, i: int)
    requires
        0 <= i,
    ensures
        match case_from(cases, key, i) {
            Some(k) => i <= k < cases.len() && cases[k].0 == key && forall|j: int|
                i <= j < k ==> (#[trigger] cases[j]).0 != key,
            None => forall|j: int| i <= j < cases.len() ==> (#[trigger] cases[j]).0 != key,
        },
    decreases cases.len() - i,
{
    if i < cases.len() && cases[i].0 != key {
        lemma_case_from(cases, key, i + 1);
    }
}

/// The discriminant of a switch: the value that the context holds for the
/// switch's field, which must be a number from 0 to `u64::MAX`.
pub open spec fn discriminant(sw: SwitchView, ctx: Map<Seq<char>, Json>) -> Result<nat, Failure> {
    if !ctx.contains_key(sw.switch) {
        Err(Failure::MissingField(sw.switch))
    } else {
        match ctx[sw.switch] {
            Json::Number(n) => if 0 <= n <= u64::MAX {
                Ok(n as nat)
            } else {
                Err(Failure::BadType(sw.switch))
            },
            _ => Err(Failure::BadType(sw.switch)),
        }
    }
}

/// The variant that a key selects: the case of that key, else the default,
/// else none.
pub open spec fn variant_for(sw: SwitchView, key: Seq<char>) -> Option<VariantView> {
    match case_from(sw.cases, key, 0) {
        Some(i) => Some(sw.cases[i].1),
        None => sw.default,
    }
}

/// The variant that a switch selects in a context, or why it selects none.
pub open spec fn selected_variant(sw: SwitchView, ctx: Map<Seq<char>, Json>) -> Result<
    VariantView,
    Failure,
> {
    match discriminant(sw, ctx) {
        Err(f) => Err(f),
        Ok(d) => match variant_for(sw, case_key_text(d)) {
            Some(v) => Ok(v),
            None => Err(Failure::UnknownCase(case_key_text(d), sw.switch)),
        },
    }
}

/// The output tree with a variant's description entered, where it has one.
pub open spec fn with_description(out: Map<Seq<char>, Json>, v: VariantView) -> Map<Seq<char>, Json> {
    match v.description {
        Some(d) => out.insert("variant_description"@, Json::Text(d)),
        None => out,
    }
}

/// Resolving one switch: the selected variant's description is entered in
/// the output tree, then its groups are decoded in order.
pub open spec fn switch_step(st: Run, sw: SwitchView) -> Run {
    if st.failure is Some {
        st
    } else {
        match selected_variant(sw, st.ctx) {
            Err(f) => Run { failure: Some(f), ..st },
            Ok(v) => groups_run(
                v.groups,
                v.groups.len(),
                Run { out: with_description(st.out, v), ..st },
            ),
        }
    }
}

/// Decoding one item of a command.
pub open spec fn item_step(st: Run, item: ItemView) -> Run {
    match item {
        ItemView::Group(g) => group_step(st, g),
        ItemView::Switch(sw) => switch_step(st, sw),
    }
}

/// Decoding the first `n` items of a command, in order, from `st`.
pub open spec fn items_run(items: Seq<ItemView>, n: nat, st: Run) -> Run
    decreases n,
{
    if n == 0 {
        st
    } else {
        item_step(items_run(items, (n - 1) as nat, st), items[n - 1])
    }
}

/// The entries every output tree starts with: the command letter, the
/// command's description (empty where it has none) and the frame as given.
pub open spec fn header(letter: char, cmd: CommandView, frame: Seq<char>) -> Map<Seq<char>, Json> {
    Map::<Seq<char>, Json>::empty().insert("cmd"@, Json::Text(seq![letter])).insert(
        "description"@,
        Json::Text(
            match cmd.description {
                Some(d) => d,
                None => Seq::empty(),
            },
        ),
    ).insert("raw"@, Json::Text(frame))
}

/// What a run that has come to its end returns.
pub open spec fn outcome(end: Run) -> Result<Json, Failure> {
    match end.failure {
        Some(f) => Err(f),
        None => Ok(Json::Object(end.out)),
    }
}

/// Decoding the body of a frame of a family: the first character selects
/// the command, whose items are decoded from the rest. What is left of the
/// body after the last item is padding and plays no part.
pub open spec fn body_decoded(frame: Seq<char>, body: Seq<char>, commands: Seq<CommandView>) -> Result<
    Json,
    Failure,
> {
    match command_of(body[0], commands) {
        None => Err(Failure::UnknownCommand(body[0])),
        Some(c) => outcome(
            items_run(
                commands[c].items,
                commands[c].items.len(),
                running(header(body[0], commands[c], frame), Map::empty(), body.drop_first()),
            ),
        ),
    }
}

/// The output tree of a frame under a grammar, or the failure to decode it.
pub open spec fn decoded(frame: Seq<char>, spec: SpecFileView) -> Result<Json, Failure> {
    match family_of(frame, spec.families) {
        None => Err(Failure::UnknownFamily),
        Some(i) => match frame_body(frame, spec.families[i]) {
            Err(f) => Err(f),
            Ok(body) => body_decoded(frame, body, spec.families[i].commands),
        },
    }
}

/// Once an item has failed, the groups after it change nothing.
pub proof fn lemma_groups_run_stops(groups: Seq<GroupView>, k: nat, n: nat, st: Run)
    requires
        k <= n,
        groups_run(groups, k, st).failure is Some,
    ensures
        groups_run(groups, n, st) == groups_run(groups, k, st),
    decreases n,
{
    if k < n {
        lemma_groups_run_stops(groups, k, (n - 1) as nat, st);
    }
}

/// Decoding groups never makes the cursor longer.
pub proof fn lemma_groups_run_shrinks(groups: Seq<GroupView>, n: nat, st: Run)
    ensures
        groups_run(groups, n, st).cursor.len() <= st.cursor.len(),
    decreases n,
{
    if n > 0 {
        lemma_groups_run_shrinks(groups, (n - 1) as nat, st);
        let before = groups_run(groups, (n - 1) as nat, st);
        let g = groups[n - 1];
        lemma_fields_run_shrinks(
            g.fields,
            g.fields.len(),
            GroupRun {
                record: Map::empty(),
                ctx: before.ctx,
                cursor: before.cursor,
                failure: None,
            },
        );
    }
}

/// Once an item has failed, the items after it change nothing.
pub proof fn lemma_items_run_stops(items: Seq<ItemView>, k: nat, n: nat, st: Run)
    requires
        k <= n,
        items_run(items, k, st).failure is Some,
    ensures
        items_run(items, n, st) == items_run(items, k, st),
    decreases n,
{
    if k < n {
        lemma_items_run_stops(items, k, (n - 1) as nat, st);
    }
}

/// Decoding one item never makes the cursor longer.
pub proof fn lemma_item_step_shrinks(st: Run, item: ItemView)
    ensures
        item_step(st, item).cursor.len() <= st.cursor.len(),
{
    match item {
        ItemView::Group(g) => {
            lemma_groups_run_shrinks(seq![g], 1, st);
            assert(groups_run(seq![g], 1, st) == group_step(groups_run(seq![g], 0, st), g));
        },
        ItemView::Switch(sw) => {
            if st.failure is None {
                if let Ok(v) = selected_variant(sw, st.ctx) {
                    lemma_groups_run_shrinks(
                        v.groups,
                        v.groups.len(),
                        Run { out: with_description(st.out, v), ..st },
                    );
                }
            }
        },
    }
}

/// Decoding items never makes the cursor longer.
pub proof fn lemma_items_run_shrinks(items: Seq<ItemView>, n: nat, st: Run)
    ensures
        items_run(items, n, st).cursor.len() <= st.cursor.len(),
    decreases n,
{
    if n > 0 {
        lemma_items_run_shrinks(items, (n - 1) as nat, st);
        lemma_item_step_shrinks(
            items_run(items, (n - 1) as nat, st),
            items[n - 1],
        );
    }
}

/// Whether a result is the expected variant, or the error that states the
/// expected failure.
pub open spec fn gives_variant(r: Result<&Variant, DecodeError>, expected: Result<VariantView, Failure>) -> bool {
    match expected {
        Ok(v) => r matches Ok(x) && x@ == v,
        Err(f) => r matches Err(e) && e@ == f,
    }
}

/// Selects the variant of a switch.
///
/// The context must hold a number for the switch's field; its case key
/// selects the first case of that key, and the default where no case has
/// it. A switch whose field was not decoded, or whose key matches no case
/// while it has no default, fails.
#[verifier::loop_isolation(false)]
pub fn select_variant<'a>(sw: &'a Switch, ctx: &Object) -> (r: Result<&'a Variant, DecodeError>)
    ensures
        gives_variant(r, selected_variant(sw@, object_view(*ctx))),
{
    let disc = match object_get(ctx, sw.switch.as_str()) {
        None => {
            return Err(DecodeError::MissingField(sw.switch.clone()));
        },
        Some(v) => match json_as_u64(v) {
            None => {
                return Err(DecodeError::BadType(sw.switch.clone()));
            },
            Some(d) => d,
        },
    };
    let key = case_key(disc);
    let mut i: usize = 0;
    while i < sw.cases.len()
        invariant
            i <= sw.cases.len(),
            case_from(sw@.cases, key@, 0) == case_from(sw@.cases, key@, i as int),
        decreases sw.cases.len() - i,
    {
        let case = &sw.cases[i];
        assert(sw@.cases[i as int] == (case.0@, case.1@));
        if case.0 == key {
            return Ok(&case.1);
        }
        i = i + 1;
    }
    match &sw.default {
        Some(v) => Ok(v),
        None => Err(DecodeError::UnknownCase(key, sw.switch.clone())),
    }
}

/// Decodes groups in order, each into `out` under its name.
#[verifier::loop_isolation(false)]
pub fn decode_groups<'a>(
    groups: &Vec<Group>,
    cursor: &mut &'a str,
    ctx: &mut Object,
    out: &mut Object,
) -> (r: Result<(), DecodeError>)
    ensures
        object_view(*final(out)) == groups_run(
            groups_view(groups@),
            groups@.len(),
            running(object_view(*old(out)), object_view(*old(ctx)), old(cursor)@),
        ).out,
        object_view(*final(ctx)) == groups_run(
            groups_view(groups@),
            groups@.len(),
            running(object_view(*old(out)), object_view(*old(ctx)), old(cursor)@),
        ).ctx,
        final(cursor)@ == groups_run(
            groups_view(groups@),
            groups@.len(),
            running(object_view(*old(out)), object_view(*old(ctx)), old(cursor)@),
        ).cursor,
        failure_of(r) == groups_run(
                groups_view(groups@),
                groups@.len(),
                running(object_view(*old(out)), object_view(*old(ctx)), old(cursor)@),
            ).failure,
{
    let ghost init = running(object_view(*out), object_view(*ctx), cursor@);
    let ghost views = groups_view(groups@);
    let mut i: usize = 0;
    while i < groups.len()
        invariant
            i <= groups.len(),
            groups_run(views, i as nat, init) == running(
                object_view(*out),
                object_view(*ctx),
                cursor@,
            ),
        decreases groups.len() - i,
    {
        let g = &groups[i];
        assert(views[i as int] == g@);
        match decode_group(g, cursor, ctx) {
            Ok(record) => {
                object_insert(out, g.name.clone(), record);
            },
            Err(e) => {
                proof {
                    lemma_groups_run_stops(views, (i + 1) as nat, views.len(), init);
                }
                return Err(e);
            },
        }
        i = i + 1;
    }
    Ok(())
}

/// Decodes one item of a command: a group into `out` under its name, or a
/// switch by its selected variant.
pub fn decode_item<'a>(item: &Item, cursor: &mut &'a str, ctx: &mut Object, out: &mut Object) -> (r:
    Result<(), DecodeError>)
    ensures
        object_view(*final(out)) == item_step(
            running(object_view(*old(out)), object_view(*old(ctx)), old(cursor)@),
            item@,
        ).out,
        object_view(*final(ctx)) == item_step(
            running(object_view(*old(out)), object_view(*old(ctx)), old(cursor)@),
            item@,
        ).ctx,
        final(cursor)@ == item_step(
            running(object_view(*old(out)), object_view(*old(ctx)), old(cursor)@),
            item@,
        ).cursor,
        failure_of(r) == item_step(
                running(object_view(*old(out)), object_view(*old(ctx)), old(cursor)@),
                item@,
            ).failure,
{
    match item {
        Item::Group(g) => {
            match decode_group(g, cursor, ctx) {
                Ok(record) => {
                    object_insert(out, g.name.clone(), record);
                    Ok(())
                },
                Err(e) => Err(e),
            }
        },
        Item::Switch(sw) => {
            let variant = match select_variant(sw, ctx) {
                Ok(v) => v,
                Err(e) => {
                    return Err(e);
                },
            };
            match &variant.description {
                Some(d) => {
                    object_insert(out, "variant_description".to_string(), json_text(d.clone()));
                },
                None => {},
            }
            decode_groups(&variant.groups, cursor, ctx, out)
        },
    }
}

/// Decodes a frame by a grammar into its output tree.
///
/// The frame's family is the first whose start marker begins it. The frame
/// must have the family's length and end in one to three terminators; the
/// first character of its body selects the command, whose items are then
/// decoded in order from the rest of the body. What is left after the last
/// item is padding. The first failure ends the decoding and is the result.
///
/// Every frame and every grammar is taken. A frame in which start marker
/// and terminators leave no room for a command letter, and a field that is
/// reached and has a radix below 2 or above 36, are reported as a malformed
/// grammar.
#[verifier::loop_isolation(false)]
pub fn decode(frame: &str, spec: &SpecFile) -> (r: Result<serde_json::Value, DecodeError>)
    ensures
        result_view(r) == decoded(frame@, spec@),
{
    let family = match find_family(frame, spec) {
        Some(i) => &spec.families[i],
        None => {
            return Err(DecodeError::UnknownFamily);
        },
    };
    proof {
        lemma_family_from(frame@, spec@.families, 0);
    }
    let body = match validate(frame, family) {
        Ok(b) => b,
        Err(e) => {
            return Err(e);
        },
    };
    let letter = body.get_char(0);
    let cmd = match find_command(letter, family) {
        Some(i) => &family.commands[i],
        None => {
            return Err(DecodeError::UnknownCommand(letter));
        },
    };
    proof {
        lemma_command_from(letter, family@.commands, 0);
    }
    let mut cursor = body.substring_char(1, body.unicode_len());
    let mut cmd_text = String::new();
    push_char(&mut cmd_text, letter);
    let description = match &cmd.description {
        Some(d) => d.clone(),
        None => String::new(),
    };
    let mut out = object_new();
    object_insert(&mut out, "cmd".to_string(), json_text(cmd_text));
    object_insert(&mut out, "description".to_string(), json_text(description));
    object_insert(&mut out, "raw".to_string(), json_text(frame.to_owned()));
    let mut ctx = object_new();
    let ghost items = cmd@.items;
    let ghost init = running(object_view(out), object_view(ctx), cursor@);
    proof {
        assert(cmd_text@ =~= seq![letter]);
        assert(cursor@ =~= body@.drop_first());
        assert(init == running(header(letter, cmd@, frame@), Map::empty(), body@.drop_first()));
    }
    let mut i: usize = 0;
    while i < cmd.items.len()
        invariant
            i <= cmd.items.len(),
            items_run(items, i as nat, init) == running(
                object_view(out),
                object_view(ctx),
                cursor@,
            ),
        decreases cmd.items.len() - i,
    {
        let item = &cmd.items[i];
        assert(items[i as int] == item@);
        match decode_item(item, &mut cursor, &mut ctx, &mut out) {
            Ok(()) => {},
            Err(e) => {
                proof {
                    lemma_items_run_stops(items, (i + 1) as nat, items.len(), init);
                }
                return Err(e);
            },
        }
        i = i + 1;
    }
    Ok(json_object(out))
}

} // verus!
