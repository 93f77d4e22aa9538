//! What holds of decoding as a whole: laws that relate the functions of
//! this crate to each other, each stated over the same models as the
//! functions' own contracts and proved from them.

use vstd::prelude::*;
use crate::decode::{
    body_decoded, case_from, decoded, discriminant, group_step, groups_run, header, item_step,
    items_run, lemma_case_from, lemma_groups_run_shrinks, lemma_item_step_shrinks,
    lemma_items_run_shrinks, lemma_items_run_stops, running, selected_variant, with_description,
    Run,
};
use crate::error::{result_view, DecodeError, Failure};
use crate::frame::{command_of, family_of, frame_body};
use crate::group::{
    field_step, fields_run, group_run, lemma_fields_run_shrinks, lemma_fields_run_stops, GroupRun,
};
use crate::json::Json;
use crate::model::{
    CommandView, FamilyView, FieldView, GroupView, ItemView, SpecFileView, SwitchView,
    VariantView,
};
use crate::text::trailing_run;
use crate::radix::{
    all_digits, case_key_text, digit_of, digits_number, hex_digit, hex_text, hex_width,
    parsed_u32,
};

verus! {

/// Decoding is a function of the frame and the grammar: whatever two
/// decodings of one frame by one grammar return, they hold the same tree or
/// state the same failure.
pub proof fn law_decoding_is_deterministic(
    frame: Seq<char>,
    spec: SpecFileView,
    first: Result<serde_json::Value, DecodeError>,
    second: Result<serde_json::Value, DecodeError>,
)
    requires
        result_view(first) == decoded(frame, spec),
        result_view(second) == decoded(frame, spec),
    ensures
        result_view(first) == result_view(second),
{
}

/// Whether two texts are at least `k` long and hold the same first `k`
/// characters.
pub open spec fn agree(a: Seq<char>, b: Seq<char>, k: int) -> bool {
    0 <= k <= a.len() && k <= b.len() && a.take(k) == b.take(k)
}

/// A run inside a group with something else left of the frame.
pub open spec fn group_moved(st: GroupRun, cursor: Seq<char>) -> GroupRun {
    GroupRun { cursor, ..st }
}

/// A run with something else left of the frame.
pub open spec fn moved(st: Run, cursor: Seq<char>) -> Run {
    Run { cursor, ..st }
}

/// Texts that agree on their first `k` characters agree on fewer, and what
/// follows those agrees on the rest.
proof fn lemma_agree_parts(a: Seq<char>, b: Seq<char>, k: int, j: int)
    requires
        agree(a, b, k),
        0 <= j <= k,
    ensures
        agree(a, b, j),
        agree(a.skip(j), b.skip(j), k - j),
{
    assert forall|i: int| 0 <= i < k implies a[i] == b[i] by {
        assert(a.take(k)[i] == b.take(k)[i]);
    }
    assert(a.take(j) =~= b.take(j));
    assert(a.skip(j).take(k - j) =~= b.skip(j).take(k - j));
}

/// A field that decodes takes its width from the front and looks at
/// nothing behind it.
pub proof fn lemma_field_step_local(st: GroupRun, f: FieldView, other: Seq<char>)
    requires
        field_step(st, f).failure is None,
        agree(st.cursor, other, st.cursor.len() - field_step(st, f).cursor.len()),
    ensures
        field_step(st, f).cursor == st.cursor.skip(
            st.cursor.len() - field_step(st, f).cursor.len(),
        ),
        field_step(group_moved(st, other), f) == group_moved(
            field_step(st, f),
            other.skip(st.cursor.len() - field_step(st, f).cursor.len()),
        ),
{
}

/// Fields that decode take what they take from the front and look at
/// nothing behind it.
pub proof fn lemma_fields_run_local(fields: Seq<FieldView>, n: nat, st: GroupRun, other: Seq<char>)
    requires
        fields_run(fields, n, st).failure is None,
        agree(st.cursor, other, st.cursor.len() - fields_run(fields, n, st).cursor.len()),
    ensures
        fields_run(fields, n, st).cursor == st.cursor.skip(
            st.cursor.len() - fields_run(fields, n, st).cursor.len(),
        ),
        fields_run(fields, n, group_moved(st, other)) == group_moved(
            fields_run(fields, n, st),
            other.skip(st.cursor.len() - fields_run(fields, n, st).cursor.len()),
        ),
    decreases n,
{
    if n > 0 {
        let before = fields_run(fields, (n - 1) as nat, st);
        let end = field_step(before, fields[n - 1]);
        let used = st.cursor.len() - end.cursor.len();
        let first = st.cursor.len() - before.cursor.len();
        lemma_fields_run_shrinks(fields, (n - 1) as nat, st);
        lemma_agree_parts(st.cursor, other, used, first);
        lemma_fields_run_local(fields, (n - 1) as nat, st, other);
        lemma_field_step_local(before, fields[n - 1], other.skip(first));
        assert(st.cursor.skip(first).skip(used - first) =~= st.cursor.skip(used));
        assert(other.skip(first).skip(used - first) =~= other.skip(used));
    } else {
        assert(st.cursor.skip(0) =~= st.cursor);
        assert(other.skip(0) =~= other);
    }
}

/// A group that decodes takes what it takes from the front and looks at
/// nothing behind it.
pub proof fn lemma_group_step_local(st: Run, g: GroupView, other: Seq<char>)
    requires
        group_step(st, g).failure is None,
        agree(st.cursor, other, st.cursor.len() - group_step(st, g).cursor.len()),
    ensures
        group_step(st, g).cursor == st.cursor.skip(
            st.cursor.len() - group_step(st, g).cursor.len(),
        ),
        group_step(moved(st, other), g) == moved(
            group_step(st, g),
            other.skip(st.cursor.len() - group_step(st, g).cursor.len()),
        ),
{
    let start = GroupRun { record: Map::empty(), ctx: st.ctx, cursor: st.cursor, failure: None };
    lemma_fields_run_local(g.fields, g.fields.len(), start, other);
    assert(group_moved(start, other) == GroupRun {
        record: Map::empty(),
        ctx: st.ctx,
        cursor: other,
        failure: None,
    });
}

/// Groups that decode take what they take from the front and look at
/// nothing behind it.
pub proof fn lemma_groups_run_local(groups: Seq<GroupView>, n: nat, st: Run, other: Seq<char>)
    requires
        groups_run(groups, n, st).failure is None,
        agree(st.cursor, other, st.cursor.len() - groups_run(groups, n, st).cursor.len()),
    ensures
        groups_run(groups, n, st).cursor == st.cursor.skip(
            st.cursor.len() - groups_run(groups, n, st).cursor.len(),
        ),
        groups_run(groups, n, moved(st, other)) == moved(
            groups_run(groups, n, st),
            other.skip(st.cursor.len() - groups_run(groups, n, st).cursor.len()),
        ),
    decreases n,
{
    if n > 0 {
        let before = groups_run(groups, (n - 1) as nat, st);
        let end = group_step(before, groups[n - 1]);
        let used = st.cursor.len() - end.cursor.len();
        let first = st.cursor.len() - before.cursor.len();
        lemma_groups_run_shrinks(groups, (n - 1) as nat, st);
        lemma_item_step_shrinks(before, ItemView::Group(groups[n - 1]));
        lemma_agree_parts(st.cursor, other, used, first);
        lemma_groups_run_local(groups, (n - 1) as nat, st, other);
        lemma_group_step_local(before, groups[n - 1], other.skip(first));
        assert(st.cursor.skip(first).skip(used - first) =~= st.cursor.skip(used));
        assert(other.skip(first).skip(used - first) =~= other.skip(used));
    } else {
        assert(st.cursor.skip(0) =~= st.cursor);
        assert(other.skip(0) =~= other);
    }
}

/// An item that decodes takes what it takes from the front and looks at
/// nothing behind it.
pub proof fn lemma_item_step_local(st: Run, item: ItemView, other: Seq<char>)
    requires
        item_step(st, item).failure is None,
        agree(st.cursor, other, st.cursor.len() - item_step(st, item).cursor.len()),
    ensures
        item_step(st, item).cursor == st.cursor.skip(
            st.cursor.len() - item_step(st, item).cursor.len(),
        ),
        item_step(moved(st, other), item) == moved(
            item_step(st, item),
            other.skip(st.cursor.len() - item_step(st, item).cursor.len()),
        ),
{
    match item {
        ItemView::Group(g) => {
            lemma_group_step_local(st, g, other);
        },
        ItemView::Switch(sw) => {
            let v = selected_variant(sw, st.ctx)->Ok_0;
            let entered = Run { out: with_description(st.out, v), ..st };
            lemma_groups_run_local(v.groups, v.groups.len(), entered, other);
            assert(moved(entered, other) == Run {
                out: with_description(st.out, v),
                ..moved(st, other)
            });
        },
    }
}

/// Items that decode take what they take from the front and look at
/// nothing behind it: with the same characters up to there and any others
/// after, they give the same entries and the same context.
pub proof fn lemma_items_run_local(items: Seq<ItemView>, n: nat, st: Run, other: Seq<char>)
    requires
        items_run(items, n, st).failure is None,
        agree(st.cursor, other, st.cursor.len() - items_run(items, n, st).cursor.len()),
    ensures
        items_run(items, n, st).cursor == st.cursor.skip(
            st.cursor.len() - items_run(items, n, st).cursor.len(),
        ),
        items_run(items, n, moved(st, other)) == moved(
            items_run(items, n, st),
            other.skip(st.cursor.len() - items_run(items, n, st).cursor.len()),
        ),
    decreases n,
{
    if n > 0 {
        let before = items_run(items, (n - 1) as nat, st);
        let end = item_step(before, items[n - 1]);
        let used = st.cursor.len() - end.cursor.len();
        let first = st.cursor.len() - before.cursor.len();
        lemma_items_run_shrinks(items, (n - 1) as nat, st);
        lemma_item_step_shrinks(before, items[n - 1]);
        lemma_agree_parts(st.cursor, other, used, first);
        lemma_items_run_local(items, (n - 1) as nat, st, other);
        lemma_item_step_local(before, items[n - 1], other.skip(first));
        assert(st.cursor.skip(first).skip(used - first) =~= st.cursor.skip(used));
        assert(other.skip(first).skip(used - first) =~= other.skip(used));
    } else {
        assert(st.cursor.skip(0) =~= st.cursor);
        assert(other.skip(0) =~= other);
    }
}

/// How many characters of a body its decoding takes: the command letter
/// and what the command's items take after it.
pub open spec fn body_used(frame: Seq<char>, body: Seq<char>, commands: Seq<CommandView>) -> int {
    let c = command_of(body[0], commands)->0;
    body.len() - items_run(
        commands[c].items,
        commands[c].items.len(),
        running(header(body[0], commands[c], frame), Map::empty(), body.drop_first()),
    ).cursor.len()
}

/// Where a body decodes, every body that holds the same characters up to
/// the end of the last field decodes to the same tree under the same frame
/// text, whatever it holds after them.
pub proof fn lemma_body_decoded_local(
    frame: Seq<char>,
    body: Seq<char>,
    other: Seq<char>,
    commands: Seq<CommandView>,
)
    requires
        body.len() > 0,
        body_decoded(frame, body, commands) is Ok,
        agree(body, other, body_used(frame, body, commands)),
    ensures
        1 <= body_used(frame, body, commands) <= body.len(),
        body_decoded(frame, other, commands) == body_decoded(frame, body, commands),
{
    let c = command_of(body[0], commands)->0;
    let items = commands[c].items;
    let start = running(
        header(body[0], commands[c], frame),
        Map::empty(),
        body.drop_first(),
    );
    let used = body_used(frame, body, commands);
    lemma_items_run_shrinks(items, items.len(), start);
    lemma_agree_parts(body, other, used, 1);
    assert(body.take(1)[0] == other.take(1)[0]);
    assert(body.skip(1) =~= body.drop_first());
    assert(other.skip(1) =~= other.drop_first());
    lemma_items_run_local(items, items.len(), start, other.drop_first());
    assert(moved(start, other.drop_first()) == running(
        header(body[0], commands[c], frame),
        Map::empty(),
        other.drop_first(),
    ));
}

/// Whether two output trees are the same but for the frame text they
/// hold: they have the same keys, hold the same under every key but `raw`,
/// and under `raw` each holds its own frame text, unless they hold the same
/// there too (which a group named `raw` brings about).
pub open spec fn same_but_raw(
    first: Map<Seq<char>, Json>,
    second: Map<Seq<char>, Json>,
    f1: Seq<char>,
    f2: Seq<char>,
) -> bool {
    &&& first.dom() =~= second.dom()
    &&& forall|k: Seq<char>| k != "raw"@ ==> #[trigger] first[k] == second[k]
    &&& first["raw"@] == second["raw"@] || (first["raw"@] == Json::Text(f1) && second["raw"@]
        == Json::Text(f2))
}

/// A run with another output tree.
pub open spec fn with_out(st: Run, out: Map<Seq<char>, Json>) -> Run {
    Run { out, ..st }
}

/// What a group does to the output tree does not depend on what the tree
/// holds.
pub proof fn lemma_group_step_out(
    st: Run,
    g: GroupView,
    out: Map<Seq<char>, Json>,
    f1: Seq<char>,
    f2: Seq<char>,
)
    requires
        same_but_raw(st.out, out, f1, f2),
    ensures
        same_but_raw(group_step(st, g).out, group_step(with_out(st, out), g).out, f1, f2),
        group_step(with_out(st, out), g) == with_out(
            group_step(st, g),
            group_step(with_out(st, out), g).out,
        ),
{
}

/// What groups do to the output tree does not depend on what the tree holds.
pub proof fn lemma_groups_run_out(
    groups: Seq<GroupView>,
    n: nat,
    st: Run,
    out: Map<Seq<char>, Json>,
    f1: Seq<char>,
    f2: Seq<char>,
)
    requires
        same_but_raw(st.out, out, f1, f2),
    ensures
        same_but_raw(
            groups_run(groups, n, st).out,
            groups_run(groups, n, with_out(st, out)).out,
            f1,
            f2,
        ),
        groups_run(groups, n, with_out(st, out)) == with_out(
            groups_run(groups, n, st),
            groups_run(groups, n, with_out(st, out)).out,
        ),
    decreases n,
{
    if n > 0 {
        lemma_groups_run_out(groups, (n - 1) as nat, st, out, f1, f2);
        let before = groups_run(groups, (n - 1) as nat, st);
        let other = groups_run(groups, (n - 1) as nat, with_out(st, out));
        lemma_group_step_out(before, groups[n - 1], other.out, f1, f2);
    }
}

/// What an item does to the output tree does not depend on what the tree
/// holds.
pub proof fn lemma_item_step_out(
    st: Run,
    item: ItemView,
    out: Map<Seq<char>, Json>,
    f1: Seq<char>,
    f2: Seq<char>,
)
    requires
        same_but_raw(st.out, out, f1, f2),
    ensures
        same_but_raw(item_step(st, item).out, item_step(with_out(st, out), item).out, f1, f2),
        item_step(with_out(st, out), item) == with_out(
            item_step(st, item),
            item_step(with_out(st, out), item).out,
        ),
{
    match item {
        ItemView::Group(g) => {
            lemma_group_step_out(st, g, out, f1, f2);
        },
        ItemView::Switch(sw) => {
            if st.failure is None {
                if let Ok(v) = selected_variant(sw, st.ctx) {
                    let entered = Run { out: with_description(st.out, v), ..st };
                    lemma_groups_run_out(
                        v.groups,
                        v.groups.len(),
                        entered,
                        with_description(out, v),
                        f1,
                        f2,
                    );
                    assert(with_out(entered, with_description(out, v)) == Run {
                        out: with_description(out, v),
                        ..with_out(st, out)
                    });
                }
            }
        },
    }
}

/// What items do to the output tree does not depend on what the tree holds.
pub proof fn lemma_items_run_out(
    items: Seq<ItemView>,
    n: nat,
    st: Run,
    out: Map<Seq<char>, Json>,
    f1: Seq<char>,
    f2: Seq<char>,
)
    requires
        same_but_raw(st.out, out, f1, f2),
    ensures
        same_but_raw(
            items_run(items, n, st).out,
            items_run(items, n, with_out(st, out)).out,
            f1,
            f2,
        ),
        items_run(items, n, with_out(st, out)) == with_out(
            items_run(items, n, st),
            items_run(items, n, with_out(st, out)).out,
        ),
    decreases n,
{
    if n > 0 {
        lemma_items_run_out(items, (n - 1) as nat, st, out, f1, f2);
        let before = items_run(items, (n - 1) as nat, st);
        let other = items_run(items, (n - 1) as nat, with_out(st, out));
        lemma_item_step_out(before, items[n - 1], other.out, f1, f2);
    }
}

/// The family that a frame belongs to.
pub open spec fn frame_family(frame: Seq<char>, spec: SpecFileView) -> FamilyView {
    spec.families[family_of(frame, spec.families)->0]
}

/// Whether a frame passes the checks of its family and names a command.
pub open spec fn framed(frame: Seq<char>, spec: SpecFileView) -> bool {
    &&& family_of(frame, spec.families) is Some
    &&& frame_body(frame, frame_family(frame, spec)) is Ok
    &&& command_of(
        (frame_body(frame, frame_family(frame, spec))->Ok_0)[0],
        frame_family(frame, spec).commands,
    ) is Some
}

/// The command that a frame names.
pub open spec fn frame_command(frame: Seq<char>, spec: SpecFileView) -> CommandView {
    let fam = frame_family(frame, spec);
    fam.commands[command_of((frame_body(frame, fam)->Ok_0)[0], fam.commands)->0]
}

/// What follows the command letter in a frame's body: the characters that
/// the command's items are decoded from.
pub open spec fn frame_payload(frame: Seq<char>, spec: SpecFileView) -> Seq<char> {
    (frame_body(frame, frame_family(frame, spec))->Ok_0).drop_first()
}

/// The run that decoding the items of a frame's command starts from.
pub open spec fn frame_start(frame: Seq<char>, spec: SpecFileView) -> Run {
    running(
        header(
            (frame_body(frame, frame_family(frame, spec))->Ok_0)[0],
            frame_command(frame, spec),
            frame,
        ),
        Map::empty(),
        frame_payload(frame, spec),
    )
}

/// How many characters from its start a frame's decoding takes: the
/// start marker, the command letter and all that the command's items take.
pub open spec fn frame_used(frame: Seq<char>, spec: SpecFileView) -> int {
    let fam = frame_family(frame, spec);
    fam.start.len() + body_used(frame, frame_body(frame, fam)->Ok_0, fam.commands)
}

/// Padding is never inspected. Where a frame decodes, every frame of the
/// same family and length that holds the same characters up to the end of
/// the last field, and ends in as many terminators, decodes as well,
/// whatever it holds between the last field and the terminators; and the
/// two trees are the same but for the frame text under `raw`.
pub proof fn law_padding_is_never_inspected(f1: Seq<char>, f2: Seq<char>, spec: SpecFileView)
    requires
        decoded(f1, spec) is Ok,
        family_of(f2, spec.families) == family_of(f1, spec.families),
        f2.len() == f1.len(),
        trailing_run(f2, frame_family(f1, spec).terminator[0]) == trailing_run(
            f1,
            frame_family(f1, spec).terminator[0],
        ),
        agree(f1, f2, frame_used(f1, spec)),
    ensures
        decoded(f1, spec) matches Ok(Json::Object(first)) && decoded(f2, spec) matches Ok(
            Json::Object(second),
        ) && same_but_raw(first, second, f1, f2),
{
    let fam = frame_family(f1, spec);
    let b1 = frame_body(f1, fam)->Ok_0;
    let b2 = frame_body(f2, fam)->Ok_0;
    let from = fam.start.len() as int;
    let used = body_used(f1, b1, fam.commands);
    let c = command_of(b1[0], fam.commands)->0;
    let cmd = fam.commands[c];
    let start1 = running(header(b1[0], cmd, f1), Map::empty(), b1.drop_first());
    lemma_items_run_shrinks(cmd.items, cmd.items.len(), start1);
    lemma_agree_parts(f1, f2, from + used, from);
    assert(b1.take(used) =~= f1.skip(from).take(used));
    assert(b2.take(used) =~= f2.skip(from).take(used));
    lemma_body_decoded_local(f1, b1, b2, fam.commands);
    assert(b1.take(used)[0] == b2.take(used)[0]);
    // The same body under the other frame text.
    let start2 = running(header(b2[0], cmd, f1), Map::empty(), b2.drop_first());
    let under2 = running(header(b2[0], cmd, f2), Map::empty(), b2.drop_first());
    assert(under2 == with_out(start2, header(b2[0], cmd, f2)));
    lemma_items_run_out(cmd.items, cmd.items.len(), start2, header(b2[0], cmd, f2), f1, f2);
}

/// A switch whose key matches no case takes its default, and fails where
/// it has none: it is never passed over.
pub proof fn law_default_fallback(sw: SwitchView, ctx: Map<Seq<char>, Json>, d: nat)
    requires
        discriminant(sw, ctx) == Ok::<nat, Failure>(d),
        forall|i: int| 0 <= i < sw.cases.len() ==> (#[trigger] sw.cases[i]).0 != case_key_text(d),
    ensures
        sw.default matches Some(v) ==> selected_variant(sw, ctx) == Ok::<_, Failure>(v),
        sw.default is None ==> selected_variant(sw, ctx) == Err::<VariantView, _>(
            Failure::UnknownCase(case_key_text(d), sw.switch),
        ),
{
    lemma_case_from(sw.cases, case_key_text(d), 0);
}

/// A switch whose key matches a case takes the first case of that key,
/// whether or not it has a default.
pub proof fn law_case_before_default(sw: SwitchView, ctx: Map<Seq<char>, Json>, d: nat, i: int)
    requires
        discriminant(sw, ctx) == Ok::<nat, Failure>(d),
        0 <= i < sw.cases.len(),
        sw.cases[i].0 == case_key_text(d),
        forall|j: int| 0 <= j < i ==> (#[trigger] sw.cases[j]).0 != case_key_text(d),
    ensures
        selected_variant(sw, ctx) == Ok::<_, Failure>(sw.cases[i].1),
{
    lemma_case_from(sw.cases, case_key_text(d), 0);
}

/// Where no case key stands twice, a switch takes the one case that has
/// its key.
pub proof fn law_distinct_keys_select_the_case(
    sw: SwitchView,
    ctx: Map<Seq<char>, Json>,
    d: nat,
    i: int,
)
    requires
        sw.keys_distinct(),
        discriminant(sw, ctx) == Ok::<nat, Failure>(d),
        0 <= i < sw.cases.len(),
        sw.cases[i].0 == case_key_text(d),
    ensures
        selected_variant(sw, ctx) == Ok::<_, Failure>(sw.cases[i].1),
{
    lemma_case_from(sw.cases, case_key_text(d), 0);
}

/// Whether `c` is an upper-case hexadecimal digit.
pub open spec fn is_upper_hex(c: char) -> bool {
    ('0' <= c && c <= '9') || ('A' <= c && c <= 'F')
}

/// Hexadecimal text of a width is that many upper-case digits, and where
/// the width is enough for the number, or the number is zero, it reads back
/// as the number.
pub proof fn lemma_hex_text_reads_back(v: nat, width: nat)
    ensures
        hex_text(v, width).len() == width,
        forall|i: int| 0 <= i < width ==> is_upper_hex(#[trigger] hex_text(v, width)[i]),
        all_digits(hex_text(v, width), 16),
        width >= hex_width(v) || v == 0 ==> digits_number(hex_text(v, width), 16) == v,
    decreases width,
{
    if width > 0 {
        lemma_hex_text_reads_back(v / 16, (width - 1) as nat);
        let front = hex_text(v / 16, (width - 1) as nat);
        let last = hex_digit(v % 16);
        assert(is_upper_hex(last));
        assert(digit_of(last) == Some(v % 16));
        assert(hex_text(v, width).drop_last() =~= front);
        assert(hex_text(v, width).last() == last);
        assert(v == (v / 16) * 16 + v % 16);
    }
}

/// A case key is `0x` and then at least four upper-case hexadecimal
/// digits, no more than the discriminant takes beyond four, which read back
/// as the discriminant. The field that the discriminant came from, its
/// radix and its width play no part in it.
pub proof fn law_case_key_is_canonical(v: nat)
    ensures
        case_key_text(v).len() == 2 + (if hex_width(v) < 4 {
            4
        } else {
            hex_width(v)
        }),
        case_key_text(v)[0] == '0',
        case_key_text(v)[1] == 'x',
        forall|i: int| 2 <= i < case_key_text(v).len() ==> is_upper_hex(#[trigger] case_key_text(v)[i]),
        digits_number(case_key_text(v).skip(2), 16) == v,
{
    let w = hex_width(v);
    let width = if w < 4 {
        4
    } else {
        w
    };
    lemma_hex_text_reads_back(v, width);
    assert(case_key_text(v).skip(2) =~= hex_text(v, width));
    assert forall|i: int| 2 <= i < case_key_text(v).len() implies is_upper_hex(
        #[trigger] case_key_text(v)[i],
    ) by {
        assert(case_key_text(v)[i] == hex_text(v, width)[i - 2]);
    }
}

/// Different discriminants have different case keys.
pub proof fn law_case_keys_differ(v: nat, w: nat)
    requires
        v != w,
    ensures
        case_key_text(v) != case_key_text(w),
{
    law_case_key_is_canonical(v);
    law_case_key_is_canonical(w);
}

/// The width of the first `n` fields of a list: the sum of their lengths.
pub open spec fn fields_width(fields: Seq<FieldView>, n: nat) -> nat
    decreases n,
{
    if n == 0 {
        0
    } else {
        fields_width(fields, (n - 1) as nat) + fields[n - 1].len
    }
}

/// The width of a group: the sum of its fields' lengths.
pub open spec fn group_width(g: GroupView) -> nat {
    fields_width(g.fields, g.fields.len())
}

/// Whether a command's items are groups only.
pub open spec fn no_switch(items: Seq<ItemView>) -> bool {
    forall|i: int| 0 <= i < items.len() ==> (#[trigger] items[i]) is Group
}

/// The width of the first `n` items of a list without a switch.
pub open spec fn items_width(items: Seq<ItemView>, n: nat) -> nat
    decreases n,
{
    if n == 0 {
        0
    } else {
        items_width(items, (n - 1) as nat) + (match items[n - 1] {
            ItemView::Group(g) => group_width(g),
            ItemView::Switch(_) => 0,
        })
    }
}

/// How the end of decoding fields relates what was left of the frame to
/// the fields' width: success means that the width fitted, too short an
/// input means that it did not, and the one other failure is a slice that
/// is no number.
pub open spec fn fits(failure: Option<Failure>, left: nat, width: nat) -> bool {
    match failure {
        None => width <= left,
        Some(Failure::InputTooShort { .. }) => left < width,
        Some(f) => f is ParseInt,
    }
}

/// Fields take exactly the sum of their lengths.
pub proof fn lemma_fields_run_width(fields: Seq<FieldView>, n: nat, st: GroupRun)
    requires
        st.failure is None,
        n <= fields.len(),
        forall|i: int| 0 <= i < n ==> (#[trigger] fields[i]).wf(),
    ensures
        fits(fields_run(fields, n, st).failure, st.cursor.len(), fields_width(fields, n)),
        fields_run(fields, n, st).failure is None ==> fields_run(fields, n, st).cursor.len()
            == st.cursor.len() - fields_width(fields, n),
    decreases n,
{
    if n > 0 {
        lemma_fields_run_width(fields, (n - 1) as nat, st);
    }
}

/// The items of a command without a switch take exactly the sum of their
/// fields' lengths.
pub proof fn lemma_items_run_width(items: Seq<ItemView>, n: nat, st: Run)
    requires
        st.failure is None,
        no_switch(items),
        n <= items.len(),
        forall|i: int| 0 <= i < n ==> (#[trigger] items[i]).wf(),
    ensures
        fits(items_run(items, n, st).failure, st.cursor.len(), items_width(items, n)),
        items_run(items, n, st).failure is None ==> items_run(items, n, st).cursor.len()
            == st.cursor.len() - items_width(items, n),
    decreases n,
{
    if n > 0 {
        lemma_items_run_width(items, (n - 1) as nat, st);
        let before = items_run(items, (n - 1) as nat, st);
        assert(items[n - 1] is Group);
        if before.failure is None {
            let g = items[n - 1]->Group_0;
            assert(items[n - 1].wf());
            lemma_fields_run_width(
                g.fields,
                g.fields.len(),
                GroupRun {
                    record: Map::empty(),
                    ctx: before.ctx,
                    cursor: before.cursor,
                    failure: None,
                },
            );
        }
    }
}

/// For a frame whose command is well formed and has no switch, the sum of
/// all field lengths is what decoding takes of the body after the command
/// letter: a body that holds that much decodes, unless a slice is no number,
/// and what it holds beyond is padding; a body that holds less fails as too
/// short, unless a slice before the missing one is no number.
pub proof fn law_fields_fill_the_body(frame: Seq<char>, spec: SpecFileView)
    requires
        framed(frame, spec),
        no_switch(frame_command(frame, spec).items),
        frame_command(frame, spec).wf(),
    ensures
        ({
            let items = frame_command(frame, spec).items;
            let width = items_width(items, items.len());
            let payload = frame_payload(frame, spec);
            match decoded(frame, spec) {
                Ok(_) => width <= payload.len() && items_run(
                    items,
                    items.len(),
                    frame_start(frame, spec),
                ).cursor == payload.skip(width as int),
                Err(Failure::InputTooShort { .. }) => payload.len() < width,
                Err(f) => f is ParseInt,
            }
        }),
{
    let items = frame_command(frame, spec).items;
    let start = frame_start(frame, spec);
    lemma_items_run_width(items, items.len(), start);
    if items_run(items, items.len(), start).failure is None {
        lemma_items_run_local(items, items.len(), start, start.cursor);
    }
}

/// A group of well-formed fields takes exactly the sum of its fields'
/// lengths from the front: where it decodes, what is left is what followed
/// them, untouched; too short an input means that the sum did not fit; and
/// the one other failure is a slice that is no number.
pub proof fn law_group_takes_its_width(g: GroupView, cursor: Seq<char>, ctx: Map<Seq<char>, Json>)
    requires
        g.wf(),
    ensures
        fits(group_run(g, cursor, ctx).failure, cursor.len(), group_width(g)),
        group_run(g, cursor, ctx).failure is None ==> group_run(g, cursor, ctx).cursor
            == cursor.skip(group_width(g) as int),
{
    let start = GroupRun { record: Map::empty(), ctx, cursor, failure: None };
    lemma_fields_run_width(g.fields, g.fields.len(), start);
    if group_run(g, cursor, ctx).failure is None {
        lemma_fields_run_local(g.fields, g.fields.len(), start, cursor);
    }
}

/// The slice that the field at position `i` takes of a cursor, where the
/// fields before it took theirs.
pub open spec fn slice_at(fields: Seq<FieldView>, i: int, cursor: Seq<char>) -> Seq<char> {
    cursor.subrange(
        fields_width(fields, i as nat) as int,
        (fields_width(fields, i as nat) + fields[i].len) as int,
    )
}

/// Whether the slice of the field at position `i` is a number in the
/// field's radix that fits 32 bits.
#[verifier::opaque]
pub open spec fn slice_is_number(fields: Seq<FieldView>, i: int, cursor: Seq<char>) -> bool {
    parsed_u32(slice_at(fields, i, cursor), fields[i].base) is Some
}

/// A well-formed field decodes where the cursor holds its width and its
/// slice is a number.
proof fn lemma_field_step_decodes(st: GroupRun, f: FieldView)
    requires
        st.failure is None,
        f.wf(),
        f.len <= st.cursor.len(),
        parsed_u32(st.cursor.take(f.len as int), f.base) is Some,
    ensures
        field_step(st, f).failure is None,
        field_step(st, f).cursor == st.cursor.skip(f.len as int),
{
}

/// Fields decode where the cursor holds their whole width and every
/// field's slice is a number in the field's radix.
pub proof fn lemma_fields_run_decodes(fields: Seq<FieldView>, n: nat, st: GroupRun)
    requires
        st.failure is None,
        n <= fields.len(),
        fields_width(fields, n) <= st.cursor.len(),
        forall|i: int| 0 <= i < n ==> (#[trigger] fields[i]).wf(),
        forall|i: int| 0 <= i < n ==> #[trigger] slice_is_number(fields, i, st.cursor),
    ensures
        fields_run(fields, n, st).failure is None,
        fields_run(fields, n, st).cursor == st.cursor.skip(fields_width(fields, n) as int),
    decreases n,
{
    if n > 0 {
        lemma_fields_run_decodes(fields, (n - 1) as nat, st);
        let before = fields_run(fields, (n - 1) as nat, st);
        let w = fields_width(fields, (n - 1) as nat) as int;
        let f = fields[n - 1];
        assert(f.wf());
        assert(slice_is_number(fields, n - 1, st.cursor));
        assert(before.cursor.take(f.len as int) =~= slice_at(fields, n - 1, st.cursor));
        assert(parsed_u32(before.cursor.take(f.len as int), f.base) is Some) by {
            reveal(slice_is_number);
        }
        lemma_field_step_decodes(before, f);
        assert(before.cursor.skip(f.len as int) =~= st.cursor.skip(w + f.len));
    } else {
        assert(st.cursor.skip(0) =~= st.cursor);
    }
}

/// A group of well-formed fields decodes where the cursor holds at least
/// the sum of the fields' lengths and every field's slice is a number in
/// the field's radix. It leaves what follows that sum.
pub proof fn law_group_decodes(g: GroupView, cursor: Seq<char>, ctx: Map<Seq<char>, Json>)
    requires
        g.wf(),
        group_width(g) <= cursor.len(),
        forall|i: int| 0 <= i < g.fields.len() ==> #[trigger] slice_is_number(g.fields, i, cursor),
    ensures
        group_run(g, cursor, ctx).failure is None,
        group_run(g, cursor, ctx).cursor == cursor.skip(group_width(g) as int),
{
    lemma_fields_run_decodes(
        g.fields,
        g.fields.len(),
        GroupRun { record: Map::empty(), ctx, cursor, failure: None },
    );
}

/// The first field of a group that does not fit gives the failure of the
/// group: too short an input, with the field's name, its width and what
/// was left for it, where the fields before it decode.
pub proof fn law_group_reports_the_short_field(
    g: GroupView,
    cursor: Seq<char>,
    ctx: Map<Seq<char>, Json>,
    k: nat,
)
    requires
        k < g.fields.len(),
        fields_run(
            g.fields,
            k,
            GroupRun { record: Map::empty(), ctx, cursor, failure: None },
        ).failure is None,
        cursor.len() < fields_width(g.fields, k) + g.fields[k as int].len,
    ensures
        fields_width(g.fields, k) <= cursor.len(),
        group_run(g, cursor, ctx).failure == Some(
            Failure::InputTooShort {
                field: g.fields[k as int].name,
                needed: g.fields[k as int].len,
                got: (cursor.len() - fields_width(g.fields, k)) as nat,
            },
        ),
{
    let start = GroupRun { record: Map::empty(), ctx, cursor, failure: None };
    lemma_fields_run_taken(g.fields, k, start);
    assert(fields_run(g.fields, k + 1, start) == field_step(
        fields_run(g.fields, k, start),
        g.fields[k as int],
    ));
    lemma_fields_run_stops(g.fields, k + 1, g.fields.len(), start);
}

/// Fields that decode leave as many characters less as they are wide.
pub proof fn lemma_fields_run_taken(fields: Seq<FieldView>, n: nat, st: GroupRun)
    requires
        st.failure is None,
        fields_run(fields, n, st).failure is None,
    ensures
        fields_width(fields, n) <= st.cursor.len(),
        fields_run(fields, n, st).cursor.len() == st.cursor.len() - fields_width(fields, n),
    decreases n,
{
    if n > 0 {
        lemma_fields_run_taken(fields, (n - 1) as nat, st);
    }
}

/// Whether one of the first `n` fields of a list has the name.
pub open spec fn fields_name(fields: Seq<FieldView>, n: nat, name: Seq<char>) -> bool {
    exists|i: int| 0 <= i < n && (#[trigger] fields[i]).name == name
}

/// Whether a field of one of the first `n` groups of a list has the name.
pub open spec fn groups_name(groups: Seq<GroupView>, n: nat, name: Seq<char>) -> bool {
    exists|i: int|
        0 <= i < n && fields_name((#[trigger] groups[i]).fields, groups[i].fields.len(), name)
}

/// Whether a field of the item has the name: a field of the group, or of a
/// group of any variant of the switch, the default included.
pub open spec fn item_names(item: ItemView, name: Seq<char>) -> bool {
    match item {
        ItemView::Group(g) => fields_name(g.fields, g.fields.len(), name),
        ItemView::Switch(sw) => {
            ||| exists|i: int|
                0 <= i < sw.cases.len() && groups_name(
                    (#[trigger] sw.cases[i]).1.groups,
                    sw.cases[i].1.groups.len(),
                    name,
                )
            ||| sw.default matches Some(v) && groups_name(v.groups, v.groups.len(), name)
        },
    }
}

/// Whether a field of one of the first `n` items of a list has the name.
pub open spec fn items_name(items: Seq<ItemView>, n: nat, name: Seq<char>) -> bool {
    exists|i: int| 0 <= i < n && item_names(#[trigger] items[i], name)
}

/// The context knows no name that it did not know before, but those of
/// the fields decoded.
pub proof fn lemma_fields_run_names(fields: Seq<FieldView>, n: nat, st: GroupRun, name: Seq<char>)
    requires
        fields_run(fields, n, st).ctx.contains_key(name),
        n <= fields.len(),
    ensures
        st.ctx.contains_key(name) || fields_name(fields, n, name),
    decreases n,
{
    if n > 0 {
        let before = fields_run(fields, (n - 1) as nat, st);
        if before.ctx.contains_key(name) {
            lemma_fields_run_names(fields, (n - 1) as nat, st, name);
            if !st.ctx.contains_key(name) {
                let i = choose|i: int| 0 <= i < n - 1 && (#[trigger] fields[i]).name == name;
                assert(0 <= i < n && fields[i].name == name);
            }
        } else {
            assert(fields[n - 1].name == name);
        }
    }
}

/// The context knows no name that it did not know before, but those of
/// the fields of the groups decoded.
pub proof fn lemma_groups_run_names(groups: Seq<GroupView>, n: nat, st: Run, name: Seq<char>)
    requires
        groups_run(groups, n, st).ctx.contains_key(name),
        n <= groups.len(),
    ensures
        st.ctx.contains_key(name) || groups_name(groups, n, name),
    decreases n,
{
    if n > 0 {
        let before = groups_run(groups, (n - 1) as nat, st);
        if before.ctx.contains_key(name) {
            lemma_groups_run_names(groups, (n - 1) as nat, st, name);
            if !st.ctx.contains_key(name) {
                let i = choose|i: int|
                    0 <= i < n - 1 && fields_name(
                        (#[trigger] groups[i]).fields,
                        groups[i].fields.len(),
                        name,
                    );
                assert(0 <= i < n && fields_name(groups[i].fields, groups[i].fields.len(), name));
            }
        } else {
            let g = groups[n - 1];
            lemma_fields_run_names(
                g.fields,
                g.fields.len(),
                GroupRun {
                    record: Map::empty(),
                    ctx: before.ctx,
                    cursor: before.cursor,
                    failure: None,
                },
                name,
            );
            assert(fields_name(groups[n - 1].fields, groups[n - 1].fields.len(), name));
        }
    }
}

/// The context knows no name that it did not know before, but those of
/// the fields of the item decoded.
pub proof fn lemma_item_step_names(st: Run, item: ItemView, name: Seq<char>)
    requires
        item_step(st, item).ctx.contains_key(name),
    ensures
        st.ctx.contains_key(name) || item_names(item, name),
{
    match item {
        ItemView::Group(g) => {
            lemma_groups_run_names(seq![g], 1, st, name);
            assert(groups_run(seq![g], 1, st) == group_step(groups_run(seq![g], 0, st), g));
            if !st.ctx.contains_key(name) {
                let i = choose|i: int|
                    0 <= i < 1 && fields_name(
                        (#[trigger] seq![g][i]).fields,
                        seq![g][i].fields.len(),
                        name,
                    );
                assert(seq![g][i] == g);
            }
        },
        ItemView::Switch(sw) => {
            if st.failure is None {
                if let Ok(v) = selected_variant(sw, st.ctx) {
                    let d = discriminant(sw, st.ctx)->Ok_0;
                    lemma_case_from(sw.cases, case_key_text(d), 0);
                    lemma_groups_run_names(
                        v.groups,
                        v.groups.len(),
                        Run { out: with_description(st.out, v), ..st },
                        name,
                    );
                    if !st.ctx.contains_key(name) {
                        match case_from(sw.cases, case_key_text(d), 0) {
                            Some(i) => {
                                assert(groups_name(
                                    sw.cases[i].1.groups,
                                    sw.cases[i].1.groups.len(),
                                    name,
                                ));
                            },
                            None => {},
                        }
                    }
                }
            }
        },
    }
}

/// The context knows no name that it did not know before, but those of
/// the fields of the items decoded.
pub proof fn lemma_items_run_names(items: Seq<ItemView>, n: nat, st: Run, name: Seq<char>)
    requires
        items_run(items, n, st).ctx.contains_key(name),
        n <= items.len(),
    ensures
        st.ctx.contains_key(name) || items_name(items, n, name),
    decreases n,
{
    if n > 0 {
        let before = items_run(items, (n - 1) as nat, st);
        lemma_item_step_names(before, items[n - 1], name);
        if before.ctx.contains_key(name) {
            lemma_items_run_names(items, (n - 1) as nat, st, name);
            if !st.ctx.contains_key(name) {
                let i = choose|i: int| 0 <= i < n - 1 && item_names(#[trigger] items[i], name);
                assert(0 <= i < n && item_names(items[i], name));
            }
        } else {
            assert(item_names(items[n - 1], name));
        }
    }
}

/// Whether the item, decoded from `st`, decodes a field of the name: a
/// field of the group, or of a group of the variant that the switch takes.
pub open spec fn item_takes_name(st: Run, item: ItemView, name: Seq<char>) -> bool {
    match item {
        ItemView::Group(g) => fields_name(g.fields, g.fields.len(), name),
        ItemView::Switch(sw) => selected_variant(sw, st.ctx) matches Ok(v) && groups_name(
            v.groups,
            v.groups.len(),
            name,
        ),
    }
}

/// Whether one of the first `n` items, decoded in order from `st`, decodes
/// a field of the name.
pub open spec fn items_take_name(items: Seq<ItemView>, n: nat, st: Run, name: Seq<char>) -> bool {
    exists|i: int|
        0 <= i < n && item_takes_name(items_run(items, i as nat, st), #[trigger] items[i], name)
}

/// The context knows no name that it did not know before, but those of
/// the fields that the item decoded.
pub proof fn lemma_item_step_taken(st: Run, item: ItemView, name: Seq<char>)
    requires
        item_step(st, item).ctx.contains_key(name),
    ensures
        st.ctx.contains_key(name) || item_takes_name(st, item, name),
{
    match item {
        ItemView::Group(g) => {
            lemma_item_step_names(st, item, name);
        },
        ItemView::Switch(sw) => {
            if st.failure is None {
                if let Ok(v) = selected_variant(sw, st.ctx) {
                    lemma_groups_run_names(
                        v.groups,
                        v.groups.len(),
                        Run { out: with_description(st.out, v), ..st },
                        name,
                    );
                }
            }
        },
    }
}

/// The context knows no name that it did not know before, but those of
/// the fields that the items decoded.
pub proof fn lemma_items_run_taken(items: Seq<ItemView>, n: nat, st: Run, name: Seq<char>)
    requires
        items_run(items, n, st).ctx.contains_key(name),
        n <= items.len(),
    ensures
        st.ctx.contains_key(name) || items_take_name(items, n, st, name),
    decreases n,
{
    if n > 0 {
        let before = items_run(items, (n - 1) as nat, st);
        lemma_item_step_taken(before, items[n - 1], name);
        if before.ctx.contains_key(name) {
            lemma_items_run_taken(items, (n - 1) as nat, st, name);
            if !st.ctx.contains_key(name) {
                let i = choose|i: int|
                    0 <= i < n - 1 && item_takes_name(
                        items_run(items, i as nat, st),
                        #[trigger] items[i],
                        name,
                    );
                assert(0 <= i < n && item_takes_name(items_run(items, i as nat, st), items[i], name));
            }
        } else {
            assert(item_takes_name(items_run(items, (n - 1) as nat, st), items[n - 1], name));
        }
    }
}

/// A switch needs its field decoded before it. Where the items before a
/// switch decode, and none of them decoded a field of the switch's name,
/// neither in a group nor in the variant that an earlier switch took, the
/// frame fails for the missing field: the switch takes neither a case nor
/// its default, and is not passed over.
pub proof fn law_switch_needs_earlier_field(frame: Seq<char>, spec: SpecFileView, k: nat)
    requires
        framed(frame, spec),
        k < frame_command(frame, spec).items.len(),
        frame_command(frame, spec).items[k as int] is Switch,
        items_run(frame_command(frame, spec).items, k, frame_start(frame, spec)).failure is None,
        !items_take_name(
            frame_command(frame, spec).items,
            k,
            frame_start(frame, spec),
            frame_command(frame, spec).items[k as int]->Switch_0.switch,
        ),
    ensures
        decoded(frame, spec) == Err::<Json, _>(
            Failure::MissingField(frame_command(frame, spec).items[k as int]->Switch_0.switch),
        ),
{
    let items = frame_command(frame, spec).items;
    let sw = items[k as int]->Switch_0;
    let start = frame_start(frame, spec);
    let before = items_run(items, k, start);
    if before.ctx.contains_key(sw.switch) {
        lemma_items_run_taken(items, k, start, sw.switch);
    }
    assert(items_run(items, k + 1, start) == item_step(before, items[k as int]));
    lemma_items_run_stops(items, k + 1, items.len(), start);
}

/// A switch on a field that no item before it declares never decodes,
/// whatever the frame holds: the frame fails, and where the items before
/// the switch decode, it fails for the missing field. Here no group before
/// the switch, and no group of any variant of an earlier switch, taken or
/// not, declares the field, which the grammar alone shows.
pub proof fn law_switch_needs_declared_field(frame: Seq<char>, spec: SpecFileView, k: nat)
    requires
        framed(frame, spec),
        k < frame_command(frame, spec).items.len(),
        frame_command(frame, spec).items[k as int] is Switch,
        !items_name(
            frame_command(frame, spec).items,
            k,
            frame_command(frame, spec).items[k as int]->Switch_0.switch,
        ),
    ensures
        decoded(frame, spec) is Err,
        items_run(frame_command(frame, spec).items, k, frame_start(frame, spec)).failure is None
            ==> decoded(frame, spec) == Err::<Json, _>(
            Failure::MissingField(frame_command(frame, spec).items[k as int]->Switch_0.switch),
        ),
{
    let items = frame_command(frame, spec).items;
    let sw = items[k as int]->Switch_0;
    let start = frame_start(frame, spec);
    let before = items_run(items, k, start);
    if before.ctx.contains_key(sw.switch) {
        lemma_items_run_names(items, k, start, sw.switch);
    }
    assert(items_run(items, k + 1, start) == item_step(before, items[k as int]));
    lemma_items_run_stops(items, k + 1, items.len(), start);
}

} // verus!
