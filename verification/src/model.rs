//! The decoding grammar: families of frames, their commands, and the field
//! groups and switches each command is made of.
//!
//! Every type has a view that holds its text as character sequences and its
//! lists as sequences; the contracts of the decoder speak of those views.

use vstd::prelude::*;
use crate::text::same_text;

verus! {

/// The characters of an optional text.
pub open spec fn opt_text(o: Option<String>) -> Option<Seq<char>> {
    match o {
        Some(s) => Some(s@),
        None => None,
    }
}

/// One fixed-width slice of a frame and how to read it.
#[derive(Debug, Clone)]
pub struct Field {
    pub name: String,
    pub len: u32,
    pub base: u8,
    pub typ: String,
    pub description: Option<String>,
}

pub struct FieldView {
    pub name: Seq<char>,
    pub len: nat,
    pub base: nat,
    pub typ: Seq<char>,
    pub description: Option<Seq<char>>,
}

impl View for Field {
    type V = FieldView;

    open spec fn view(&self) -> FieldView {
        FieldView {
            name: self.name@,
            len: self.len as nat,
            base: self.base as nat,
            typ: self.typ@,
            description: opt_text(self.description),
        }
    }
}

impl FieldView {
    /// The radix is one that digits exist for.
    pub open spec fn wf(self) -> bool {
        2 <= self.base <= 36
    }
}

/// A named, ordered set of fields decoded together.
#[derive(Debug, Clone)]
pub struct Group {
    pub name: String,
    pub fields: Vec<Field>,
}

pub struct GroupView {
    pub name: Seq<char>,
    pub fields: Seq<FieldView>,
}

impl View for Group {
    type V = GroupView;

    open spec fn view(&self) -> GroupView {
        GroupView { name: self.name@, fields: self.fields@.map_values(|f: Field| f@) }
    }
}

impl GroupView {
    pub open spec fn wf(self) -> bool {
        forall|i: int| 0 <= i < self.fields.len() ==> (#[trigger] self.fields[i]).wf()
    }
}

/// The views of a list of groups.
pub open spec fn groups_view(groups: Seq<Group>) -> Seq<GroupView> {
    groups.map_values(|g: Group| g@)
}

/// Every group of the list is well formed.
pub open spec fn groups_wf(groups: Seq<GroupView>) -> bool {
    forall|i: int| 0 <= i < groups.len() ==> (#[trigger] groups[i]).wf()
}

/// One branch of a switch.
#[derive(Debug, Clone)]
pub struct Variant {
    pub description: Option<String>,
    pub groups: Vec<Group>,
}

pub struct VariantView {
    pub description: Option<Seq<char>>,
    pub groups: Seq<GroupView>,
}

impl View for Variant {
    type V = VariantView;

    open spec fn view(&self) -> VariantView {
        VariantView { description: opt_text(self.description), groups: groups_view(self.groups@) }
    }
}

impl VariantView {
    pub open spec fn wf(self) -> bool {
        groups_wf(self.groups)
    }
}

/// A branch point: the field named by `switch`, decoded earlier in the same
/// frame, selects one of `cases` by its case key, or `default`.
///
/// `cases` lists each key with its variant. A well-formed switch holds no
/// key twice; where one does, the first entry of a key is the one that
/// counts.
#[derive(Debug, Clone)]
pub struct Switch {
    pub switch: String,
    pub cases: Vec<(String, Variant)>,
    pub default: Option<Variant>,
}

pub struct SwitchView {
    pub switch: Seq<char>,
    pub cases: Seq<(Seq<char>, VariantView)>,
    pub default: Option<VariantView>,
}

impl View for Switch {
    type V = SwitchView;

    open spec fn view(&self) -> SwitchView {
        SwitchView {
            switch: self.switch@,
            cases: self.cases@.map_values(|c: (String, Variant)| (c.0@, c.1@)),
            default: match self.default {
                Some(v) => Some(v@),
                None => None,
            },
        }
    }
}

impl SwitchView {
    /// No case key stands twice, and every variant is well formed.
    pub open spec fn wf(self) -> bool {
        &&& self.keys_distinct()
        &&& forall|i: int| 0 <= i < self.cases.len() ==> (#[trigger] self.cases[i]).1.wf()
        &&& self.default matches Some(v) ==> v.wf()
    }

    /// No case key stands twice.
    pub open spec fn keys_distinct(self) -> bool {
        forall|i: int, j: int|
            0 <= i < j < self.cases.len() ==> (#[trigger] self.cases[i]).0 != (
            #[trigger] self.cases[j]).0
    }
}

/// A step of a command: a group, or a switch.
#[derive(Debug, Clone)]
pub enum Item {
    Group(Group),
    Switch(Switch),
}

pub enum ItemView {
    Group(GroupView),
    Switch(SwitchView),
}

impl View for Item {
    type V = ItemView;

    open spec fn view(&self) -> ItemView {
        match self {
            Item::Group(g) => ItemView::Group(g@),
            Item::Switch(s) => ItemView::Switch(s@),
        }
    }
}

impl ItemView {
    pub open spec fn wf(self) -> bool {
        match self {
            ItemView::Group(g) => g.wf(),
            ItemView::Switch(s) => s.wf(),
        }
    }
}

/// The frames of one family that carry one letter, and the items that make
/// up their payload, in the order in which they are decoded.
#[derive(Debug, Clone)]
pub struct Command {
    pub letter: String,
    pub description: Option<String>,
    pub items: Vec<Item>,
}

pub struct CommandView {
    pub letter: Seq<char>,
    pub description: Option<Seq<char>>,
    pub items: Seq<ItemView>,
}

impl View for Command {
    type V = CommandView;

    open spec fn view(&self) -> CommandView {
        CommandView {
            letter: self.letter@,
            description: opt_text(self.description),
            items: self.items@.map_values(|i: Item| i@),
        }
    }
}

impl CommandView {
    pub open spec fn wf(self) -> bool {
        forall|i: int| 0 <= i < self.items.len() ==> (#[trigger] self.items[i]).wf()
    }
}

/// Frames that share a start marker, a terminator and a total length.
#[derive(Debug, Clone)]
pub struct Family {
    pub name: String,
    pub description: Option<String>,
    pub start: String,
    pub terminator: String,
    pub frame_len: u32,
    pub commands: Vec<Command>,
}

pub struct FamilyView {
    pub name: Seq<char>,
    pub description: Option<Seq<char>>,
    pub start: Seq<char>,
    pub terminator: Seq<char>,
    pub frame_len: nat,
    pub commands: Seq<CommandView>,
}

impl View for Family {
    type V = FamilyView;

    open spec fn view(&self) -> FamilyView {
        FamilyView {
            name: self.name@,
            description: opt_text(self.description),
            start: self.start@,
            terminator: self.terminator@,
            frame_len: self.frame_len as nat,
            commands: self.commands@.map_values(|c: Command| c@),
        }
    }
}

impl FamilyView {
    pub open spec fn wf(self) -> bool {
        forall|i: int| 0 <= i < self.commands.len() ==> (#[trigger] self.commands[i]).wf()
    }
}

/// The whole grammar: its families, tried in order.
#[derive(Debug, Clone)]
pub struct SpecFile {
    pub families: Vec<Family>,
}

pub struct SpecFileView {
    pub families: Seq<FamilyView>,
}

impl View for SpecFile {
    type V = SpecFileView;

    open spec fn view(&self) -> SpecFileView {
        SpecFileView { families: self.families@.map_values(|f: Family| f@) }
    }
}

impl SpecFileView {
    /// Every field, wherever it stands, has a radix from 2 to 36, and no
    /// switch holds a case key twice.
    pub open spec fn wf(self) -> bool {
        forall|i: int| 0 <= i < self.families.len() ==> (#[trigger] self.families[i]).wf()
    }
}

impl Field {
    /// Whether the radix is one that digits exist for.
    pub fn is_wf(&self) -> (b: bool)
        ensures
            b == self@.wf(),
    {
        2 <= self.base && self.base <= 36
    }
}

impl Group {
    /// Whether every field is well formed.
    pub fn is_wf(&self) -> (b: bool)
        ensures
            b == self@.wf(),
    {
        let mut i: usize = 0;
        while i < self.fields.len()
            invariant
                i <= self.fields.len(),
                forall|k: int| 0 <= k < i ==> (#[trigger] self@.fields[k]).wf(),
            decreases self.fields.len() - i,
        {
            if !self.fields[i].is_wf() {
                assert(!self@.fields[i as int].wf());
                return false;
            }
            i = i + 1;
        }
        true
    }
}

/// Whether every group of the list is well formed.
pub fn groups_are_wf(groups: &Vec<Group>) -> (b: bool)
    ensures
        b == groups_wf(groups_view(groups@)),
{
    let mut i: usize = 0;
    while i < groups.len()
        invariant
            i <= groups.len(),
            forall|k: int| 0 <= k < i ==> (#[trigger] groups_view(groups@)[k]).wf(),
        decreases groups.len() - i,
    {
        if !groups[i].is_wf() {
            assert(!groups_view(groups@)[i as int].wf());
            return false;
        }
        i = i + 1;
    }
    true
}

impl Variant {
    /// Whether every field of every group is well formed.
    pub fn is_wf(&self) -> (b: bool)
        ensures
            b == self@.wf(),
    {
        groups_are_wf(&self.groups)
    }
}

impl Switch {
    /// Whether no case key stands twice.
    pub fn has_distinct_keys(&self) -> (b: bool)
        ensures
            b == self@.keys_distinct(),
    {
        let mut i: usize = 0;
        while i < self.cases.len()
            invariant
                i <= self.cases.len(),
                forall|a: int, b: int|
                    0 <= a < i && a < b < self.cases.len() ==> (#[trigger] self@.cases[a]).0 != (
                    #[trigger] self@.cases[b]).0,
            decreases self.cases.len() - i,
        {
            let mut j: usize = i + 1;
            while j < self.cases.len()
                invariant
                    i < j <= self.cases.len(),
                    forall|b: int| i < b < j ==> self@.cases[i as int].0 != (
                    #[trigger] self@.cases[b]).0,
                decreases self.cases.len() - j,
            {
                assert(self@.cases[i as int].0 == self.cases[i as int].0@);
                assert(self@.cases[j as int].0 == self.cases[j as int].0@);
                if same_text(self.cases[i].0.as_str(), self.cases[j].0.as_str()) {
                    return false;
                }
                j = j + 1;
            }
            i = i + 1;
        }
        true
    }

    /// Whether no case key stands twice and every variant, the default
    /// included, is well formed.
    pub fn is_wf(&self) -> (b: bool)
        ensures
            b == self@.wf(),
    {
        if !self.has_distinct_keys() {
            return false;
        }
        let mut i: usize = 0;
        while i < self.cases.len()
            invariant
                i <= self.cases.len(),
                self@.keys_distinct(),
                forall|k: int| 0 <= k < i ==> (#[trigger] self@.cases[k]).1.wf(),
            decreases self.cases.len() - i,
        {
            if !self.cases[i].1.is_wf() {
                assert(!self@.cases[i as int].1.wf());
                return false;
            }
            i = i + 1;
        }
        match &self.default {
            Some(v) => v.is_wf(),
            None => true,
        }
    }
}

impl Item {
    /// Whether the group or switch is well formed.
    pub fn is_wf(&self) -> (b: bool)
        ensures
            b == self@.wf(),
    {
        match self {
            Item::Group(g) => g.is_wf(),
            Item::Switch(s) => s.is_wf(),
        }
    }
}

impl Command {
    /// Whether every item is well formed.
    pub fn is_wf(&self) -> (b: bool)
        ensures
            b == self@.wf(),
    {
        let mut i: usize = 0;
        while i < self.items.len()
            invariant
                i <= self.items.len(),
                forall|k: int| 0 <= k < i ==> (#[trigger] self@.items[k]).wf(),
            decreases self.items.len() - i,
        {
            if !self.items[i].is_wf() {
                assert(!self@.items[i as int].wf());
                return false;
            }
            i = i + 1;
        }
        true
    }
}

impl Family {
    /// Whether every command is well formed.
    pub fn is_wf(&self) -> (b: bool)
        ensures
            b == self@.wf(),
    {
        let mut i: usize = 0;
        while i < self.commands.len()
            invariant
                i <= self.commands.len(),
                forall|k: int| 0 <= k < i ==> (#[trigger] self@.commands[k]).wf(),
            decreases self.commands.len() - i,
        {
            if !self.commands[i].is_wf() {
                assert(!self@.commands[i as int].wf());
                return false;
            }
            i = i + 1;
        }
        true
    }
}

impl SpecFile {
    /// Whether every radix has digits and no switch holds a case key twice.
    pub fn is_wf(&self) -> (b: bool)
        ensures
            b == self@.wf(),
    {
        let mut i: usize = 0;
        while i < self.families.len()
            invariant
                i <= self.families.len(),
                forall|k: int| 0 <= k < i ==> (#[trigger] self@.families[k]).wf(),
            decreases self.families.len() - i,
        {
            if !self.families[i].is_wf() {
                assert(!self@.families[i as int].wf());
                return false;
            }
            i = i + 1;
        }
        true
    }
}

} // verus!
