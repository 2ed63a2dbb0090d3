//! The vocabulary of the organizer: capture categories, options, file
//! actions and the plan that collects them.

use vstd::prelude::*;
use crate::text::{from_chars, lex_lt, precedes, to_chars};

verus! {

/// Organizes a folder of captures: builds a plan and says how to apply it.
pub struct RecordManager;

/// The kind of capture that a file holds.
#[derive(Clone, Copy, Debug, PartialEq, Eq, Structural)]
pub enum RecordType {
    ScreenCapture,
    ScreenRecord,
    VoiceRecord,
}

impl RecordType {
    /// The name of the category's folder.
    pub open spec fn folder(self) -> Seq<char> {
        match self {
            RecordType::ScreenCapture => "screen capture"@,
            RecordType::ScreenRecord => "screen record"@,
            RecordType::VoiceRecord => "voice record"@,
        }
    }

    /// The word that canonical file names of the category carry.
    pub open spec fn prefix(self) -> Seq<char> {
        match self {
            RecordType::ScreenCapture => "screen-capture"@,
            RecordType::ScreenRecord => "screen-record"@,
            RecordType::VoiceRecord => "voice-record"@,
        }
    }

    /// The name of the category's folder.
    pub fn folder_name(&self) -> (name: &'static str)
        ensures
            name@ == self.folder(),
    {
        match self {
            RecordType::ScreenCapture => "screen capture",
            RecordType::ScreenRecord => "screen record",
            RecordType::VoiceRecord => "voice record",
        }
    }

    /// The word that canonical file names of the category carry.
    pub fn naming_prefix(&self) -> (prefix: &'static str)
        ensures
            prefix@ == self.prefix(),
    {
        match self {
            RecordType::ScreenCapture => "screen-capture",
            RecordType::ScreenRecord => "screen-record",
            RecordType::VoiceRecord => "voice-record",
        }
    }
}

/// The three categories, in the order in which their folders are visited.
pub open spec fn record_types() -> Seq<RecordType> {
    seq![RecordType::ScreenCapture, RecordType::ScreenRecord, RecordType::VoiceRecord]
}

/// `text` is the folder name of one of the categories.
pub open spec fn is_standard_folder(text: Seq<char>) -> bool {
    text == RecordType::ScreenCapture.folder() || text == RecordType::ScreenRecord.folder() || text
        == RecordType::VoiceRecord.folder()
}

/// What a run covers.
#[derive(Debug)]
pub struct RecordOptions {
    /// The categories to organize; empty stands for all of them.
    pub target_types: Vec<RecordType>,
    /// Whether files in the wrong place are looked for as well.
    pub check_misplaced: bool,
}

/// Options as plain values.
pub struct RecordOptionsView {
    pub target_types: Seq<RecordType>,
    pub check_misplaced: bool,
}

impl View for RecordOptions {
    type V = RecordOptionsView;

    open spec fn view(&self) -> RecordOptionsView {
        RecordOptionsView {
            target_types: self.target_types@,
            check_misplaced: self.check_misplaced,
        }
    }
}

impl RecordOptionsView {
    /// The category is one that the run covers.
    pub open spec fn covers(self, record_type: RecordType) -> bool {
        self.target_types.len() == 0 || self.target_types.contains(record_type)
    }
}

impl Default for RecordOptions {
    fn default() -> (r: Self)
        ensures
            r@.target_types.len() == 0,
            r@.check_misplaced,
    {
        RecordOptions { target_types: Vec::new(), check_misplaced: true }
    }
}

impl Clone for RecordOptions {
    fn clone(&self) -> (r: Self)
        ensures
            r@ == self@,
    {
        let mut types: Vec<RecordType> = Vec::new();
        let mut i: usize = 0;
        while i < self.target_types.len()
            invariant
                i <= self.target_types.len(),
                types@ == self.target_types@.take(i as int),
            decreases self.target_types.len() - i,
        {
            types.push(self.target_types[i]);
            proof {
                assert(self.target_types@.take(i + 1) == self.target_types@.take(i as int).push(
                    self.target_types@[i as int],
                ));
            }
            i += 1;
        }
        proof {
            assert(self.target_types@.take(self.target_types.len() as int) == self.target_types@);
        }
        RecordOptions { target_types: types, check_misplaced: self.check_misplaced }
    }
}

impl RecordOptions {
    /// Whether the run covers the category.
    pub fn includes(&self, record_type: &RecordType) -> (b: bool)
        ensures
            b == self@.covers(*record_type),
    {
        if self.target_types.len() == 0 {
            return true;
        }
        let mut i: usize = 0;
        while i < self.target_types.len()
            invariant
                i <= self.target_types.len(),
                forall|j: int| 0 <= j < i ==> self.target_types@[j] != *record_type,
            decreases self.target_types.len() - i,
        {
            if self.target_types[i] == *record_type {
                return true;
            }
            i += 1;
        }
        false
    }
}

/// Why no plan could be made.
#[derive(Clone, Copy, Debug, PartialEq, Eq, Structural)]
pub enum PlanError {
    /// Every numbered variant of a name that a counter can reach is taken.
    SuffixExhaustion,
}

/// Why a file is moved.
#[derive(Clone, Copy, Debug, PartialEq, Eq, Structural)]
pub enum ActionType {
    /// The name stays, the folder changes.
    Move,
    /// The name changes; the folder may change too.
    Rename,
    /// The file lies outside its category's folders and keeps its name.
    MoveToCorrectLocation,
}

/// One file to move: from where, to where, and why.
#[derive(Debug)]
pub struct RecordFileAction {
    pub source: String,
    pub target: String,
    pub action_type: ActionType,
}

/// An action as plain values.
pub struct ActionView {
    pub source: Seq<char>,
    pub target: Seq<char>,
    pub action_type: ActionType,
}

impl View for RecordFileAction {
    type V = ActionView;

    open spec fn view(&self) -> ActionView {
        ActionView { source: self.source@, target: self.target@, action_type: self.action_type }
    }
}

impl Clone for RecordFileAction {
    fn clone(&self) -> (r: Self)
        ensures
            r@ == self@,
    {
        RecordFileAction {
            source: self.source.clone(),
            target: self.target.clone(),
            action_type: self.action_type,
        }
    }
}

/// Actions as plain values.
pub open spec fn action_views(actions: Seq<RecordFileAction>) -> Seq<ActionView> {
    Seq::new(actions.len(), |i: int| actions[i]@)
}

/// Texts as plain values.
pub open spec fn text_views(texts: Seq<String>) -> Seq<Seq<char>> {
    Seq::new(texts.len(), |i: int| texts[i]@)
}

/// `folders` with `folder` put in before the first entry that comes after it
/// in dictionary order; unchanged where that entry is `folder` itself.
pub open spec fn with_folder(folders: Seq<Seq<char>>, folder: Seq<char>) -> Seq<Seq<char>>
    decreases folders.len(),
{
    if folders.len() == 0 {
        seq![folder]
    } else if folders[0] == folder {
        folders
    } else if lex_lt(folder, folders[0]) {
        seq![folder] + folders
    } else {
        seq![folders[0]] + with_folder(folders.skip(1), folder)
    }
}

/// Each entry comes strictly before the next in dictionary order.
pub open spec fn strictly_ascending(folders: Seq<Seq<char>>) -> bool {
    forall|i: int, j: int| 0 <= i < j < folders.len() ==> lex_lt(folders[i], folders[j])
}

/// Everything that has to happen to a folder of captures.
#[derive(Debug)]
pub struct RecordOrganizationPlan {
    pub record_root: String,
    pub actions: Vec<RecordFileAction>,
    /// The folders to create, in dictionary order, each once.
    pub required_folders: Vec<String>,
}

/// A plan as plain values.
pub struct PlanView {
    pub record_root: Seq<char>,
    pub actions: Seq<ActionView>,
    pub required_folders: Seq<Seq<char>>,
}

impl View for RecordOrganizationPlan {
    type V = PlanView;

    open spec fn view(&self) -> PlanView {
        PlanView {
            record_root: self.record_root@,
            actions: action_views(self.actions@),
            required_folders: text_views(self.required_folders@),
        }
    }
}

impl PlanView {
    /// Nothing to create and nothing to move.
    pub open spec fn is_empty(self) -> bool {
        self.actions.len() == 0 && self.required_folders.len() == 0
    }

    /// The folders are in dictionary order, each once.
    pub open spec fn wf(self) -> bool {
        strictly_ascending(self.required_folders)
    }
}

impl RecordOrganizationPlan {
    /// The plan for `record_root` that asks for nothing.
    pub fn new(record_root: String) -> (plan: Self)
        ensures
            plan@.record_root == record_root@,
            plan@.is_empty(),
            plan@.wf(),
    {
        RecordOrganizationPlan {
            record_root,
            actions: Vec::new(),
            required_folders: Vec::new(),
        }
    }

    /// Whether the plan asks for nothing.
    pub fn is_empty(&self) -> (b: bool)
        ensures
            b == self@.is_empty(),
    {
        self.actions.len() == 0 && self.required_folders.len() == 0
    }

    /// Notes that `folder` has to be there; `present` says whether it is
    /// there already, in which case nothing is noted.
    pub fn register_folder(&mut self, folder: &str, present: bool)
        ensures
            final(self)@.record_root == old(self)@.record_root,
            final(self)@.actions == old(self)@.actions,
            present ==> final(self)@.required_folders == old(self)@.required_folders,
            !present ==> final(self)@.required_folders == with_folder(
                old(self)@.required_folders,
                folder@,
            ),
            old(self)@.wf() ==> final(self)@.wf(),
    {
        if present {
            return ;
        }
        let wanted = to_chars(folder);
        let ghost before = text_views(self.required_folders@);
        let mut i: usize = 0;
        let mut placed = false;
        while i < self.required_folders.len() && !placed
            invariant
                i <= self.required_folders.len(),
                wanted@ == folder@,
                before == text_views(self.required_folders@),
                *self == *old(self),
                forall|j: int| 0 <= j < i ==> before[j] != folder@ && !lex_lt(folder@, before[j]),
                placed ==> i < self.required_folders.len() && lex_lt(folder@, before[i as int]),
            decreases self.required_folders.len() - i, if placed { 0int } else { 1int },
        {
            let current = to_chars(self.required_folders[i].as_str());
            assert(current@ == before[i as int]);
            if precedes(&wanted, &current) {
                placed = true;
            } else {
                if !precedes(&current, &wanted) {
                    proof {
                        crate::text::lemma_lex_total(current@, wanted@);
                        lemma_with_folder_present(before, folder@, i as int);
                    }
                    return ;
                }
                i += 1;
            }
        }
        self.required_folders.insert(i, from_chars(&wanted));
        proof {
            lemma_with_folder_absent(before, folder@, i as int);
            assert(text_views(self.required_folders@) =~= before.insert(i as int, folder@));
            if old(self)@.wf() {
                lemma_with_folder_ascending(before, folder@, i as int);
            }
        }
    }
}

/// Where the walk over `folders` meets `folder` itself, nothing changes.
pub proof fn lemma_with_folder_present(folders: Seq<Seq<char>>, folder: Seq<char>, at: int)
    requires
        0 <= at < folders.len(),
        folders[at] == folder,
        forall|j: int| 0 <= j < at ==> folders[j] != folder && !lex_lt(folder, folders[j]),
    ensures
        with_folder(folders, folder) == folders,
    decreases at,
{
    if at > 0 {
        let rest = folders.skip(1);
        assert forall|j: int| 0 <= j < at - 1 implies rest[j] != folder && !lex_lt(
            folder,
            rest[j],
        ) by {
            assert(rest[j] == folders[j + 1]);
        }
        lemma_with_folder_present(rest, folder, at - 1);
        assert(seq![folders[0]] + rest =~= folders);
    }
}

/// Where the walk stops before an entry that comes later, or at the end,
/// `folder` is put in there.
pub proof fn lemma_with_folder_absent(folders: Seq<Seq<char>>, folder: Seq<char>, at: int)
    requires
        0 <= at <= folders.len(),
        at < folders.len() ==> lex_lt(folder, folders[at]),
        forall|j: int| 0 <= j < at ==> folders[j] != folder && !lex_lt(folder, folders[j]),
    ensures
        with_folder(folders, folder) == folders.insert(at, folder),
    decreases at,
{
    if at == 0 {
        if folders.len() == 0 {
            assert(folders.insert(0, folder) =~= seq![folder]);
        } else {
            crate::text::lemma_lex_irreflexive(folder);
            assert(folders.insert(0, folder) =~= seq![folder] + folders);
        }
    } else {
        let rest = folders.skip(1);
        assert forall|j: int| 0 <= j < at - 1 implies rest[j] != folder && !lex_lt(
            folder,
            rest[j],
        ) by {
            assert(rest[j] == folders[j + 1]);
        }
        if at < folders.len() {
            assert(rest[at - 1] == folders[at]);
        }
        lemma_with_folder_absent(rest, folder, at - 1);
        assert(seq![folders[0]] + rest.insert(at - 1, folder) =~= folders.insert(at, folder));
    }
}

/// Putting a folder in at its place keeps the order.
pub proof fn lemma_with_folder_ascending(folders: Seq<Seq<char>>, folder: Seq<char>, at: int)
    requires
        strictly_ascending(folders),
        0 <= at <= folders.len(),
        at < folders.len() ==> lex_lt(folder, folders[at]),
        forall|j: int| 0 <= j < at ==> folders[j] != folder && !lex_lt(folder, folders[j]),
    ensures
        strictly_ascending(folders.insert(at, folder)),
{
    let result = folders.insert(at, folder);
    assert forall|i: int, j: int| 0 <= i < j < result.len() implies lex_lt(
        result[i],
        result[j],
    ) by {
        if j == at {
            crate::text::lemma_lex_total(folders[i], folder);
        } else if i == at {
            if j - 1 > at {
                crate::text::lemma_lex_transitive(folder, folders[at], folders[j - 1]);
            }
        } else {
            let a = if i < at { i } else { i - 1 };
            let b = if j < at { j } else { j - 1 };
            assert(result[i] == folders[a]);
            assert(result[j] == folders[b]);
        }
    }
}

/// The words of the categories: two parts with one `-` between them, made
/// of small letters.
pub proof fn lemma_prefix_facts(category: RecordType)
    ensures
        category.prefix().len() == match category {
            RecordType::ScreenCapture => 14int,
            RecordType::ScreenRecord => 13int,
            RecordType::VoiceRecord => 12int,
        },
        category.prefix()[category.prefix().len() - 1 - match category {
            RecordType::ScreenCapture => 7int,
            _ => 6int,
        }] == '-',
        forall|i: int|
            0 <= i < category.prefix().len() ==> {
                let c = #[trigger] category.prefix()[i];
                (c == '-' || ('a' <= c && c <= 'z')) && (c == '-' <==> i == category.prefix().len()
                    - 1 - match category {
                    RecordType::ScreenCapture => 7int,
                    _ => 6int,
                })
            },
{
    reveal_strlit("screen-capture");
    reveal_strlit("screen-record");
    reveal_strlit("voice-record");
}

/// The folder names of the categories have no `/` and differ from each
/// other.
pub proof fn lemma_folder_facts(category: RecordType)
    ensures
        category.folder().len() == match category {
            RecordType::ScreenCapture => 14int,
            RecordType::ScreenRecord => 13int,
            RecordType::VoiceRecord => 12int,
        },
        forall|i: int|
            0 <= i < category.folder().len() ==> {
                let c = #[trigger] category.folder()[i];
                c == ' ' || ('a' <= c && c <= 'z')
            },
{
    reveal_strlit("screen capture");
    reveal_strlit("screen record");
    reveal_strlit("voice record");
}

} // verus!
