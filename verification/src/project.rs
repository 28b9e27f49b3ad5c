//! The progression document: the *semantic* content of a session, encoded so it can travel inside an
//! exported MIDI file and be restored later.
//!
//! A MIDI file on its own only holds absolute notes, and the original degrees, transformations and
//! register gestures cannot be recovered from them: C-E-G is I in C, IV in G, and V in F, and all of
//! those voicings are identical. So the exporter embeds this document alongside the notes, and the
//! importer reads it back. A file without it is refused rather than guessed at.

use vstd::prelude::*;
use vstd::string::*;
use vstd::utf8::{encode_utf8, valid_utf8};

use crate::document::ProjectWire;
use crate::keyboard::{lemma_listed, lemma_set_with, listed, set_with, KeyPosition, PositionSet};
use crate::music::{clamped, Key, Scale, ScaleDegree, Transformation, TONIC_MAX, TONIC_MIN};
use crate::progression::{
    copy_slots, pattern_of, slot_models, EntryModel, Progression, ProgressionEntry, Registers, Slot, SlotModel,
    MAX_OFFSET_TICKS,
};
use crate::rhythm::{pattern_models, PatternModel, RhythmPattern};
use crate::rhythm_store::{find_index, named, RhythmStore};
use crate::single::Single;
use crate::text::{decimal, decimal_text, quoted_text, same_text, text_quoted, utf8_text};

verus! {

/// Bumped whenever the encoded shape changes incompatibly.
///
/// Version 2 added `slots[].pattern`, `slots[].offset_ticks` and the embedded `rhythms` list. In
/// version 2 `slots[].pattern` was the *name* of an entry in `rhythms`, so two chords could share
/// one pattern.
///
/// Version 3 makes `slots[].pattern` the pattern itself, because an entry owns its rhythm. A
/// version 2 name is resolved against the document's own `rhythms` on import, so an older export
/// restores to the copy each slot used to share.
///
/// Version 1 documents still import: the new fields all default, so an older export restores to a
/// progression with no patterns and no offsets, which is exactly what it sounded like.
pub const VERSION: u32 = 3;

/// The whole session context needed to restore a progression exactly.
#[derive(Debug, PartialEq)]
pub struct Project {
    pub version: u32,
    pub key_tonic: u8,
    pub key_scale: Scale,
    pub bpm: u16,
    pub note_length: Single,
    pub slots: Vec<SlotDoc>,
    /// The pattern *library* as it stood when the file was written, so an import lands with the
    /// palette the export had. A version 2 file's slots resolve their names against it.
    pub rhythms: Vec<RhythmPattern>,
}

/// One progression slot as it appears in the document.
#[derive(Debug, PartialEq)]
pub struct SlotDoc {
    /// `"chord"` or `"rest"`.
    pub kind: String,
    pub degree: Option<ScaleDegree>,
    pub transformation: Option<Transformation>,
    /// The slot's own rhythm, or the name of one in `rhythms` when the document is older than
    /// version 3.
    pub pattern: Option<PatternDoc>,
    /// Signed ticks off the slot's downbeat. Absent in a version 1 document.
    pub offset_ticks: i32,
    /// `None` means the register was never set; `Some([])` means it was explicitly cleared. The
    /// distinction is preserved rather than flattened.
    pub left: Option<Vec<KeyPosition>>,
    pub right: Option<Vec<KeyPosition>>,
}

/// A slot's rhythm as it appears in a document: a version 2 *reference* into `rhythms`, or a
/// version 3 *owned copy*.
#[derive(Debug, PartialEq)]
pub enum PatternDoc {
    /// A library name, as version 2 wrote it.
    Name(String),
    /// The pattern itself, as version 3 writes it.
    Inline(RhythmPattern),
}

/// What a document restores to: domain values ready to install.
#[derive(Debug, PartialEq)]
pub struct Restored {
    pub slots: Vec<Slot>,
    pub key: Key,
    pub bpm: u16,
    pub note_length: Single,
    /// The library snapshot to merge into the palette.
    pub rhythms: Vec<RhythmPattern>,
}

/// Whether an offset is left out of a document.
pub fn is_zero_offset(v: &i32) -> (r: bool)
    ensures
        r == (*v == 0),
{
    *v == 0
}

// -----------------------------------------------------------------------------
// Models
// -----------------------------------------------------------------------------

/// What a slot's rhythm in a document holds.
#[verifier::ext_equal]
pub enum PatternDocModel {
    Name(Seq<char>),
    Inline(PatternModel),
}

impl View for PatternDoc {
    type V = PatternDocModel;

    open spec fn view(&self) -> PatternDocModel {
        match self {
            PatternDoc::Name(n) => PatternDocModel::Name(n@),
            PatternDoc::Inline(p) => PatternDocModel::Inline(p@),
        }
    }
}

/// What a slot of a document holds.
#[verifier::ext_equal]
pub struct SlotDocModel {
    pub kind: Seq<char>,
    pub degree: Option<ScaleDegree>,
    pub transformation: Option<Transformation>,
    pub pattern: Option<PatternDocModel>,
    pub offset_ticks: i32,
    pub left: Option<Seq<KeyPosition>>,
    pub right: Option<Seq<KeyPosition>>,
}

/// What an optional list of positions holds.
pub open spec fn keys_of(keys: Option<Vec<KeyPosition>>) -> Option<Seq<KeyPosition>> {
    match keys {
        Some(v) => Some(v@),
        None => None,
    }
}

/// What an optional rhythm of a document holds.
pub open spec fn rhythm_of(p: Option<PatternDoc>) -> Option<PatternDocModel> {
    match p {
        Some(p) => Some(p@),
        None => None,
    }
}

impl View for SlotDoc {
    type V = SlotDocModel;

    open spec fn view(&self) -> SlotDocModel {
        SlotDocModel {
            kind: self.kind@,
            degree: self.degree,
            transformation: self.transformation,
            pattern: rhythm_of(self.pattern),
            offset_ticks: self.offset_ticks,
            left: keys_of(self.left),
            right: keys_of(self.right),
        }
    }
}

/// What each slot of a document holds.
pub open spec fn doc_models(slots: Seq<SlotDoc>) -> Seq<SlotDocModel> {
    slots.map_values(|s: SlotDoc| s@)
}

/// What a document holds.
#[verifier::ext_equal]
pub struct ProjectModel {
    pub version: u32,
    pub key_tonic: u8,
    pub key_scale: Scale,
    pub bpm: u16,
    pub note_length: Single,
    pub slots: Seq<SlotDocModel>,
    pub rhythms: Seq<PatternModel>,
}

impl View for Project {
    type V = ProjectModel;

    open spec fn view(&self) -> ProjectModel {
        ProjectModel {
            version: self.version,
            key_tonic: self.key_tonic,
            key_scale: self.key_scale,
            bpm: self.bpm,
            note_length: self.note_length,
            slots: doc_models(self.slots@),
            rhythms: pattern_models(self.rhythms@),
        }
    }
}

/// A session: a progression and its context.
#[verifier::ext_equal]
pub struct Session {
    pub slots: Seq<SlotModel>,
    pub key: Key,
    pub bpm: u16,
    pub note_length: Single,
    pub rhythms: Seq<PatternModel>,
}

impl View for Restored {
    type V = Session;

    open spec fn view(&self) -> Session {
        Session {
            slots: slot_models(self.slots@),
            key: self.key,
            bpm: self.bpm,
            note_length: self.note_length,
            rhythms: pattern_models(self.rhythms@),
        }
    }
}

impl Clone for PatternDoc {
    fn clone(&self) -> (r: Self)
        ensures
            r@ == self@,
    {
        match self {
            PatternDoc::Name(name) => PatternDoc::Name(name.clone()),
            PatternDoc::Inline(pattern) => PatternDoc::Inline(pattern.clone()),
        }
    }
}

fn copy_keys(keys: &Option<Vec<KeyPosition>>) -> (r: Option<Vec<KeyPosition>>)
    ensures
        keys_of(r) == keys_of(*keys),
{
    match keys {
        Some(v) => {
            let copied: Vec<KeyPosition> = v.clone();
            assert(copied@ =~= v@);
            Some(copied)
        },
        None => None,
    }
}

impl Clone for SlotDoc {
    fn clone(&self) -> (r: Self)
        ensures
            r@ == self@,
    {
        let pattern: Option<PatternDoc> = match &self.pattern {
            Some(p) => Some(p.clone()),
            None => None,
        };
        SlotDoc {
            kind: self.kind.clone(),
            degree: self.degree,
            transformation: self.transformation,
            pattern,
            offset_ticks: self.offset_ticks,
            left: copy_keys(&self.left),
            right: copy_keys(&self.right),
        }
    }
}

impl Clone for Project {
    fn clone(&self) -> (r: Self)
        ensures
            r@ == self@,
    {
        let slots: Vec<SlotDoc> = self.slots.clone();
        assert(doc_models(slots@) =~= doc_models(self.slots@));
        Project {
            version: self.version,
            key_tonic: self.key_tonic,
            key_scale: self.key_scale,
            bpm: self.bpm,
            note_length: self.note_length,
            slots,
            rhythms: copy_patterns(&self.rhythms),
        }
    }
}

impl Clone for Restored {
    fn clone(&self) -> (r: Self)
        ensures
            r@ == self@,
    {
        Restored {
            slots: copy_slots(&self.slots),
            key: self.key,
            bpm: self.bpm,
            note_length: self.note_length,
            rhythms: copy_patterns(&self.rhythms),
        }
    }
}

// -----------------------------------------------------------------------------
// Errors
// -----------------------------------------------------------------------------

#[derive(Debug, PartialEq)]
pub enum ProjectError {
    /// The payload was not valid UTF-8.
    Encoding,
    /// A document from a newer (or older) format than this build understands.
    UnsupportedVersion(u32),
    /// The document could not be parsed at all.
    Malformed(String),
    /// The document parsed but does not describe a valid session.
    Invalid(String),
}

/// What an error says.
#[verifier::ext_equal]
pub enum ProjectFault {
    Encoding,
    UnsupportedVersion(u32),
    Malformed(Seq<char>),
    Invalid(Seq<char>),
}

impl View for ProjectError {
    type V = ProjectFault;

    open spec fn view(&self) -> ProjectFault {
        match self {
            ProjectError::Encoding => ProjectFault::Encoding,
            ProjectError::UnsupportedVersion(v) => ProjectFault::UnsupportedVersion(*v),
            ProjectError::Malformed(s) => ProjectFault::Malformed(s@),
            ProjectError::Invalid(s) => ProjectFault::Invalid(s@),
        }
    }
}

impl ProjectFault {
    /// The sentence shown for the error.
    pub open spec fn shown(self) -> Seq<char> {
        match self {
            ProjectFault::Encoding => "project payload is not valid UTF-8"@,
            ProjectFault::UnsupportedVersion(v) => "project format v"@ + decimal(v as nat)
                + " is not supported (this build reads v"@ + decimal(VERSION as nat) + ")"@,
            ProjectFault::Malformed(s) => "project payload is malformed: "@ + s,
            ProjectFault::Invalid(s) => "project payload is invalid: "@ + s,
        }
    }
}

impl ProjectError {
    /// The sentence to show for the error.
    pub fn message(&self) -> (r: String)
        ensures
            r@ == self@.shown(),
    {
        let mut s: String = String::new();
        match self {
            ProjectError::Encoding => {
                s.append("project payload is not valid UTF-8");
            },
            ProjectError::UnsupportedVersion(v) => {
                s.append("project format v");
                s.append(decimal_text(*v as u128).as_str());
                s.append(" is not supported (this build reads v");
                s.append(decimal_text(VERSION as u128).as_str());
                s.append(")");
            },
            ProjectError::Malformed(msg) => {
                s.append("project payload is malformed: ");
                s.append(msg.as_str());
            },
            ProjectError::Invalid(msg) => {
                s.append("project payload is invalid: ");
                s.append(msg.as_str());
            },
        }
        assert(s@ =~= self@.shown());
        s
    }
}

// -----------------------------------------------------------------------------
// Writing
// -----------------------------------------------------------------------------

/// A register as a document lists it.
pub open spec fn listed_register(register: Option<PositionSet>) -> Option<Seq<KeyPosition>> {
    match register {
        Some(s) => Some(listed(s@, 24)),
        None => None,
    }
}

/// An offset as a document and a session keep it.
pub open spec fn kept_offset(ticks: i32) -> i32 {
    clamped(ticks as int, -(MAX_OFFSET_TICKS as int), MAX_OFFSET_TICKS as int) as i32
}

/// A slot as a document describes it.
pub open spec fn described_slot(slot: SlotModel) -> SlotDocModel {
    match slot {
        SlotModel::Rest => SlotDocModel {
            kind: "rest"@,
            degree: None,
            transformation: None,
            pattern: None,
            offset_ticks: 0,
            left: None,
            right: None,
        },
        SlotModel::Chord(e) => SlotDocModel {
            kind: "chord"@,
            degree: Some(e.degree),
            transformation: e.transformation,
            pattern: match e.pattern {
                Some(p) => Some(PatternDocModel::Inline(p)),
                None => None,
            },
            offset_ticks: kept_offset(e.offset_ticks),
            left: listed_register(e.registers.left),
            right: listed_register(e.registers.right),
        },
    }
}

/// A session as a document describes it.
pub open spec fn described(session: Session) -> ProjectModel {
    ProjectModel {
        version: VERSION,
        key_tonic: session.key.tonic,
        key_scale: session.key.scale,
        bpm: session.bpm,
        note_length: session.note_length,
        slots: session.slots.map_values(|s: SlotModel| described_slot(s)),
        rhythms: session.rhythms,
    }
}

fn list_register(register: &Option<PositionSet>) -> (r: Option<Vec<KeyPosition>>)
    ensures
        keys_of(r) == listed_register(*register),
{
    match register {
        Some(set) => Some(set.positions()),
        None => None,
    }
}

fn copy_patterns(patterns: &Vec<RhythmPattern>) -> (r: Vec<RhythmPattern>)
    ensures
        pattern_models(r@) == pattern_models(patterns@),
{
    let r: Vec<RhythmPattern> = patterns.clone();
    assert(pattern_models(r@) =~= pattern_models(patterns@));
    r
}

/// The description of one slot.
fn describe_slot(slot: &Slot) -> (r: SlotDoc)
    ensures
        r@ == described_slot(slot@),
{
    match slot {
        Slot::Rest => SlotDoc {
            kind: "rest".to_owned(),
            degree: None,
            transformation: None,
            pattern: None,
            offset_ticks: 0,
            left: None,
            right: None,
        },
        Slot::Chord(entry) => SlotDoc {
            kind: "chord".to_owned(),
            degree: Some(entry.degree),
            transformation: entry.transformation,
            pattern: match &entry.pattern {
                Some(p) => Some(PatternDoc::Inline(p.clone())),
                None => None,
            },
            offset_ticks: ProgressionEntry::clamp_offset(entry.offset_ticks),
            left: list_register(&entry.registers.left),
            right: list_register(&entry.registers.right),
        },
    }
}

/// The document of a progression and its context.
///
/// Each slot writes the rhythm it owns, so the document holds exactly what the notes were built
/// from. `rhythms` is the pattern *library* snapshot, so an import lands with the palette the export
/// had, but no slot depends on it.
pub fn describe(
    prog: &Progression,
    rhythms: &RhythmStore,
    key: Key,
    bpm: u16,
    note_length: Single,
) -> (r: Project)
    ensures
        r@ == described(
            Session {
                slots: slot_models(prog.slots@),
                key,
                bpm,
                note_length,
                rhythms: rhythms@,
            },
        ),
{
    let mut slots: Vec<SlotDoc> = Vec::new();
    for i in 0..prog.slots.len()
        invariant
            slots@.len() == i,
            forall|j: int| 0 <= j < i ==> (#[trigger] slots@[j])@ == described_slot(prog.slots@[j]@),
    {
        slots.push(describe_slot(&prog.slots[i]));
    }
    assert(doc_models(slots@) =~= slot_models(prog.slots@).map_values(
        |s: SlotModel| described_slot(s),
    ));
    Project {
        version: VERSION,
        key_tonic: key.tonic,
        key_scale: key.scale,
        bpm,
        note_length,
        slots,
        rhythms: copy_patterns(&rhythms.patterns),
    }
}

/// The bytes of a text.
pub open spec fn payload_result(
    rendered: Result<String, String>,
    r: Result<Vec<u8>, ProjectError>,
) -> bool {
    match rendered {
        Ok(text) => r matches Ok(bytes) && bytes@ == encode_utf8(text@),
        Err(e) => r matches Err(err) && err@ == ProjectFault::Malformed(e@),
    }
}

/// Encode a progression and its context as a project document.
///
/// `render` writes the document down as text; where it fails, what it says comes back as
/// [`ProjectError::Malformed`].
pub fn encode<F: Fn(ProjectWire) -> Result<String, String>>(
    prog: &Progression,
    rhythms: &RhythmStore,
    key: Key,
    bpm: u16,
    note_length: Single,
    render: F,
) -> (r: Result<Vec<u8>, ProjectError>)
    requires
        forall|wire: ProjectWire| call_requires(render, (wire,)),
    ensures
        exists|wire: ProjectWire, rendered: Result<String, String>|
            {
                &&& wire@ == crate::document::spelled(
                    described(
                        Session {
                            slots: slot_models(prog.slots@),
                            key,
                            bpm,
                            note_length,
                            rhythms: rhythms@,
                        },
                    ),
                )
                &&& #[trigger] call_ensures(render, (wire,), rendered)
                &&& payload_result(rendered, r)
            },
{
    let project: Project = describe(prog, rhythms, key, bpm, note_length);
    let wire: ProjectWire = ProjectWire::from_project(&project);
    let ghost spelled = wire;
    let rendered: Result<String, String> = render(wire);
    assert(call_ensures(render, (spelled,), rendered));
    let ghost outcome = rendered;
    match rendered {
        Ok(text) => {
            let mut bytes: Vec<u8> = Vec::new();
            bytes.extend_from_slice(text.as_str().as_bytes());
            assert(bytes@ =~= encode_utf8(text@));
            assert(payload_result(outcome, Ok(bytes)));
            Ok(bytes)
        },
        Err(e) => {
            let err: ProjectError = ProjectError::Malformed(e);
            assert(payload_result(outcome, Err(err)));
            Err(err)
        },
    }
}

// -----------------------------------------------------------------------------
// Reading
// -----------------------------------------------------------------------------

/// A version that this build reads.
pub open spec fn readable_version(version: u32) -> bool {
    1 <= version <= VERSION
}

/// What comes of a parsed document: where there is one, its version has to be one that this build
/// reads; where there is none, what the parser says is handed on.
pub open spec fn accepted(parsed: Result<ProjectModel, Seq<char>>) -> Result<
    ProjectModel,
    ProjectFault,
> {
    match parsed {
        Err(e) => Err(ProjectFault::Malformed(e)),
        Ok(p) => if readable_version(p.version) {
            Ok(p)
        } else {
            Err(ProjectFault::UnsupportedVersion(p.version))
        },
    }
}

/// The value of a parse.
pub open spec fn parse_result(r: Result<Project, String>) -> Result<ProjectModel, Seq<char>> {
    match r {
        Ok(p) => Ok(p@),
        Err(e) => Err(e@),
    }
}

/// The value of a decoding.
pub open spec fn project_result(r: Result<Project, ProjectError>) -> Result<
    ProjectModel,
    ProjectFault,
> {
    match r {
        Ok(p) => Ok(p@),
        Err(e) => Err(e@),
    }
}

/// What comes of a parsed document. This checks the version but not the contents.
pub fn accept(parsed: Result<Project, String>) -> (r: Result<Project, ProjectError>)
    ensures
        project_result(r) == accepted(parse_result(parsed)),
{
    match parsed {
        Err(e) => Err(ProjectError::Malformed(e)),
        Ok(project) => if project.version == 0 || project.version > VERSION {
            Err(ProjectError::UnsupportedVersion(project.version))
        } else {
            Ok(project)
        },
    }
}

/// Decode a project document. This checks the version but not the contents.
///
/// Every version from 1 up to [`VERSION`] is accepted: the new fields all default, so an older
/// export restores to the progression it described. `parse` reads the text of the document, names
/// and patterns included; where it fails, what it says comes back as [`ProjectError::Malformed`].
pub fn decode<F: Fn(&str) -> Result<Project, String>>(bytes: &[u8], parse: F) -> (r: Result<
    Project,
    ProjectError,
>)
    requires
        forall|text: &str| call_requires(parse, (text,)),
    ensures
        !valid_utf8(bytes@) ==> project_result(r) == Err::<ProjectModel, ProjectFault>(
            ProjectFault::Encoding,
        ),
        valid_utf8(bytes@) ==> exists|text: &str, parsed: Result<Project, String>|
            {
                &&& encode_utf8(text@) == bytes@
                &&& #[trigger] call_ensures(parse, (text,), parsed)
                &&& project_result(r) == accepted(parse_result(parsed))
            },
{
    match utf8_text(bytes) {
        None => Err(ProjectError::Encoding),
        Some(text) => {
            let parsed: Result<Project, String> = parse(text);
            assert(call_ensures(parse, (text,), parsed));
            accept(parsed)
        },
    }
}

/// A register that a document lists.
pub open spec fn read_register(keys: Option<Seq<KeyPosition>>) -> Option<PositionSet> {
    match keys {
        Some(v) => Some(set_with(v.to_set())),
        None => None,
    }
}

/// The rhythm of a slot: its own, which has to be a pattern at all, or the one it names, which the
/// document has to carry; or what is wrong with it.
pub open spec fn read_rhythm(
    pattern: Option<PatternDocModel>,
    rhythms: Seq<PatternModel>,
) -> Result<Option<PatternModel>, Seq<char>> {
    match pattern {
        None => Ok(None),
        Some(PatternDocModel::Inline(p)) => match p.fault() {
            Some(e) => Err(
                "a slot's rhythm "@ + text_quoted(p.name) + " is invalid: "@ + e.shown(),
            ),
            None => Ok(Some(p)),
        },
        Some(PatternDocModel::Name(name)) => match named(rhythms, name, 0) {
            Some(i) => Ok(Some(rhythms[i])),
            None => Err(
                "a slot uses the rhythm pattern "@ + text_quoted(name)
                    + ", which the file does not contain"@,
            ),
        },
    }
}

/// The slot that a document describes, or what is wrong with it.
pub open spec fn read_slot(doc: SlotDocModel, rhythms: Seq<PatternModel>) -> Result<
    SlotModel,
    Seq<char>,
> {
    if doc.kind == "rest"@ {
        Ok(SlotModel::Rest)
    } else if doc.kind == "chord"@ {
        match doc.degree {
            None => Err("a chord slot has no scale degree"@),
            Some(degree) => match read_rhythm(doc.pattern, rhythms) {
                Err(e) => Err(e),
                Ok(pattern) => Ok(
                    SlotModel::Chord(
                        EntryModel {
                            degree,
                            transformation: doc.transformation,
                            registers: Registers {
                                left: read_register(doc.left),
                                right: read_register(doc.right),
                            },
                            pattern,
                            offset_ticks: kept_offset(doc.offset_ticks),
                        },
                    ),
                ),
            },
        }
    } else {
        Err("unknown slot kind "@ + text_quoted(doc.kind))
    }
}

/// The first `n` slots that a document describes, or what is wrong with the first that fails.
pub open spec fn read_slots(docs: Seq<SlotDocModel>, rhythms: Seq<PatternModel>, n: int) -> Result<
    Seq<SlotModel>,
    Seq<char>,
>
    decreases n,
{
    if n <= 0 {
        Ok(Seq::empty())
    } else {
        match read_slots(docs, rhythms, n - 1) {
            Err(e) => Err(e),
            Ok(front) => match read_slot(docs[n - 1], rhythms) {
                Err(e) => Err(e),
                Ok(slot) => Ok(front.push(slot)),
            },
        }
    }
}

/// The session that a document describes, or what is wrong with it.
pub open spec fn session_of(project: ProjectModel) -> Result<Session, ProjectFault> {
    if !readable_version(project.version) {
        Err(ProjectFault::UnsupportedVersion(project.version))
    } else {
        match read_slots(project.slots, project.rhythms, project.slots.len() as int) {
            Err(e) => Err(ProjectFault::Invalid(e)),
            Ok(slots) => Ok(
                Session {
                    slots,
                    key: Key {
                        tonic: clamped(
                            project.key_tonic as int,
                            TONIC_MIN as int,
                            TONIC_MAX as int,
                        ) as u8,
                        scale: project.key_scale,
                    },
                    bpm: project.bpm,
                    note_length: project.note_length,
                    rhythms: project.rhythms,
                },
            ),
        }
    }
}

/// The value of a restoring.
pub open spec fn restore_result(r: Result<Restored, ProjectError>) -> Result<Session, ProjectFault> {
    match r {
        Ok(s) => Ok(s@),
        Err(e) => Err(e@),
    }
}

fn read_keys(keys: &Option<Vec<KeyPosition>>) -> (r: Option<PositionSet>)
    ensures
        r == read_register(keys_of(*keys)),
{
    match keys {
        Some(v) => {
            let set: PositionSet = PositionSet::from_positions(v.as_slice());
            proof {
                lemma_set_with(set);
            }
            Some(set)
        },
        None => None,
    }
}

/// The rhythm of a slot, or what is wrong with it.
fn restore_rhythm(pattern: &Option<PatternDoc>, rhythms: &Vec<RhythmPattern>) -> (r: Result<
    Option<RhythmPattern>,
    String,
>)
    ensures
        (match r {
            Ok(p) => Ok(pattern_of(p)),
            Err(e) => Err(e@),
        }) == read_rhythm(rhythm_of(*pattern), pattern_models(rhythms@)),
{
    match pattern {
        None => Ok(None),
        Some(PatternDoc::Inline(p)) => match p.validate() {
            Ok(_) => Ok(Some(p.clone())),
            Err(e) => {
                let mut s: String = "a slot's rhythm ".to_owned();
                s.append(quoted_text(p.name.as_str()).as_str());
                s.append(" is invalid: ");
                s.append(e.message().as_str());
                Err(s)
            },
        },
        Some(PatternDoc::Name(name)) => match find_index(rhythms, name.as_str()) {
            // The copy each slot used to share becomes its own, so a version 2 file opens with the
            // isolation version 3 has.
            Some(i) => Ok(Some(rhythms[i].clone())),
            None => {
                let mut s: String = "a slot uses the rhythm pattern ".to_owned();
                s.append(quoted_text(name.as_str()).as_str());
                s.append(", which the file does not contain");
                Err(s)
            },
        },
    }
}

/// The slot that a document describes, or what is wrong with it.
fn restore_slot(doc: &SlotDoc, rhythms: &Vec<RhythmPattern>) -> (r: Result<Slot, String>)
    ensures
        (match r {
            Ok(s) => Ok(s@),
            Err(e) => Err(e@),
        }) == read_slot(doc@, pattern_models(rhythms@)),
{
    if same_text(doc.kind.as_str(), "rest") {
        return Ok(Slot::Rest);
    }
    if !same_text(doc.kind.as_str(), "chord") {
        let mut s: String = "unknown slot kind ".to_owned();
        s.append(quoted_text(doc.kind.as_str()).as_str());
        return Err(s);
    }
    let degree: ScaleDegree = match doc.degree {
        Some(d) => d,
        None => {
            return Err("a chord slot has no scale degree".to_owned());
        },
    };
    let pattern: Option<RhythmPattern> = match restore_rhythm(&doc.pattern, rhythms) {
        Ok(p) => p,
        Err(e) => {
            return Err(e);
        },
    };
    Ok(
        Slot::Chord(
            ProgressionEntry {
                degree,
                transformation: doc.transformation,
                registers: Registers { left: read_keys(&doc.left), right: read_keys(&doc.right) },
                pattern,
                offset_ticks: ProgressionEntry::clamp_offset(doc.offset_ticks),
            },
        ),
    )
}

/// Turn a decoded document back into domain values.
///
/// A version 2 slot *names* a pattern in `rhythms`, and a name the document does not carry would
/// import as something other than what was exported, so it is refused rather than guessed at. A
/// version 3 slot carries its own copy, which only has to be a pattern at all.
pub fn restore(project: &Project) -> (r: Result<Restored, ProjectError>)
    ensures
        restore_result(r) == session_of(project@),
{
    if project.version == 0 || project.version > VERSION {
        return Err(ProjectError::UnsupportedVersion(project.version));
    }
    let ghost docs = doc_models(project.slots@);
    let ghost rhythms = pattern_models(project.rhythms@);
    let mut slots: Vec<Slot> = Vec::new();
    assert(slot_models(slots@) =~= Seq::<SlotModel>::empty());
    for i in 0..project.slots.len()
        invariant
            docs == doc_models(project.slots@),
            rhythms == pattern_models(project.rhythms@),
            docs == project@.slots,
            rhythms == project@.rhythms,
            readable_version(project.version),
            read_slots(docs, rhythms, i as int) == Ok::<Seq<SlotModel>, Seq<char>>(
                slot_models(slots@),
            ),
    {
        assert(docs[i as int] == project.slots@[i as int]@);
        let ghost before = slots@;
        match restore_slot(&project.slots[i], &project.rhythms) {
            Ok(slot) => {
                slots.push(slot);
                assert(slot_models(slots@) =~= slot_models(before).push(slot@));
            },
            Err(e) => {
                proof {
                    lemma_read_slots_fails(docs, rhythms, i + 1, docs.len() as int);
                }
                return Err(ProjectError::Invalid(e));
            },
        }
    }
    assert(docs.len() == project.slots@.len());
    Ok(
        Restored {
            slots,
            // `Key::new` clamps the tonic into the playable range.
            key: Key::new(project.key_tonic, project.key_scale),
            bpm: project.bpm,
            note_length: project.note_length,
            rhythms: copy_patterns(&project.rhythms),
        },
    )
}

/// A slot that cannot be restored spoils the document.
proof fn lemma_read_slots_fails(docs: Seq<SlotDocModel>, rhythms: Seq<PatternModel>, i: int, n: int)
    requires
        i <= n,
        read_slots(docs, rhythms, i) is Err,
    ensures
        read_slots(docs, rhythms, n) == read_slots(docs, rhythms, i),
    decreases n,
{
    if i < n {
        lemma_read_slots_fails(docs, rhythms, i, n - 1);
    }
}

// -----------------------------------------------------------------------------
// Laws
// -----------------------------------------------------------------------------

/// A slot whose rhythm is a valid pattern and whose offset is within the playable range.
pub open spec fn playable(slot: SlotModel) -> bool {
    slot matches SlotModel::Chord(e) ==> {
        &&& e.pattern matches Some(p) ==> p.valid()
        &&& -MAX_OFFSET_TICKS <= e.offset_ticks <= MAX_OFFSET_TICKS
    }
}

/// A session that is described and restored comes back as it was: slots with their chords,
/// registers, rhythms and offsets, the key, the tempo, the note length and the palette.
pub proof fn law_sessions_round_trip(session: Session)
    requires
        forall|i: int| 0 <= i < session.slots.len() ==> playable(#[trigger] session.slots[i]),
        session.key.in_range(),
    ensures
        session_of(described(session)) == Ok::<Session, ProjectFault>(session),
{
    lemma_slots_round_trip(session, session.slots.len() as int);
    assert(session.slots.take(session.slots.len() as int) =~= session.slots);
}

proof fn lemma_slots_round_trip(session: Session, n: int)
    requires
        forall|i: int| 0 <= i < session.slots.len() ==> playable(#[trigger] session.slots[i]),
        0 <= n <= session.slots.len(),
    ensures
        read_slots(described(session).slots, session.rhythms, n) == Ok::<
            Seq<SlotModel>,
            Seq<char>,
        >(session.slots.take(n)),
    decreases n,
{
    if n > 0 {
        lemma_slots_round_trip(session, n - 1);
        let slot = session.slots[n - 1];
        assert(playable(slot));
        assert(described(session).slots[n - 1] == described_slot(slot));
        lemma_slot_round_trips(slot, session.rhythms);
        assert(session.slots.take(n - 1).push(slot) =~= session.slots.take(n));
    } else {
        assert(session.slots.take(0) =~= Seq::<SlotModel>::empty());
    }
}

proof fn lemma_slot_round_trips(slot: SlotModel, rhythms: Seq<PatternModel>)
    requires
        playable(slot),
    ensures
        read_slot(described_slot(slot), rhythms) == Ok::<SlotModel, Seq<char>>(slot),
{
    reveal_strlit("rest");
    reveal_strlit("chord");
    assert("rest"@.len() == 4 && "chord"@.len() == 5);
    if let SlotModel::Chord(e) = slot {
        lemma_register_round_trips(e.registers.left);
        lemma_register_round_trips(e.registers.right);
        assert(read_rhythm(described_slot(slot).pattern, rhythms) == Ok::<
            Option<PatternModel>,
            Seq<char>,
        >(e.pattern));
    }
}

proof fn lemma_register_round_trips(register: Option<PositionSet>)
    ensures
        read_register(listed_register(register)) == register,
{
    if let Some(s) = register {
        lemma_listed(s@);
        lemma_set_with(s);
    }
}

/// Describing clamps what restoring clamps: a session whose key or offsets lie outside the playable
/// range comes back with them inside it.
pub proof fn law_restored_sessions_are_playable(project: ProjectModel)
    requires
        forall|i: int|
            0 <= i < project.rhythms.len() ==> (#[trigger] project.rhythms[i]).valid(),
    ensures
        session_of(project) matches Ok(session) ==> session.key.in_range() && forall|i: int|
            0 <= i < session.slots.len() ==> playable(#[trigger] session.slots[i]),
{
    lemma_read_slots_playable(project.slots, project.rhythms, project.slots.len() as int);
}

proof fn lemma_read_slots_playable(docs: Seq<SlotDocModel>, rhythms: Seq<PatternModel>, n: int)
    requires
        forall|i: int| 0 <= i < rhythms.len() ==> (#[trigger] rhythms[i]).valid(),
    ensures
        read_slots(docs, rhythms, n) matches Ok(slots) ==> forall|i: int|
            0 <= i < slots.len() ==> playable(#[trigger] slots[i]),
    decreases n,
{
    if n > 0 {
        lemma_read_slots_playable(docs, rhythms, n - 1);
        let doc = docs[n - 1];
        if let Some(PatternDocModel::Name(name)) = doc.pattern {
            crate::rhythm_store::lemma_named(rhythms, name, 0);
        }
    }
}

/// A never-set register stays distinct from an explicitly cleared one.
pub proof fn law_cleared_registers_stay_cleared(keys: Option<Seq<KeyPosition>>)
    ensures
        read_register(keys) is None <==> keys is None,
{
}

/// A document says what its session holds, slot by slot: what a slot is, the chord, the rhythm it owns in
/// full, the offset, and each register's keys where the register was set.
pub proof fn law_a_document_says_what_the_session_holds(session: Session, i: int)
    requires
        0 <= i < session.slots.len(),
    ensures
        ({
            let doc = described(session);
            &&& doc.version == 3
            &&& doc.key_tonic == session.key.tonic
            &&& doc.key_scale == session.key.scale
            &&& doc.bpm == session.bpm
            &&& doc.note_length == session.note_length
            &&& doc.rhythms == session.rhythms
            &&& doc.slots.len() == session.slots.len()
        }),
        ({
            let slot = described(session).slots[i];
            match session.slots[i] {
                SlotModel::Rest => slot.kind == "rest"@ && slot.degree is None && slot.pattern is None
                    && slot.offset_ticks == 0,
                SlotModel::Chord(e) => {
                    &&& slot.kind == "chord"@
                    &&& slot.degree == Some(e.degree)
                    &&& slot.transformation == e.transformation
                    &&& slot.pattern == (match e.pattern {
                        Some(p) => Some(PatternDocModel::Inline(p)),
                        None => None,
                    })
                    &&& -3840 <= e.offset_ticks <= 3840 ==> slot.offset_ticks == e.offset_ticks
                    &&& e.offset_ticks > 3840 ==> slot.offset_ticks == 3840
                    &&& e.offset_ticks < -3840 ==> slot.offset_ticks == -3840
                    &&& slot.left is Some <==> e.registers.left is Some
                    &&& slot.right is Some <==> e.registers.right is Some
                    &&& e.registers.left matches Some(s) ==> slot.left->0.to_set() == s@
                    &&& e.registers.right matches Some(s) ==> slot.right->0.to_set() == s@
                },
            }
        }),
{
    if let SlotModel::Chord(e) = session.slots[i] {
        if let Some(s) = e.registers.left {
            lemma_listed(s@);
        }
        if let Some(s) = e.registers.right {
            lemma_listed(s@);
        }
    }
}

/// A slot of a document can be restored: it is a rest, or a chord with a degree whose rhythm, where it has
/// one, is either a valid pattern or the name of a rhythm that the document carries.
pub open spec fn restorable(doc: SlotDocModel, rhythms: Seq<PatternModel>) -> bool {
    ||| doc.kind == "rest"@
    ||| {
        &&& doc.kind == "chord"@
        &&& doc.degree is Some
        &&& match doc.pattern {
            None => true,
            Some(PatternDocModel::Inline(p)) => p.valid(),
            Some(PatternDocModel::Name(name)) => exists|k: int|
                0 <= k < rhythms.len() && (#[trigger] rhythms[k]).name == name,
        }
    }
}

/// A slot is what a document's slot says: a rest, or the chord with its degree and transformation, the
/// offset kept within a bar either way, and the rhythm, which for a name is the first that the
/// document carries under it.
pub open spec fn restores_to(doc: SlotDocModel, rhythms: Seq<PatternModel>, slot: SlotModel) -> bool {
    if doc.kind == "rest"@ {
        slot == SlotModel::Rest
    } else {
        slot matches SlotModel::Chord(e) && {
            &&& doc.degree == Some(e.degree)
            &&& doc.transformation == e.transformation
            &&& -3840 <= doc.offset_ticks <= 3840 ==> e.offset_ticks == doc.offset_ticks
            &&& doc.offset_ticks > 3840 ==> e.offset_ticks == 3840
            &&& doc.offset_ticks < -3840 ==> e.offset_ticks == -3840
            &&& e.registers.left is Some <==> doc.left is Some
            &&& e.registers.right is Some <==> doc.right is Some
            &&& match doc.pattern {
                None => e.pattern is None,
                Some(PatternDocModel::Inline(p)) => e.pattern == Some(p),
                Some(PatternDocModel::Name(name)) => exists|k: int|
                    0 <= k < rhythms.len() && e.pattern == Some(#[trigger] rhythms[k])
                        && rhythms[k].name == name && forall|j: int|
                        0 <= j < k ==> (#[trigger] rhythms[j]).name != name,
            }
        }
    }
}

/// A document restores exactly when its version is 1, 2 or 3 and each of its slots can be restored, and
/// then to as many slots, each what the document says; the tonic is kept in range, and the rest of
/// the session is taken as it is.
pub proof fn law_what_a_document_restores_to(project: ProjectModel)
    ensures
        session_of(project) is Ok <==> 1 <= project.version <= 3 && forall|i: int|
            0 <= i < project.slots.len() ==> restorable(#[trigger] project.slots[i], project.rhythms),
        !(1 <= project.version <= 3) ==> session_of(project) == Err::<Session, ProjectFault>(
            ProjectFault::UnsupportedVersion(project.version),
        ),
        session_of(project) matches Ok(session) ==> {
            &&& session.slots.len() == project.slots.len()
            &&& forall|i: int|
                0 <= i < project.slots.len() ==> restores_to(
                    #[trigger] project.slots[i],
                    project.rhythms,
                    session.slots[i],
                )
            &&& session.key.scale == project.key_scale
            &&& 24 <= project.key_tonic <= 95 ==> session.key.tonic == project.key_tonic
            &&& project.key_tonic < 24 ==> session.key.tonic == 24
            &&& project.key_tonic > 95 ==> session.key.tonic == 95
            &&& session.bpm == project.bpm
            &&& session.note_length == project.note_length
            &&& session.rhythms == project.rhythms
        },
{
    lemma_slots_restore(project.slots, project.rhythms, project.slots.len() as int);
}

proof fn lemma_slots_restore(docs: Seq<SlotDocModel>, rhythms: Seq<PatternModel>, n: int)
    requires
        0 <= n <= docs.len(),
    ensures
        read_slots(docs, rhythms, n) is Ok <==> forall|i: int|
            0 <= i < n ==> restorable(#[trigger] docs[i], rhythms),
        read_slots(docs, rhythms, n) matches Ok(slots) ==> slots.len() == n && forall|i: int|
            0 <= i < n ==> restores_to(#[trigger] docs[i], rhythms, slots[i]),
    decreases n,
{
    if n > 0 {
        lemma_slots_restore(docs, rhythms, n - 1);
        lemma_slot_restores(docs[n - 1], rhythms);
        if read_slots(docs, rhythms, n - 1) is Err {
            let i = choose|i: int| 0 <= i < n - 1 && !restorable(#[trigger] docs[i], rhythms);
            assert(!restorable(docs[i], rhythms));
        }
    }
}

proof fn lemma_slot_restores(doc: SlotDocModel, rhythms: Seq<PatternModel>)
    ensures
        read_slot(doc, rhythms) is Ok <==> restorable(doc, rhythms),
        read_slot(doc, rhythms) matches Ok(slot) ==> restores_to(doc, rhythms, slot),
{
    reveal_strlit("rest");
    reveal_strlit("chord");
    assert("rest"@.len() == 4 && "chord"@.len() == 5);
    if let Some(PatternDocModel::Name(name)) = doc.pattern {
        lemma_first_named(rhythms, name, 0);
    }
}

proof fn lemma_first_named(rhythms: Seq<PatternModel>, name: Seq<char>, i: int)
    requires
        0 <= i,
    ensures
        named(rhythms, name, i) is None ==> forall|k: int|
            i <= k < rhythms.len() ==> (#[trigger] rhythms[k]).name != name,
        named(rhythms, name, i) matches Some(k) ==> i <= k < rhythms.len() && rhythms[k].name == name
            && forall|j: int| i <= j < k ==> (#[trigger] rhythms[j]).name != name,
    decreases rhythms.len() - i,
{
    if i < rhythms.len() && rhythms[i].name != name {
        lemma_first_named(rhythms, name, i + 1);
    }
}

} // verus!
