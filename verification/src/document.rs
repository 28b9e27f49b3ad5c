//! The document as a file spells it: plain tables of names, numbers and step strings.
//!
//! A serialiser turns these values into text and back one for one. What a value means, which names
//! there are, and which patterns are patterns at all, is decided here.

use vstd::prelude::*;
use vstd::string::*;

use crate::keyboard::KeyPosition;
use crate::music::{Scale, ScaleDegree, Transformation};
use crate::project::{
    doc_models, keys_of, rhythm_of, PatternDoc, PatternDocModel, Project, ProjectModel, SlotDoc,
    SlotDocModel,
};
use crate::rhythm::{
    pattern_models, read_wire, PatternModel, PatternWire, RhythmError, RhythmPattern, WireModel,
};
use crate::single::Single;
use crate::text::{quoted_text, text_quoted};
use crate::wire::law_names_read_back;

verus! {

/// A project as a file spells it.
#[derive(Debug, PartialEq)]
pub struct ProjectWire {
    pub version: u32,
    pub key_tonic: u8,
    pub key_scale: String,
    pub bpm: u16,
    pub note_length: Single,
    pub slots: Vec<SlotWire>,
    /// Left out of a file where it is empty.
    pub rhythms: Vec<PatternWire>,
}

/// A slot as a file spells it. Every field but `kind` may be missing.
#[derive(Debug, PartialEq)]
pub struct SlotWire {
    pub kind: String,
    pub degree: Option<String>,
    pub transformation: Option<String>,
    pub pattern: Option<PatternDocWire>,
    /// Left out of a file where it is 0.
    pub offset_ticks: i32,
    pub left: Option<Vec<String>>,
    pub right: Option<Vec<String>>,
}

/// A slot's rhythm as a file spells it: a bare string is a name, a table is a pattern.
#[derive(Debug, PartialEq)]
pub enum PatternDocWire {
    Name(String),
    Inline(PatternWire),
}

/// Why a file's values are no project.
#[derive(Debug, PartialEq)]
pub enum WireError {
    /// A name that means nothing.
    Name(String),
    /// A pattern that is none.
    Rhythm(RhythmError),
}

/// What is wrong with a file's values.
#[verifier::ext_equal]
pub enum WireFault {
    Name(Seq<char>),
    Rhythm(RhythmError),
}

impl View for WireError {
    type V = WireFault;

    open spec fn view(&self) -> WireFault {
        match self {
            WireError::Name(n) => WireFault::Name(n@),
            WireError::Rhythm(e) => WireFault::Rhythm(*e),
        }
    }
}

impl WireFault {
    /// The sentence shown for the error.
    pub open spec fn shown(self) -> Seq<char> {
        match self {
            WireFault::Name(n) => "unknown name "@ + text_quoted(n),
            WireFault::Rhythm(e) => e.shown(),
        }
    }
}

impl WireError {
    /// The sentence to show for the error.
    pub fn message(&self) -> (r: String)
        ensures
            r@ == self@.shown(),
    {
        match self {
            WireError::Name(n) => {
                let mut s: String = "unknown name ".to_owned();
                s.append(quoted_text(n.as_str()).as_str());
                s
            },
            WireError::Rhythm(e) => e.message(),
        }
    }
}

// -----------------------------------------------------------------------------
// Models
// -----------------------------------------------------------------------------

/// What an optional text holds.
pub open spec fn text_of(s: Option<String>) -> Option<Seq<char>> {
    match s {
        Some(s) => Some(s@),
        None => None,
    }
}

/// What each of some texts holds.
pub open spec fn texts(v: Seq<String>) -> Seq<Seq<char>> {
    v.map_values(|s: String| s@)
}

/// What an optional list of texts holds.
pub open spec fn texts_of(v: Option<Vec<String>>) -> Option<Seq<Seq<char>>> {
    match v {
        Some(v) => Some(texts(v@)),
        None => None,
    }
}

/// What a slot's rhythm in a file holds.
#[verifier::ext_equal]
pub enum PatternDocWireModel {
    Name(Seq<char>),
    Inline(WireModel),
}

impl View for PatternDocWire {
    type V = PatternDocWireModel;

    open spec fn view(&self) -> PatternDocWireModel {
        match self {
            PatternDocWire::Name(n) => PatternDocWireModel::Name(n@),
            PatternDocWire::Inline(p) => PatternDocWireModel::Inline(p@),
        }
    }
}

/// What an optional rhythm in a file holds.
pub open spec fn rhythm_wire_of(p: Option<PatternDocWire>) -> Option<PatternDocWireModel> {
    match p {
        Some(p) => Some(p@),
        None => None,
    }
}

/// What a slot of a file holds.
#[verifier::ext_equal]
pub struct SlotWireModel {
    pub kind: Seq<char>,
    pub degree: Option<Seq<char>>,
    pub transformation: Option<Seq<char>>,
    pub pattern: Option<PatternDocWireModel>,
    pub offset_ticks: i32,
    pub left: Option<Seq<Seq<char>>>,
    pub right: Option<Seq<Seq<char>>>,
}

impl View for SlotWire {
    type V = SlotWireModel;

    open spec fn view(&self) -> SlotWireModel {
        SlotWireModel {
            kind: self.kind@,
            degree: text_of(self.degree),
            transformation: text_of(self.transformation),
            pattern: rhythm_wire_of(self.pattern),
            offset_ticks: self.offset_ticks,
            left: texts_of(self.left),
            right: texts_of(self.right),
        }
    }
}

/// What each pattern of a file holds.
pub open spec fn wire_models(v: Seq<PatternWire>) -> Seq<WireModel> {
    v.map_values(|p: PatternWire| p@)
}

/// What each slot of a file holds.
pub open spec fn slot_wire_models(v: Seq<SlotWire>) -> Seq<SlotWireModel> {
    v.map_values(|s: SlotWire| s@)
}

/// What a file holds.
#[verifier::ext_equal]
pub struct ProjectWireModel {
    pub version: u32,
    pub key_tonic: u8,
    pub key_scale: Seq<char>,
    pub bpm: u16,
    pub note_length: Single,
    pub slots: Seq<SlotWireModel>,
    pub rhythms: Seq<WireModel>,
}

impl View for ProjectWire {
    type V = ProjectWireModel;

    open spec fn view(&self) -> ProjectWireModel {
        ProjectWireModel {
            version: self.version,
            key_tonic: self.key_tonic,
            key_scale: self.key_scale@,
            bpm: self.bpm,
            note_length: self.note_length,
            slots: slot_wire_models(self.slots@),
            rhythms: wire_models(self.rhythms@),
        }
    }
}

// -----------------------------------------------------------------------------
// Spelling
// -----------------------------------------------------------------------------

/// How a file spells some positions.
pub open spec fn spelled_keys(keys: Option<Seq<KeyPosition>>) -> Option<Seq<Seq<char>>> {
    match keys {
        Some(v) => Some(v.map_values(|p: KeyPosition| p.spelled())),
        None => None,
    }
}

/// How a file spells a slot.
pub open spec fn spelled_slot(slot: SlotDocModel) -> SlotWireModel {
    SlotWireModel {
        kind: slot.kind,
        degree: match slot.degree {
            Some(d) => Some(d.spelled()),
            None => None,
        },
        transformation: match slot.transformation {
            Some(t) => Some(t.spelled()),
            None => None,
        },
        pattern: match slot.pattern {
            Some(PatternDocModel::Name(n)) => Some(PatternDocWireModel::Name(n)),
            Some(PatternDocModel::Inline(p)) => Some(
                PatternDocWireModel::Inline(crate::rhythm::spelled(p)),
            ),
            None => None,
        },
        offset_ticks: slot.offset_ticks,
        left: spelled_keys(slot.left),
        right: spelled_keys(slot.right),
    }
}

/// How a file spells a project.
pub open spec fn spelled(project: ProjectModel) -> ProjectWireModel {
    ProjectWireModel {
        version: project.version,
        key_tonic: project.key_tonic,
        key_scale: project.key_scale.spelled(),
        bpm: project.bpm,
        note_length: project.note_length,
        slots: project.slots.map_values(|s: SlotDocModel| spelled_slot(s)),
        rhythms: project.rhythms.map_values(|p: PatternModel| crate::rhythm::spelled(p)),
    }
}

fn spell_keys(keys: &Option<Vec<KeyPosition>>) -> (r: Option<Vec<String>>)
    ensures
        texts_of(r) == spelled_keys(keys_of(*keys)),
{
    match keys {
        None => None,
        Some(v) => {
            let mut names: Vec<String> = Vec::new();
            for i in 0..v.len()
                invariant
                    names@.len() == i,
                    forall|j: int| 0 <= j < i ==> (#[trigger] names@[j])@ == v@[j].spelled(),
            {
                names.push(v[i].wire_name().to_owned());
            }
            assert(texts(names@) =~= v@.map_values(|p: KeyPosition| p.spelled()));
            Some(names)
        },
    }
}

fn spell_slot(slot: &SlotDoc) -> (r: SlotWire)
    ensures
        r@ == spelled_slot(slot@),
{
    SlotWire {
        kind: slot.kind.clone(),
        degree: match slot.degree {
            Some(d) => Some(d.wire_name().to_owned()),
            None => None,
        },
        transformation: match slot.transformation {
            Some(t) => Some(t.wire_name().to_owned()),
            None => None,
        },
        pattern: match &slot.pattern {
            Some(PatternDoc::Name(n)) => Some(PatternDocWire::Name(n.clone())),
            Some(PatternDoc::Inline(p)) => Some(
                PatternDocWire::Inline(PatternWire::from_pattern(p)),
            ),
            None => None,
        },
        offset_ticks: slot.offset_ticks,
        left: spell_keys(&slot.left),
        right: spell_keys(&slot.right),
    }
}

impl ProjectWire {
    /// How a file spells `project`.
    pub fn from_project(project: &Project) -> (r: Self)
        ensures
            r@ == spelled(project@),
    {
        let mut slots: Vec<SlotWire> = Vec::new();
        for i in 0..project.slots.len()
            invariant
                slots@.len() == i,
                forall|j: int|
                    0 <= j < i ==> (#[trigger] slots@[j])@ == spelled_slot(project.slots@[j]@),
        {
            slots.push(spell_slot(&project.slots[i]));
        }
        let mut rhythms: Vec<PatternWire> = Vec::new();
        for i in 0..project.rhythms.len()
            invariant
                rhythms@.len() == i,
                forall|j: int|
                    0 <= j < i ==> (#[trigger] rhythms@[j])@ == crate::rhythm::spelled(
                        project.rhythms@[j]@,
                    ),
        {
            rhythms.push(PatternWire::from_pattern(&project.rhythms[i]));
        }
        let r: ProjectWire = ProjectWire {
            version: project.version,
            key_tonic: project.key_tonic,
            key_scale: project.key_scale.wire_name().to_owned(),
            bpm: project.bpm,
            note_length: project.note_length,
            slots,
            rhythms,
        };
        assert(r@.slots =~= spelled(project@).slots);
        assert(r@.rhythms =~= spelled(project@).rhythms);
        r
    }
}

// -----------------------------------------------------------------------------
// Reading
// -----------------------------------------------------------------------------

/// The first `n` positions that a file names, or the first name that means nothing.
pub open spec fn read_names(names: Seq<Seq<char>>, n: int) -> Result<Seq<KeyPosition>, WireFault>
    decreases n,
{
    if n <= 0 {
        Ok(Seq::empty())
    } else {
        match read_names(names, n - 1) {
            Err(e) => Err(e),
            Ok(front) => match KeyPosition::named(names[n - 1]) {
                Some(p) => Ok(front.push(p)),
                None => Err(WireFault::Name(names[n - 1])),
            },
        }
    }
}

/// The positions that a file names.
pub open spec fn read_keys(names: Option<Seq<Seq<char>>>) -> Result<
    Option<Seq<KeyPosition>>,
    WireFault,
> {
    match names {
        None => Ok(None),
        Some(v) => match read_names(v, v.len() as int) {
            Ok(keys) => Ok(Some(keys)),
            Err(e) => Err(e),
        },
    }
}

/// The degree that a file names.
pub open spec fn read_degree(name: Option<Seq<char>>) -> Result<Option<ScaleDegree>, WireFault> {
    match name {
        None => Ok(None),
        Some(n) => match ScaleDegree::named(n) {
            Some(d) => Ok(Some(d)),
            None => Err(WireFault::Name(n)),
        },
    }
}

/// The transformation that a file names.
pub open spec fn read_transformation(name: Option<Seq<char>>) -> Result<
    Option<Transformation>,
    WireFault,
> {
    match name {
        None => Ok(None),
        Some(n) => match Transformation::named(n) {
            Some(t) => Ok(Some(t)),
            None => Err(WireFault::Name(n)),
        },
    }
}

/// The rhythm that a file spells for a slot.
pub open spec fn read_rhythm(pattern: Option<PatternDocWireModel>) -> Result<
    Option<PatternDocModel>,
    WireFault,
> {
    match pattern {
        None => Ok(None),
        Some(PatternDocWireModel::Name(n)) => Ok(Some(PatternDocModel::Name(n))),
        Some(PatternDocWireModel::Inline(w)) => match read_wire(w) {
            Ok(p) => Ok(Some(PatternDocModel::Inline(p))),
            Err(e) => Err(WireFault::Rhythm(e)),
        },
    }
}

/// The slot that a file spells, or the first thing wrong with it.
pub open spec fn read_slot(w: SlotWireModel) -> Result<SlotDocModel, WireFault> {
    match read_degree(w.degree) {
        Err(e) => Err(e),
        Ok(degree) => match read_transformation(w.transformation) {
            Err(e) => Err(e),
            Ok(transformation) => match read_rhythm(w.pattern) {
                Err(e) => Err(e),
                Ok(pattern) => match read_keys(w.left) {
                    Err(e) => Err(e),
                    Ok(left) => match read_keys(w.right) {
                        Err(e) => Err(e),
                        Ok(right) => Ok(
                            SlotDocModel {
                                kind: w.kind,
                                degree,
                                transformation,
                                pattern,
                                offset_ticks: w.offset_ticks,
                                left,
                                right,
                            },
                        ),
                    },
                },
            },
        },
    }
}

/// The first `n` slots that a file spells, or the first thing wrong with them.
pub open spec fn read_slots(slots: Seq<SlotWireModel>, n: int) -> Result<Seq<SlotDocModel>, WireFault>
    decreases n,
{
    if n <= 0 {
        Ok(Seq::empty())
    } else {
        match read_slots(slots, n - 1) {
            Err(e) => Err(e),
            Ok(front) => match read_slot(slots[n - 1]) {
                Err(e) => Err(e),
                Ok(s) => Ok(front.push(s)),
            },
        }
    }
}

/// The first `n` patterns that a file spells, or the first thing wrong with them.
pub open spec fn read_patterns(patterns: Seq<WireModel>, n: int) -> Result<
    Seq<PatternModel>,
    WireFault,
>
    decreases n,
{
    if n <= 0 {
        Ok(Seq::empty())
    } else {
        match read_patterns(patterns, n - 1) {
            Err(e) => Err(e),
            Ok(front) => match read_wire(patterns[n - 1]) {
                Err(e) => Err(WireFault::Rhythm(e)),
                Ok(p) => Ok(front.push(p)),
            },
        }
    }
}

/// The project that a file spells, or the first thing wrong with it.
pub open spec fn read(w: ProjectWireModel) -> Result<ProjectModel, WireFault> {
    match Scale::named(w.key_scale) {
        None => Err(WireFault::Name(w.key_scale)),
        Some(key_scale) => match read_slots(w.slots, w.slots.len() as int) {
            Err(e) => Err(e),
            Ok(slots) => match read_patterns(w.rhythms, w.rhythms.len() as int) {
                Err(e) => Err(e),
                Ok(rhythms) => Ok(
                    ProjectModel {
                        version: w.version,
                        key_tonic: w.key_tonic,
                        key_scale,
                        bpm: w.bpm,
                        note_length: w.note_length,
                        slots,
                        rhythms,
                    },
                ),
            },
        },
    }
}

fn keys_from(names: &Option<Vec<String>>) -> (r: Result<Option<Vec<KeyPosition>>, WireError>)
    ensures
        (match r {
            Ok(v) => Ok(keys_of(v)),
            Err(e) => Err(e@),
        }) == read_keys(texts_of(*names)),
{
    match names {
        None => Ok(None),
        Some(v) => {
            let ghost all = texts(v@);
            let mut keys: Vec<KeyPosition> = Vec::new();
            for i in 0..v.len()
                invariant
                    all == texts(v@),
                    texts_of(*names) == Some(all),
                    read_names(all, i as int) == Ok::<Seq<KeyPosition>, WireFault>(keys@),
            {
                assert(all[i as int] == v@[i as int]@);
                match KeyPosition::from_wire_name(v[i].as_str()) {
                    Some(p) => {
                        keys.push(p);
                    },
                    None => {
                        proof {
                            lemma_read_names_fails(all, i + 1, all.len() as int);
                        }
                        return Err(WireError::Name(v[i].as_str().to_owned()));
                    },
                }
            }
            assert(all.len() == v@.len());
            Ok(Some(keys))
        },
    }
}

fn degree_from(name: &Option<String>) -> (r: Result<Option<ScaleDegree>, WireError>)
    ensures
        (match r {
            Ok(v) => Ok(v),
            Err(e) => Err(e@),
        }) == read_degree(text_of(*name)),
{
    match name {
        None => Ok(None),
        Some(n) => match ScaleDegree::from_wire_name(n.as_str()) {
            Some(d) => Ok(Some(d)),
            None => Err(WireError::Name(n.clone())),
        },
    }
}

fn transformation_from(name: &Option<String>) -> (r: Result<Option<Transformation>, WireError>)
    ensures
        (match r {
            Ok(v) => Ok(v),
            Err(e) => Err(e@),
        }) == read_transformation(text_of(*name)),
{
    match name {
        None => Ok(None),
        Some(n) => match Transformation::from_wire_name(n.as_str()) {
            Some(t) => Ok(Some(t)),
            None => Err(WireError::Name(n.clone())),
        },
    }
}

fn rhythm_from(pattern: Option<PatternDocWire>) -> (r: Result<Option<PatternDoc>, WireError>)
    ensures
        (match r {
            Ok(v) => Ok(rhythm_of(v)),
            Err(e) => Err(e@),
        }) == read_rhythm(rhythm_wire_of(pattern)),
{
    match pattern {
        None => Ok(None),
        Some(PatternDocWire::Name(n)) => Ok(Some(PatternDoc::Name(n))),
        Some(PatternDocWire::Inline(w)) => match w.into_pattern() {
            Ok(p) => Ok(Some(PatternDoc::Inline(p))),
            Err(e) => Err(WireError::Rhythm(e)),
        },
    }
}

impl SlotWire {
    /// The slot that the file spells.
    pub fn into_slot(self) -> (r: Result<SlotDoc, WireError>)
        ensures
            (match r {
                Ok(s) => Ok(s@),
                Err(e) => Err(e@),
            }) == read_slot(self@),
    {
        let degree: Option<ScaleDegree> = match degree_from(&self.degree) {
            Ok(d) => d,
            Err(e) => {
                return Err(e);
            },
        };
        let transformation: Option<Transformation> = match transformation_from(
            &self.transformation,
        ) {
            Ok(t) => t,
            Err(e) => {
                return Err(e);
            },
        };
        let pattern: Option<PatternDoc> = match rhythm_from(self.pattern) {
            Ok(p) => p,
            Err(e) => {
                return Err(e);
            },
        };
        let left: Option<Vec<KeyPosition>> = match keys_from(&self.left) {
            Ok(v) => v,
            Err(e) => {
                return Err(e);
            },
        };
        let right: Option<Vec<KeyPosition>> = match keys_from(&self.right) {
            Ok(v) => v,
            Err(e) => {
                return Err(e);
            },
        };
        Ok(
            SlotDoc {
                kind: self.kind,
                degree,
                transformation,
                pattern,
                offset_ticks: self.offset_ticks,
                left,
                right,
            },
        )
    }
}

fn slots_from(wires: Vec<SlotWire>) -> (r: Result<Vec<SlotDoc>, WireError>)
    ensures
        (match r {
            Ok(v) => Ok(doc_models(v@)),
            Err(e) => Err(e@),
        }) == read_slots(slot_wire_models(wires@), wires@.len() as int),
{
    let ghost all = slot_wire_models(wires@);
    let mut slots: Vec<SlotDoc> = Vec::new();
    assert(doc_models(slots@) =~= Seq::<SlotDocModel>::empty());
    for wire in it: wires
        invariant
            it.seq() == wires@,
            all == slot_wire_models(wires@),
            read_slots(all, it.index() as int) == Ok::<Seq<SlotDocModel>, WireFault>(
                doc_models(slots@),
            ),
    {
        let ghost before = slots@;
        assert(all[it.index() as int] == wire@);
        match wire.into_slot() {
            Ok(slot) => {
                slots.push(slot);
                assert(doc_models(slots@) =~= doc_models(before).push(slot@));
            },
            Err(e) => {
                proof {
                    lemma_read_slots_fails(all, it.index() + 1, all.len() as int);
                }
                return Err(e);
            },
        }
    }
    Ok(slots)
}

fn patterns_from(wires: Vec<PatternWire>) -> (r: Result<Vec<RhythmPattern>, WireError>)
    ensures
        (match r {
            Ok(v) => Ok(pattern_models(v@)),
            Err(e) => Err(e@),
        }) == read_patterns(wire_models(wires@), wires@.len() as int),
{
    let ghost all = wire_models(wires@);
    let mut patterns: Vec<RhythmPattern> = Vec::new();
    assert(pattern_models(patterns@) =~= Seq::<PatternModel>::empty());
    for wire in it: wires
        invariant
            it.seq() == wires@,
            all == wire_models(wires@),
            read_patterns(all, it.index() as int) == Ok::<Seq<PatternModel>, WireFault>(
                pattern_models(patterns@),
            ),
    {
        let ghost before = patterns@;
        assert(all[it.index() as int] == wire@);
        match wire.into_pattern() {
            Ok(pattern) => {
                patterns.push(pattern);
                assert(pattern_models(patterns@) =~= pattern_models(before).push(pattern@));
            },
            Err(e) => {
                proof {
                    lemma_read_patterns_fails(all, it.index() + 1, all.len() as int);
                }
                return Err(WireError::Rhythm(e));
            },
        }
    }
    Ok(patterns)
}

impl ProjectWire {
    /// The project that the file spells.
    pub fn into_project(self) -> (r: Result<Project, WireError>)
        ensures
            (match r {
                Ok(p) => Ok(p@),
                Err(e) => Err(e@),
            }) == read(self@),
    {
        let key_scale: Scale = match Scale::from_wire_name(self.key_scale.as_str()) {
            Some(s) => s,
            None => {
                return Err(WireError::Name(self.key_scale));
            },
        };
        let slots: Vec<SlotDoc> = match slots_from(self.slots) {
            Ok(v) => v,
            Err(e) => {
                return Err(e);
            },
        };
        let rhythms: Vec<RhythmPattern> = match patterns_from(self.rhythms) {
            Ok(v) => v,
            Err(e) => {
                return Err(e);
            },
        };
        Ok(
            Project {
                version: self.version,
                key_tonic: self.key_tonic,
                key_scale,
                bpm: self.bpm,
                note_length: self.note_length,
                slots,
                rhythms,
            },
        )
    }
}

proof fn lemma_read_names_fails(names: Seq<Seq<char>>, i: int, n: int)
    requires
        i <= n,
        read_names(names, i) is Err,
    ensures
        read_names(names, n) == read_names(names, i),
    decreases n,
{
    if i < n {
        lemma_read_names_fails(names, i, n - 1);
    }
}

proof fn lemma_read_slots_fails(slots: Seq<SlotWireModel>, i: int, n: int)
    requires
        i <= n,
        read_slots(slots, i) is Err,
    ensures
        read_slots(slots, n) == read_slots(slots, i),
    decreases n,
{
    if i < n {
        lemma_read_slots_fails(slots, i, n - 1);
    }
}

proof fn lemma_read_patterns_fails(patterns: Seq<WireModel>, i: int, n: int)
    requires
        i <= n,
        read_patterns(patterns, i) is Err,
    ensures
        read_patterns(patterns, n) == read_patterns(patterns, i),
    decreases n,
{
    if i < n {
        lemma_read_patterns_fails(patterns, i, n - 1);
    }
}

// -----------------------------------------------------------------------------
// Laws
// -----------------------------------------------------------------------------

/// A pattern that a file can hold: valid, its gains within 0 and 1.
pub open spec fn writable(p: PatternModel) -> bool {
    &&& p.valid()
    &&& forall|i: int|
        0 <= i < p.layers.len() ==> crate::rhythm::unit_gain((#[trigger] p.layers[i]).gain)
            == p.layers[i].gain
}

/// A slot whose own rhythm, if it has one, a file can hold.
pub open spec fn writable_slot(slot: SlotDocModel) -> bool {
    slot.pattern matches Some(PatternDocModel::Inline(p)) ==> writable(p)
}

/// A project that is spelled and read comes back as it was.
pub proof fn law_projects_round_trip(project: ProjectModel)
    requires
        forall|i: int| 0 <= i < project.slots.len() ==> writable_slot(#[trigger] project.slots[i]),
        forall|i: int| 0 <= i < project.rhythms.len() ==> writable(#[trigger] project.rhythms[i]),
    ensures
        read(spelled(project)) == Ok::<ProjectModel, WireFault>(project),
{
    law_names_read_back(
        project.key_scale,
        ScaleDegree::I,
        Transformation::Dom7,
        KeyPosition::LeftPinky,
    );
    lemma_slots_round_trip(project, project.slots.len() as int);
    lemma_patterns_round_trip(project, project.rhythms.len() as int);
    assert(project.slots.take(project.slots.len() as int) =~= project.slots);
    assert(project.rhythms.take(project.rhythms.len() as int) =~= project.rhythms);
}

proof fn lemma_names_round_trip(keys: Seq<KeyPosition>, n: int)
    requires
        0 <= n <= keys.len(),
    ensures
        read_names(keys.map_values(|p: KeyPosition| p.spelled()), n) == Ok::<
            Seq<KeyPosition>,
            WireFault,
        >(keys.take(n)),
    decreases n,
{
    if n > 0 {
        lemma_names_round_trip(keys, n - 1);
        law_names_read_back(Scale::Major, ScaleDegree::I, Transformation::Dom7, keys[n - 1]);
        assert(keys.take(n - 1).push(keys[n - 1]) =~= keys.take(n));
    } else {
        assert(keys.take(0) =~= Seq::<KeyPosition>::empty());
    }
}

proof fn lemma_keys_round_trip(keys: Option<Seq<KeyPosition>>)
    ensures
        read_keys(spelled_keys(keys)) == Ok::<Option<Seq<KeyPosition>>, WireFault>(keys),
{
    if let Some(v) = keys {
        lemma_names_round_trip(v, v.len() as int);
        assert(v.take(v.len() as int) =~= v);
    }
}

proof fn lemma_slot_round_trips(slot: SlotDocModel)
    requires
        writable_slot(slot),
    ensures
        read_slot(spelled_slot(slot)) == Ok::<SlotDocModel, WireFault>(slot),
{
    lemma_keys_round_trip(slot.left);
    lemma_keys_round_trip(slot.right);
    if let Some(d) = slot.degree {
        law_names_read_back(Scale::Major, d, Transformation::Dom7, KeyPosition::LeftPinky);
    }
    if let Some(t) = slot.transformation {
        law_names_read_back(Scale::Major, ScaleDegree::I, t, KeyPosition::LeftPinky);
    }
    if let Some(PatternDocModel::Inline(p)) = slot.pattern {
        crate::rhythm::law_pattern_round_trips(p);
    }
}

proof fn lemma_slots_round_trip(project: ProjectModel, n: int)
    requires
        0 <= n <= project.slots.len(),
        forall|i: int| 0 <= i < project.slots.len() ==> writable_slot(#[trigger] project.slots[i]),
    ensures
        read_slots(spelled(project).slots, n) == Ok::<Seq<SlotDocModel>, WireFault>(
            project.slots.take(n),
        ),
    decreases n,
{
    if n > 0 {
        lemma_slots_round_trip(project, n - 1);
        lemma_slot_round_trips(project.slots[n - 1]);
        assert(project.slots.take(n - 1).push(project.slots[n - 1]) =~= project.slots.take(n));
    } else {
        assert(project.slots.take(0) =~= Seq::<SlotDocModel>::empty());
    }
}

proof fn lemma_patterns_round_trip(project: ProjectModel, n: int)
    requires
        0 <= n <= project.rhythms.len(),
        forall|i: int| 0 <= i < project.rhythms.len() ==> writable(#[trigger] project.rhythms[i]),
    ensures
        read_patterns(spelled(project).rhythms, n) == Ok::<Seq<PatternModel>, WireFault>(
            project.rhythms.take(n),
        ),
    decreases n,
{
    if n > 0 {
        lemma_patterns_round_trip(project, n - 1);
        crate::rhythm::law_pattern_round_trips(project.rhythms[n - 1]);
        assert(project.rhythms.take(n - 1).push(project.rhythms[n - 1]) =~= project.rhythms.take(n));
    } else {
        assert(project.rhythms.take(0) =~= Seq::<PatternModel>::empty());
    }
}

/// A file spells a document as it is: the numbers as they stand, and each of its slots with its kind, its
/// offset, the names of its degree, its transformation and its keys, and its rhythm, by name or in
/// full.
pub proof fn law_how_a_file_spells_a_document(project: ProjectModel, i: int)
    requires
        0 <= i < project.slots.len(),
    ensures
        ({
            let w = spelled(project);
            &&& w.version == project.version
            &&& w.key_tonic == project.key_tonic
            &&& w.key_scale == project.key_scale.spelled()
            &&& w.bpm == project.bpm
            &&& w.note_length == project.note_length
            &&& w.slots.len() == project.slots.len()
            &&& w.rhythms.len() == project.rhythms.len()
            &&& forall|k: int|
                0 <= k < project.rhythms.len() ==> #[trigger] w.rhythms[k] == crate::rhythm::spelled(
                    project.rhythms[k],
                )
        }),
        ({
            let slot = project.slots[i];
            let w = spelled(project).slots[i];
            &&& w.kind == slot.kind
            &&& w.offset_ticks == slot.offset_ticks
            &&& w.degree is Some <==> slot.degree is Some
            &&& slot.degree matches Some(d) ==> w.degree == Some(d.spelled())
            &&& w.transformation is Some <==> slot.transformation is Some
            &&& slot.transformation matches Some(t) ==> w.transformation == Some(t.spelled())
            &&& w.pattern is Some <==> slot.pattern is Some
            &&& slot.pattern matches Some(PatternDocModel::Name(n)) ==> w.pattern == Some(
                PatternDocWireModel::Name(n),
            )
            &&& slot.pattern matches Some(PatternDocModel::Inline(p)) ==> w.pattern == Some(
                PatternDocWireModel::Inline(crate::rhythm::spelled(p)),
            )
            &&& w.left is Some <==> slot.left is Some
            &&& w.right is Some <==> slot.right is Some
            &&& slot.left matches Some(keys) ==> w.left->0.len() == keys.len() && forall|k: int|
                0 <= k < keys.len() ==> #[trigger] w.left->0[k] == keys[k].spelled()
            &&& slot.right matches Some(keys) ==> w.right->0.len() == keys.len() && forall|k: int|
                0 <= k < keys.len() ==> #[trigger] w.right->0[k] == keys[k].spelled()
        }),
{
}

} // verus!
