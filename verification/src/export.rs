//! MIDI export and import, short of the filesystem.
//!
//! What a file is called, what its bytes are, and what comes of the bytes of a file that is opened.
//! The format itself is in [`crate::smf`], the musical model in [`crate::midi`], and the embedded
//! session document in [`crate::project`].

use vstd::prelude::*;
use vstd::string::*;
use vstd::utf8::{encode_utf8, valid_utf8};

use crate::document::{
    law_projects_round_trip, read, spelled, writable, writable_slot, WireFault,
};
use crate::midi::Score;
use crate::project::{
    accepted, decode, described, described_slot, law_sessions_round_trip, parse_result,
    playable, restore, session_of, Project,
    ProjectError, ProjectFault, ProjectModel, Restored, Session,
};
use crate::progression::SlotModel;
use crate::smf::{
    file_bytes, first_body, found_in_file, law_document_reads_back, read_project,
    OptionsModel, SmfError, SmfOptions, TrackLayout,
};
use crate::text::{digit_char, padded};

verus! {

/// Directory exports are written to, relative to the working directory.
pub const PROGRESSIONS_DIR: &'static str = "progressions";

// -----------------------------------------------------------------------------
// File names
// -----------------------------------------------------------------------------

/// A moment of local wall-clock time.
#[derive(Copy, Clone, Debug, PartialEq, Eq, Structural)]
pub struct LocalTime {
    pub year: i32,
    /// From 1.
    pub month: u32,
    /// From 1.
    pub day: u32,
    pub hour: u32,
    pub minute: u32,
    pub second: u32,
    /// From 1,000,000,000 on it counts a leap second, in second 59 only.
    pub nanosecond: u32,
}

/// The days of a month.
pub open spec fn days_in(year: int, month: int) -> int {
    if month == 2 {
        if year % 4 == 0 && (year % 100 != 0 || year % 400 == 0) {
            29
        } else {
            28
        }
    } else if month == 4 || month == 6 || month == 9 || month == 11 {
        30
    } else {
        31
    }
}

/// A year as a stamp shows it: four digits, with a sign outside 0 to 9999.
pub open spec fn year_stamp(year: int) -> Seq<char> {
    if 0 <= year <= 9999 {
        padded(year as nat, 4)
    } else if year < 0 {
        seq!['-'] + padded((-year) as nat, 4)
    } else {
        seq!['+'] + padded(year as nat, 4)
    }
}

impl LocalTime {
    /// The calendar has this date and the clock this time.
    pub open spec fn exists_on_the_calendar(self) -> bool {
        &&& -262143 <= self.year <= 262142
        &&& 1 <= self.month <= 12
        &&& 1 <= self.day <= days_in(self.year as int, self.month as int)
        &&& self.hour < 24
        &&& self.minute < 60
        &&& self.second < 60
        &&& self.nanosecond < 2_000_000_000
        &&& self.nanosecond >= 1_000_000_000 ==> self.second == 59
    }

    /// The time as a file name shows it: `2026-09-23_18-03-45`.
    pub open spec fn stamp(self) -> Seq<char> {
        year_stamp(self.year as int) + seq!['-'] + padded(self.month as nat, 2) + seq!['-'] + padded(
            self.day as nat,
            2,
        ) + seq!['_'] + padded(self.hour as nat, 2) + seq!['-'] + padded(self.minute as nat, 2)
            + seq!['-'] + padded((self.second + self.nanosecond / 1_000_000_000) as nat, 2)
    }
}

/// How a file name shows a time.
pub const STAMP_FORMAT: &'static str = "%Y-%m-%d_%H-%M-%S";

/// The time in the given format, as chrono's `NaiveDateTime::format` renders it; the date is made by
/// `NaiveDate::from_ymd_opt` and the time of day by `NaiveDate::and_hms_nano_opt`, which give `None`
/// for what is not on the calendar or the clock. Stated of one format alone: each field is padded
/// with zeros, the year to four digits and the others to two, a year outside 0 to 9999 has its sign,
/// and a leap second counts as second 60.
#[verifier::external_body]
fn formatted(time: LocalTime, format: &str) -> (r: Option<String>)
    requires
        format@ == STAMP_FORMAT@,
    ensures
        r is Some <==> time.exists_on_the_calendar(),
        r matches Some(s) ==> s@ == time.stamp(),
{
    let date = chrono::NaiveDate::from_ymd_opt(time.year, time.month, time.day)?;
    let moment = date.and_hms_nano_opt(time.hour, time.minute, time.second, time.nanosecond)?;
    Some(moment.format(format).to_string())
}

/// `progression-2026-09-23_18-03-45.mid`, from local wall-clock time.
///
/// `now` is a parameter rather than a call to the clock so the formatter stays pure.
pub fn export_filename(now: LocalTime) -> (r: String)
    requires
        now.exists_on_the_calendar(),
    ensures
        r@ == "progression-"@ + now.stamp() + ".mid"@,
{
    let mut name: String = "progression-".to_owned();
    if let Some(stamp) = formatted(now, STAMP_FORMAT) {
        name.append(stamp.as_str());
    }
    name.append(".mid");
    name
}

// -----------------------------------------------------------------------------
// Export
// -----------------------------------------------------------------------------

/// The options an export is written with: one track called "Progression" on the first channel, with
/// the session document.
pub open spec fn export_options(document: Seq<u8>) -> OptionsModel {
    OptionsModel {
        layout: TrackLayout::Single { channel: 0 },
        track_name: "Progression"@,
        document: Some(document),
    }
}

/// The bytes of an export: `score` plus the embedded `project` document.
pub fn score_file(score: &Score, project: Vec<u8>) -> (bytes: Vec<u8>)
    requires
        forall|i: int|
            0 <= i < score.notes@.len() ==> (#[trigger] score.notes@[i]).release() <= u64::MAX,
    ensures
        bytes@ == file_bytes(*score, export_options(project@)),
{
    let opts: SmfOptions = SmfOptions::single("Progression").with_project(project);
    assert(opts@ =~= export_options(project@));
    crate::smf::write(score, &opts)
}

// -----------------------------------------------------------------------------
// Import
// -----------------------------------------------------------------------------

/// Why an import could not be completed.
#[derive(Debug, PartialEq)]
pub enum ImportError {
    /// The file could not be read; what the system says of it.
    Io(String),
    /// The file is not a usable MIDI file.
    Midi(SmfError),
    /// A valid MIDI file, but one chord-tool did not write.
    NotOurs,
    /// The embedded document could not be understood.
    Project(ProjectError),
}

/// What an error says.
#[verifier::ext_equal]
pub enum ImportFault {
    Io(Seq<char>),
    Midi(SmfError),
    NotOurs,
    Project(ProjectFault),
}

impl View for ImportError {
    type V = ImportFault;

    open spec fn view(&self) -> ImportFault {
        match self {
            ImportError::Io(s) => ImportFault::Io(s@),
            ImportError::Midi(e) => ImportFault::Midi(*e),
            ImportError::NotOurs => ImportFault::NotOurs,
            ImportError::Project(e) => ImportFault::Project(e@),
        }
    }
}

impl ImportFault {
    /// The sentence shown for the error.
    pub open spec fn shown(self) -> Seq<char> {
        match self {
            ImportFault::Io(s) => "could not read the file: "@ + s,
            ImportFault::Midi(e) => e.shown(),
            ImportFault::NotOurs => "not a chord-tool file (no embedded progression)"@,
            ImportFault::Project(e) => e.shown(),
        }
    }
}

impl ImportError {
    /// The sentence to show for the error.
    pub fn message(&self) -> (r: String)
        ensures
            r@ == self@.shown(),
    {
        match self {
            ImportError::Io(e) => {
                let mut s: String = "could not read the file: ".to_owned();
                s.append(e.as_str());
                s
            },
            ImportError::Midi(e) => e.message(),
            // Kept short: this is drawn in a fixed-width panel row.
            ImportError::NotOurs => "not a chord-tool file (no embedded progression)".to_owned(),
            ImportError::Project(e) => e.message(),
        }
    }
}

impl From<SmfError> for ImportError {
    fn from(e: SmfError) -> (r: Self) {
        ImportError::Midi(e)
    }
}

impl vstd::std_specs::convert::FromSpecImpl<SmfError> for ImportError {
    open spec fn obeys_from_spec() -> bool {
        true
    }

    open spec fn from_spec(e: SmfError) -> ImportError {
        ImportError::Midi(e)
    }
}

impl From<ProjectError> for ImportError {
    fn from(e: ProjectError) -> (r: Self) {
        ImportError::Project(e)
    }
}

impl vstd::std_specs::convert::FromSpecImpl<ProjectError> for ImportError {
    open spec fn obeys_from_spec() -> bool {
        true
    }

    open spec fn from_spec(e: ProjectError) -> ImportError {
        ImportError::Project(e)
    }
}

/// What importing a file gives whose document, where it has one that is text, parses to `parsed`.
pub open spec fn imported(bytes: Seq<u8>, parsed: Result<ProjectModel, Seq<char>>) -> Result<
    Session,
    ImportFault,
> {
    match found_in_file(bytes) {
        Err(e) => Err(ImportFault::Midi(e)),
        Ok(None) => Err(ImportFault::NotOurs),
        Ok(Some(document)) => if !valid_utf8(document) {
            Err(ImportFault::Project(ProjectFault::Encoding))
        } else {
            match accepted(parsed) {
                Err(f) => Err(ImportFault::Project(f)),
                Ok(project) => match session_of(project) {
                    Err(f) => Err(ImportFault::Project(f)),
                    Ok(session) => Ok(session),
                },
            }
        },
    }
}

/// The file holds a document that is text.
pub open spec fn holds_text(bytes: Seq<u8>) -> bool {
    found_in_file(bytes) matches Ok(Some(document)) && valid_utf8(document)
}

/// The value of an import.
pub open spec fn import_result(r: Result<Restored, ImportError>) -> Result<Session, ImportFault> {
    match r {
        Ok(s) => Ok(s@),
        Err(e) => Err(e@),
    }
}

/// Read the session document out of the bytes of an exported MIDI file.
///
/// Refuses a file that is not ours rather than guessing: the degrees and transformations cannot be
/// recovered from the notes, so a guess would silently disagree with what was played. `parse` reads
/// the text of the document.
pub fn import<F: Fn(&str) -> Result<Project, String>>(bytes: &[u8], parse: F) -> (r: Result<
    Restored,
    ImportError,
>)
    requires
        forall|text: &str| call_requires(parse, (text,)),
    ensures
        !holds_text(bytes@) ==> forall|parsed: Result<ProjectModel, Seq<char>>|
            import_result(r) == #[trigger] imported(bytes@, parsed),
        holds_text(bytes@) ==> exists|text: &str, parsed: Result<Project, String>|
            {
                &&& found_in_file(bytes@) == Ok::<Option<Seq<u8>>, SmfError>(
                    Some(encode_utf8(text@)),
                )
                &&& #[trigger] call_ensures(parse, (text,), parsed)
                &&& import_result(r) == imported(bytes@, parse_result(parsed))
            },
{
    let payload: Vec<u8> = match read_project(bytes) {
        Err(e) => {
            return Err(ImportError::from(e));
        },
        Ok(None) => {
            return Err(ImportError::NotOurs);
        },
        Ok(Some(payload)) => payload,
    };
    let decoded: Result<Project, ProjectError> = decode(payload.as_slice(), parse);
    let document: Project = match decoded {
        Err(e) => {
            return Err(ImportError::from(e));
        },
        Ok(document) => document,
    };
    match restore(&document) {
        Err(e) => Err(ImportError::from(e)),
        Ok(session) => Ok(session),
    }
}

// -----------------------------------------------------------------------------
// Laws
// -----------------------------------------------------------------------------

/// A session that an export keeps whole: its patterns are valid with gains within 0 and 1, its
/// offsets and its key are within the playable range.
pub open spec fn keepable(session: Session) -> bool {
    &&& session.key.in_range()
    &&& forall|i: int|
        0 <= i < session.slots.len() ==> playable(#[trigger] session.slots[i]) && (session.slots[i]
            matches SlotModel::Chord(e) ==> (e.pattern matches Some(p) ==> writable(p)))
    &&& forall|i: int| 0 <= i < session.rhythms.len() ==> writable(#[trigger] session.rhythms[i])
}

/// What a document spells of a session reads back, is accepted and restores it.
pub proof fn law_documents_restore(session: Session)
    requires
        keepable(session),
    ensures
        read(spelled(described(session))) == Ok::<ProjectModel, WireFault>(described(session)),
        accepted(Ok::<ProjectModel, Seq<char>>(described(session))) == Ok::<
            ProjectModel,
            ProjectFault,
        >(described(session)),
        session_of(described(session)) == Ok::<Session, ProjectFault>(session),
{
    let project = described(session);
    assert forall|i: int| 0 <= i < project.slots.len() implies writable_slot(
        #[trigger] project.slots[i],
    ) by {
        assert(project.slots[i] == described_slot(session.slots[i]));
        assert(playable(session.slots[i]));
    }
    law_projects_round_trip(project);
    assert forall|i: int| 0 <= i < session.slots.len() implies playable(
        #[trigger] session.slots[i],
    ) by {}
    law_sessions_round_trip(session);
}

/// An export imports back to the same session: where the text of the document, whose encoding is
/// `document`, parses to the project that its values spell, and those are the values that were
/// rendered, the session comes back as it was. The document and the track have to fit the file's
/// length fields.
pub proof fn law_an_export_imports_back(
    score: Score,
    session: Session,
    document: Seq<u8>,
    parsed: ProjectModel,
)
    requires
        keepable(session),
        valid_utf8(document),
        document.len() + 5 < 0x1000_0000,
        first_body(score, export_options(document)).len() < 0x1_0000_0000,
        read(spelled(described(session))) == Ok::<ProjectModel, WireFault>(parsed),
    ensures
        imported(file_bytes(score, export_options(document)), Ok(parsed)) == Ok::<
            Session,
            ImportFault,
        >(session),
{
    reveal_strlit("Progression");
    vstd::utf8::is_ascii_chars_encode_utf8("Progression"@);
    law_document_reads_back(score, export_options(document), document);
    law_documents_restore(session);
}

/// A MIDI file without a document is refused as not ours, whatever it parses to.
pub proof fn law_a_plain_file_is_not_ours(bytes: Seq<u8>, parsed: Result<ProjectModel, Seq<char>>)
    requires
        found_in_file(bytes) == Ok::<Option<Seq<u8>>, SmfError>(None),
    ensures
        imported(bytes, parsed) == Err::<Session, ImportFault>(ImportFault::NotOurs),
{
}

/// The digit of `n` that stands for `unit`.
#[verifier::opaque]
spec fn digit(n: int, unit: int) -> char {
    digit_char(n / unit % 10)
}

proof fn lemma_two_digits(n: nat)
    requires
        n < 100,
    ensures
        padded(n, 2) == seq![digit(n as int, 10), digit(n as int, 1)],
{
    reveal(digit);
    reveal_with_fuel(padded, 3);
    assert(padded(n, 2) =~= seq![digit(n as int, 10), digit(n as int, 1)]);
}

proof fn lemma_four_digits(n: nat)
    requires
        n < 10000,
    ensures
        padded(n, 4) == seq![
            digit(n as int, 1000),
            digit(n as int, 100),
            digit(n as int, 10),
            digit(n as int, 1),
        ],
{
    reveal(digit);
    reveal_with_fuel(padded, 5);
    assert(padded(n, 4) =~= seq![
        digit(n as int, 1000),
        digit(n as int, 100),
        digit(n as int, 10),
        digit(n as int, 1),
    ]);
}

impl LocalTime {
    /// The second as a stamp shows it.
    pub open spec fn shown_second(self) -> int {
        (self.second + self.nanosecond / 1_000_000_000) as int
    }

    /// The moment falls in an earlier second than the other.
    pub open spec fn before(self, other: LocalTime) -> bool {
        ||| self.year < other.year
        ||| self.year == other.year && self.month < other.month
        ||| self.year == other.year && self.month == other.month && self.day < other.day
        ||| self.year == other.year && self.month == other.month && self.day == other.day
            && self.hour < other.hour
        ||| self.year == other.year && self.month == other.month && self.day == other.day
            && self.hour == other.hour && self.minute < other.minute
        ||| self.year == other.year && self.month == other.month && self.day == other.day
            && self.hour == other.hour && self.minute == other.minute && self.shown_second()
            < other.shown_second()
    }

    /// The `i`-th character of the stamp.
    spec fn letter(self, i: int) -> char {
        if i == 0 {
            digit(self.year as int, 1000)
        } else if i == 1 {
            digit(self.year as int, 100)
        } else if i == 2 {
            digit(self.year as int, 10)
        } else if i == 3 {
            digit(self.year as int, 1)
        } else if i == 4 {
            '-'
        } else if i == 5 {
            digit(self.month as int, 10)
        } else if i == 6 {
            digit(self.month as int, 1)
        } else if i == 7 {
            '-'
        } else if i == 8 {
            digit(self.day as int, 10)
        } else if i == 9 {
            digit(self.day as int, 1)
        } else if i == 10 {
            '_'
        } else if i == 11 {
            digit(self.hour as int, 10)
        } else if i == 12 {
            digit(self.hour as int, 1)
        } else if i == 13 {
            '-'
        } else if i == 14 {
            digit(self.minute as int, 10)
        } else if i == 15 {
            digit(self.minute as int, 1)
        } else if i == 16 {
            '-'
        } else if i == 17 {
            digit(self.shown_second(), 10)
        } else {
            digit(self.shown_second(), 1)
        }
    }

    /// The stamp, character by character.
    spec fn letters(self) -> Seq<char> {
        Seq::new(19, |i: int| self.letter(i))
    }
}

proof fn lemma_letters(t: LocalTime)
    requires
        t.exists_on_the_calendar(),
        0 <= t.year <= 9999,
    ensures
        t.stamp() == t.letters(),
{
    lemma_four_digits(t.year as nat);
    lemma_two_digits(t.month as nat);
    lemma_two_digits(t.day as nat);
    lemma_two_digits(t.hour as nat);
    lemma_two_digits(t.minute as nat);
    lemma_two_digits(t.shown_second() as nat);
    assert(t.stamp() =~= t.letters());
}

/// `a` comes before `b` where texts are sorted by their characters: they agree up to some place, and
/// there `a` has the smaller character.
pub open spec fn sorts_before(a: Seq<char>, b: Seq<char>) -> bool {
    exists|i: int|
        0 <= i < a.len() && i < b.len() && a[i] < b[i] && a.subrange(0, i) == #[trigger] b.subrange(
            0,
            i,
        )
}

/// The place where two numbers of two digits differ first.
spec fn first_of_two(x: int, y: int) -> int {
    if digit(x, 10) != digit(y, 10) {
        0
    } else {
        1
    }
}

/// The place where two numbers of four digits differ first.
spec fn first_of_four(x: int, y: int) -> int {
    if digit(x, 1000) != digit(y, 1000) {
        0
    } else if digit(x, 100) != digit(y, 100) {
        1
    } else {
        2 + first_of_two(x, y)
    }
}

proof fn lemma_two_in_order(x: int, y: int)
    requires
        0 <= x < y < 100,
    ensures
        first_of_two(x, y) == 0 ==> digit(x, 10) < digit(y, 10),
        first_of_two(x, y) == 1 ==> digit(x, 10) == digit(y, 10) && digit(x, 1) < digit(y, 1),
{
    reveal(digit);
}

proof fn lemma_four_in_order(x: int, y: int)
    requires
        0 <= x < y < 10000,
    ensures
        first_of_four(x, y) == 0 ==> digit(x, 1000) < digit(y, 1000),
        first_of_four(x, y) == 1 ==> digit(x, 1000) == digit(y, 1000) && digit(x, 100) < digit(
            y,
            100,
        ),
        first_of_four(x, y) == 2 ==> digit(x, 1000) == digit(y, 1000) && digit(x, 100) == digit(
            y,
            100,
        ) && digit(x, 10) < digit(y, 10),
        first_of_four(x, y) == 3 ==> digit(x, 1000) == digit(y, 1000) && digit(x, 100) == digit(
            y,
            100,
        ) && digit(x, 10) == digit(y, 10) && digit(x, 1) < digit(y, 1),
{
    reveal(digit);
    assert(x / 1000 % 10 == x / 1000 && y / 1000 % 10 == y / 1000);
}

/// Two texts that agree up to `i` and are in order there.
proof fn lemma_sorts_before(x: Seq<char>, y: Seq<char>, i: int)
    requires
        0 <= i < x.len(),
        i < y.len(),
        x[i] < y[i],
        forall|j: int| 0 <= j < i ==> x[j] == y[j],
    ensures
        sorts_before(x, y),
        x != y,
{
    assert(x.subrange(0, i) =~= y.subrange(0, i));
}

/// The files of a session sort chronologically, and two exports in different seconds never share a
/// name: of two moments in years of four digits, the earlier second has the earlier stamp.
pub proof fn law_stamps_sort_chronologically(a: LocalTime, b: LocalTime)
    requires
        a.exists_on_the_calendar(),
        b.exists_on_the_calendar(),
        0 <= a.year <= 9999,
        0 <= b.year <= 9999,
        a.before(b),
    ensures
        sorts_before(a.stamp(), b.stamp()),
        a.stamp() != b.stamp(),
{
    lemma_letters(a);
    lemma_letters(b);
    let x = a.letters();
    let y = b.letters();
    if a.year != b.year {
        lemma_four_in_order(a.year as int, b.year as int);
        lemma_sorts_before(x, y, first_of_four(a.year as int, b.year as int));
    } else if a.month != b.month {
        lemma_two_in_order(a.month as int, b.month as int);
        lemma_sorts_before(x, y, 5 + first_of_two(a.month as int, b.month as int));
    } else if a.day != b.day {
        lemma_two_in_order(a.day as int, b.day as int);
        lemma_sorts_before(x, y, 8 + first_of_two(a.day as int, b.day as int));
    } else if a.hour != b.hour {
        lemma_two_in_order(a.hour as int, b.hour as int);
        lemma_sorts_before(x, y, 11 + first_of_two(a.hour as int, b.hour as int));
    } else if a.minute != b.minute {
        lemma_two_in_order(a.minute as int, b.minute as int);
        lemma_sorts_before(x, y, 14 + first_of_two(a.minute as int, b.minute as int));
    } else {
        lemma_two_in_order(a.shown_second(), b.shown_second());
        lemma_sorts_before(x, y, 17 + first_of_two(a.shown_second(), b.shown_second()));
    }
}

/// An import says what is wrong, and of several things the first on the way: that the file is no MIDI
/// file, that it is not ours, that its document is no text, that the document cannot be parsed, that
/// its version is not one of 1 to 3, or that what it describes is no session. It succeeds only where
/// none of these is, and then with the session that the document describes.
pub proof fn law_what_an_import_refuses(bytes: Seq<u8>, parsed: Result<ProjectModel, Seq<char>>)
    ensures
        found_in_file(bytes) matches Err(e) ==> imported(bytes, parsed) == Err::<Session, ImportFault>(
            ImportFault::Midi(e),
        ),
        found_in_file(bytes) matches Ok(None) ==> imported(bytes, parsed) == Err::<
            Session,
            ImportFault,
        >(ImportFault::NotOurs),
        found_in_file(bytes) matches Ok(Some(document)) ==> {
            &&& !valid_utf8(document) ==> imported(bytes, parsed) == Err::<Session, ImportFault>(
                ImportFault::Project(ProjectFault::Encoding),
            )
            &&& valid_utf8(document) ==> {
                &&& parsed matches Err(text) ==> imported(bytes, parsed) == Err::<
                    Session,
                    ImportFault,
                >(ImportFault::Project(ProjectFault::Malformed(text)))
                &&& parsed matches Ok(p) ==> {
                    &&& !(1 <= p.version <= 3) ==> imported(bytes, parsed) == Err::<
                        Session,
                        ImportFault,
                    >(ImportFault::Project(ProjectFault::UnsupportedVersion(p.version)))
                    &&& 1 <= p.version <= 3 ==> (session_of(p) matches Ok(session) ==> imported(
                        bytes,
                        parsed,
                    ) == Ok::<Session, ImportFault>(session))
                    &&& 1 <= p.version <= 3 ==> (session_of(p) matches Err(f) ==> imported(
                        bytes,
                        parsed,
                    ) == Err::<Session, ImportFault>(ImportFault::Project(f)))
                }
            }
        },
{
}

/// An export is a file of one track, named for a progression and on the first channel, that carries the
/// document it is given.
pub proof fn law_an_export_is_one_track(document: Seq<u8>)
    ensures
        export_options(document).layout == (TrackLayout::Single { channel: 0 }),
        export_options(document).track_name == "Progression"@,
        export_options(document).document == Some(document),
{
}

} // verus!
