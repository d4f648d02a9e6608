//! The course of a run.
//!
//! A run alternates between work that is done outside, such as loading the model or
//! reading a line, and deciding what comes next, which is done here.

use vstd::prelude::*;

use crate::chars::{contents, join, joined};
use crate::cli::options::{fault_of, Options, UsageError};
use crate::cli::{INTERRUPTED, OK, USAGE};

verus! {

/// What a run is waiting for.
#[derive(Debug, Clone, Copy, PartialEq, Eq, Structural)]
pub enum Phase {
    /// To be started.
    Start,
    /// The output devices to be listed.
    Devices,
    /// The files that the model needs to be in place.
    Files,
    /// The model to be loaded.
    Model,
    /// The voices to be listed.
    Voices,
    /// A line to be read.
    Line,
    /// What became ready with a line to be spoken.
    SpokenLine,
    /// What became ready of the text given as arguments to be spoken.
    SpokenText,
    /// What was held back to be spoken.
    SpokenRest,
    /// Nothing: the run is over.
    Over,
}

/// What a run was waiting for.
#[derive(Debug)]
pub enum Event {
    /// It is started.
    Begin,
    /// The output devices, or the voices, are listed.
    Listed,
    /// The files are in place; `interrupted` says whether to stop all the same.
    FilesReady { interrupted: bool },
    /// The model is loaded; it has the voice asked for, or not, and standard input is
    /// a terminal, or not.
    Loaded { has_voice: bool, terminal: bool },
    /// A line was read, or the end of the input reached.
    Read(Option<String>),
    /// Chunks were spoken, or the speaking of them `interrupted`.
    Spoken { interrupted: bool },
}

/// The contents of an [`Event`].
pub enum Happening {
    Begin,
    Listed,
    FilesReady { interrupted: bool },
    Loaded { has_voice: bool, terminal: bool },
    Read(Option<Seq<char>>),
    Spoken { interrupted: bool },
}

impl View for Event {
    type V = Happening;

    open spec fn view(&self) -> Happening {
        match self {
            Event::Begin => Happening::Begin,
            Event::Listed => Happening::Listed,
            Event::FilesReady { interrupted } => Happening::FilesReady {
                interrupted: *interrupted,
            },
            Event::Loaded { has_voice, terminal } => Happening::Loaded {
                has_voice: *has_voice,
                terminal: *terminal,
            },
            Event::Read(Some(line)) => Happening::Read(Some(line@)),
            Event::Read(None) => Happening::Read(None),
            Event::Spoken { interrupted } => Happening::Spoken { interrupted: *interrupted },
        }
    }
}

/// What is to be done next.
#[derive(Debug)]
pub enum Action {
    /// List the output devices.
    ListDevices,
    /// Say what is wrong with the options, and exit.
    Refuse(UsageError),
    /// Put the files that the model needs in place.
    PrepareFiles,
    /// Load the model.
    LoadModel,
    /// List the voices.
    ListVoices,
    /// Read a line.
    ReadLine,
    /// Feed this text to the chunker, and speak what becomes ready.
    Push(String),
    /// Speak what the chunker held back.
    Finish,
    /// Let the speaker finish, and exit with what it comes to.
    End,
    /// Exit with this code.
    Exit(i32),
}

/// The contents of an [`Action`].
pub enum Deed {
    ListDevices,
    Refuse(UsageError),
    PrepareFiles,
    LoadModel,
    ListVoices,
    ReadLine,
    Push(Seq<char>),
    Finish,
    End,
    Exit(i32),
}

impl View for Action {
    type V = Deed;

    open spec fn view(&self) -> Deed {
        match self {
            Action::ListDevices => Deed::ListDevices,
            Action::Refuse(e) => Deed::Refuse(*e),
            Action::PrepareFiles => Deed::PrepareFiles,
            Action::LoadModel => Deed::LoadModel,
            Action::ListVoices => Deed::ListVoices,
            Action::ReadLine => Deed::ReadLine,
            Action::Push(text) => Deed::Push(text@),
            Action::Finish => Deed::Finish,
            Action::End => Deed::End,
            Action::Exit(code) => Deed::Exit(*code),
        }
    }
}

impl Deed {
    /// The code to exit with, where the run exits with one at once.
    pub open spec fn exit_code(self) -> Option<i32> {
        match self {
            Deed::Refuse(_) => Some(USAGE),
            Deed::Exit(code) => Some(code),
            _ => None,
        }
    }
}

impl Action {
    /// The code to exit with, where the run exits with one at once: refused options are
    /// an error of usage.
    pub fn exit_code(&self) -> (r: Option<i32>)
        ensures
            r == self@.exit_code(),
    {
        match self {
            Action::Refuse(_) => Some(USAGE),
            Action::Exit(code) => Some(*code),
            _ => None,
        }
    }
}

/// Whether `event` is what a run in `phase` waits for.
pub open spec fn awaited(phase: Phase, event: Happening) -> bool {
    match event {
        Happening::Begin => phase == Phase::Start,
        Happening::Listed => phase == Phase::Devices || phase == Phase::Voices,
        Happening::FilesReady { .. } => phase == Phase::Files,
        Happening::Loaded { .. } => phase == Phase::Model,
        Happening::Read(_) => phase == Phase::Line,
        Happening::Spoken { .. } => phase == Phase::SpokenLine || phase == Phase::SpokenText
            || phase == Phase::SpokenRest,
    }
}

/// How a run goes on. Listing devices comes before anything else, and needs no valid
/// options; the model is only loaded for options that are in order; a line is spoken
/// before the next one is read; and what was held back is spoken at the end, unless
/// the run was interrupted.
pub open spec fn course(options: Options, phase: Phase, event: Happening) -> (Phase, Deed) {
    match event {
        Happening::Begin => if options.list_devices {
            (Phase::Devices, Deed::ListDevices)
        } else {
            match fault_of(options) {
                Some(e) => (Phase::Over, Deed::Refuse(e)),
                None => (Phase::Files, Deed::PrepareFiles),
            }
        },
        Happening::Listed => (Phase::Over, Deed::Exit(OK)),
        Happening::FilesReady { interrupted } => if interrupted {
            (Phase::Over, Deed::Exit(INTERRUPTED))
        } else {
            (Phase::Model, Deed::LoadModel)
        },
        Happening::Loaded { has_voice, terminal } => if options.list_voices {
            (Phase::Voices, Deed::ListVoices)
        } else if !has_voice {
            (Phase::Over, Deed::Refuse(UsageError::UnknownVoice))
        } else if options.text@.len() > 0 {
            (Phase::SpokenText, Deed::Push(join(contents(options.text@), seq![' '])))
        } else if terminal {
            (Phase::Over, Deed::Refuse(UsageError::NoText))
        } else {
            (Phase::Line, Deed::ReadLine)
        },
        Happening::Read(Some(line)) => (Phase::SpokenLine, Deed::Push(line.push('\n'))),
        Happening::Read(None) => (Phase::SpokenRest, Deed::Finish),
        Happening::Spoken { interrupted } => if interrupted || phase == Phase::SpokenRest {
            (Phase::Over, Deed::End)
        } else if phase == Phase::SpokenLine {
            (Phase::Line, Deed::ReadLine)
        } else {
            (Phase::SpokenRest, Deed::Finish)
        },
    }
}

/// A run under way.
pub struct Run {
    options: Options,
    phase: Phase,
}

impl Run {
    /// The options it was started with.
    pub closed spec fn options(&self) -> Options {
        self.options
    }

    /// What it is waiting for.
    pub closed spec fn phase(&self) -> Phase {
        self.phase
    }

    /// A run that is not started yet.
    pub fn new(options: Options) -> (r: Self)
        ensures
            r.options() == options,
            r.phase() == Phase::Start,
    {
        Run { options, phase: Phase::Start }
    }

    /// Whether the run waits for what has happened.
    pub fn awaits(&self, event: &Event) -> (r: bool)
        ensures
            r == awaited(self.phase(), event@),
    {
        match event {
            Event::Begin => self.phase == Phase::Start,
            Event::Listed => self.phase == Phase::Devices || self.phase == Phase::Voices,
            Event::FilesReady { .. } => self.phase == Phase::Files,
            Event::Loaded { .. } => self.phase == Phase::Model,
            Event::Read(_) => self.phase == Phase::Line,
            Event::Spoken { .. } => self.phase == Phase::SpokenLine || self.phase
                == Phase::SpokenText || self.phase == Phase::SpokenRest,
        }
    }

    /// What is to be done next, now that `event` has happened.
    pub fn next(&mut self, event: Event) -> (r: Action)
        requires
            awaited(old(self).phase(), event@),
        ensures
            final(self).options() == old(self).options(),
            (final(self).phase(), r@) == course(old(self).options(), old(self).phase(), event@),
    {
        match event {
            Event::Begin => {
                if self.options.list_devices {
                    self.phase = Phase::Devices;
                    return Action::ListDevices;
                }
                match self.options.fault() {
                    Some(e) => {
                        self.phase = Phase::Over;
                        Action::Refuse(e)
                    },
                    None => {
                        self.phase = Phase::Files;
                        Action::PrepareFiles
                    },
                }
            },
            Event::Listed => {
                self.phase = Phase::Over;
                Action::Exit(OK)
            },
            Event::FilesReady { interrupted } => {
                if interrupted {
                    self.phase = Phase::Over;
                    Action::Exit(INTERRUPTED)
                } else {
                    self.phase = Phase::Model;
                    Action::LoadModel
                }
            },
            Event::Loaded { has_voice, terminal } => {
                if self.options.list_voices {
                    self.phase = Phase::Voices;
                    Action::ListVoices
                } else if !has_voice {
                    self.phase = Phase::Over;
                    Action::Refuse(UsageError::UnknownVoice)
                } else if self.options.text.len() > 0 {
                    proof {
                        reveal_strlit(" ");
                        assert(" "@ =~= seq![' ']);
                    }
                    self.phase = Phase::SpokenText;
                    Action::Push(joined(&self.options.text, " "))
                } else if terminal {
                    self.phase = Phase::Over;
                    Action::Refuse(UsageError::NoText)
                } else {
                    self.phase = Phase::Line;
                    Action::ReadLine
                }
            },
            Event::Read(Some(line)) => {
                let mut text = line;
                text.push('\n');
                self.phase = Phase::SpokenLine;
                Action::Push(text)
            },
            Event::Read(None) => {
                self.phase = Phase::SpokenRest;
                Action::Finish
            },
            Event::Spoken { interrupted } => {
                if interrupted || self.phase == Phase::SpokenRest {
                    self.phase = Phase::Over;
                    Action::End
                } else if self.phase == Phase::SpokenLine {
                    self.phase = Phase::Line;
                    Action::ReadLine
                } else {
                    self.phase = Phase::SpokenRest;
                    Action::Finish
                }
            },
        }
    }
}

/// A run whose options are refused does nothing else: no file is fetched, no model
/// loaded, and nothing spoken.
pub proof fn refused_options_end_the_run(options: Options)
    requires
        !options.list_devices,
        fault_of(options) is Some,
    ensures
        course(options, Phase::Start, Happening::Begin) == (
            Phase::Over,
            Deed::Refuse(fault_of(options)->Some_0),
        ),
        course(options, Phase::Start, Happening::Begin).1.exit_code() == Some(USAGE),
        forall|event: Happening| !#[trigger] awaited(Phase::Over, event),
{
}

/// An interrupt ends the run: nothing more is read or spoken.
pub proof fn an_interrupt_ends_the_run(options: Options, phase: Phase)
    requires
        awaited(phase, Happening::Spoken { interrupted: true }),
    ensures
        course(options, phase, Happening::Spoken { interrupted: true }) == (
            Phase::Over,
            Deed::End,
        ),
{
}

/// Where a run is over, it says how to exit; where it is not, something is awaited.
pub proof fn a_run_is_over_only_when_it_exits(options: Options, phase: Phase, event: Happening)
    requires
        awaited(phase, event),
    ensures
        ({
            let (after, deed) = course(options, phase, event);
            after == Phase::Over <==> deed is Refuse || deed is End || deed is Exit
        }),
{
}

/// What a run does as `events` happen one after the other, from `phase` on, and what it
/// waits for then.
pub open spec fn played_out(options: Options, phase: Phase, events: Seq<Happening>) -> (
    Phase,
    Seq<Deed>,
)
    decreases events.len(),
{
    if events.len() == 0 {
        (phase, Seq::empty())
    } else {
        let (before, deeds) = played_out(options, phase, events.drop_last());
        let (after, deed) = course(options, before, events.last());
        (after, deeds.push(deed))
    }
}

/// What happens while lines are read and spoken without an interrupt.
pub open spec fn lines_happen(lines: Seq<Seq<char>>) -> Seq<Happening> {
    Seq::new(
        2 * lines.len(),
        |i: int|
            if i % 2 == 0 {
                Happening::Read(Some(lines[i / 2]))
            } else {
                Happening::Spoken { interrupted: false }
            },
    )
}

/// Whether the `k`th of these pairs of deeds is to feed `line` to the chunker, with a
/// newline behind it, and to read the next one.
pub open spec fn is_spoken_line(deeds: Seq<Deed>, k: int, line: Seq<char>) -> bool {
    &&& deeds[2 * k] is Push
    &&& deeds[2 * k]->Push_0.len() == line.len() + 1
    &&& deeds[2 * k]->Push_0.last() == '\n'
    &&& deeds[2 * k]->Push_0.drop_last() == line
    &&& deeds[2 * k + 1] == Deed::ReadLine
}

/// Every line that is read is fed to the chunker with a newline behind it, whatever it
/// holds, and once it is spoken the next one is read: the texts that are fed are the lines
/// of the input, all of them and in order.
pub proof fn every_line_is_spoken_in_turn(options: Options, lines: Seq<Seq<char>>)
    ensures
        ({
            let (after, deeds) = played_out(options, Phase::Line, lines_happen(lines));
            &&& after == Phase::Line
            &&& deeds.len() == 2 * lines.len()
            &&& forall|k: int|
                0 <= k < lines.len() ==> is_spoken_line(deeds, k, #[trigger] lines[k])
        }),
    decreases lines.len(),
{
    let events = lines_happen(lines);
    if lines.len() > 0 {
        let less = lines.drop_last();
        let n = less.len() as int;
        every_line_is_spoken_in_turn(options, less);
        let one = events.drop_last();
        assert(one.drop_last() =~= lines_happen(less));
        assert(one.last() == Happening::Read(Some(lines[n])));
        assert(events.last() == (Happening::Spoken { interrupted: false }));
        let (waiting, before) = played_out(options, Phase::Line, lines_happen(less));
        let (after, deeds) = played_out(options, Phase::Line, events);
        let (between, more) = played_out(options, Phase::Line, one);
        assert(waiting == Phase::Line && before.len() == 2 * n);
        assert(between == Phase::SpokenLine);
        assert(more == before.push(Deed::Push(lines[n].push('\n'))));
        assert(after == Phase::Line);
        assert(deeds == more.push(Deed::ReadLine));
        assert(lines[n].push('\n').drop_last() =~= lines[n]);
        assert forall|k: int| 0 <= k < lines.len() implies is_spoken_line(
            deeds,
            k,
            #[trigger] lines[k],
        ) by {
            if k < n {
                assert(less[k] == lines[k]);
                assert(is_spoken_line(before, k, less[k]));
                assert(deeds[2 * k] == before[2 * k]);
                assert(deeds[2 * k + 1] == before[2 * k + 1]);
            }
        }
    } else {
        assert(events.len() == 0);
    }
}

/// What was held back is spoken at the end of the input and nowhere else, and then the run
/// ends.
pub proof fn the_rest_is_spoken_at_the_end_of_the_input(options: Options, interrupted: bool)
    ensures
        course(options, Phase::Line, Happening::Read(None)) == (Phase::SpokenRest, Deed::Finish),
        course(options, Phase::SpokenRest, Happening::Spoken { interrupted }) == (
            Phase::Over,
            Deed::End,
        ),
        forall|phase: Phase, event: Happening|
            awaited(phase, event) && (#[trigger] course(options, phase, event)).1 == Deed::Finish
                ==> event == Happening::Read(None) || phase == Phase::SpokenText,
{
}

/// How a run that reads its text starts: with options that are in order, nothing but
/// putting the files in place and loading the model comes before the first line is read.
pub proof fn reading_starts_once_the_model_is_loaded(options: Options)
    requires
        !options.list_devices,
        !options.list_voices,
        fault_of(options) is None,
        options.text@.len() == 0,
    ensures
        course(options, Phase::Start, Happening::Begin) == (Phase::Files, Deed::PrepareFiles),
        course(options, Phase::Files, Happening::FilesReady { interrupted: false }) == (
            Phase::Model,
            Deed::LoadModel,
        ),
        course(
            options,
            Phase::Model,
            Happening::Loaded { has_voice: true, terminal: false },
        ) == (Phase::Line, Deed::ReadLine),
        course(
            options,
            Phase::Model,
            Happening::Loaded { has_voice: true, terminal: true },
        ) == (Phase::Over, Deed::Refuse(UsageError::NoText)),
{
}

/// Text that is given as arguments is fed to the chunker as it stands, the arguments with a
/// space between each two of them, and what is held back of it follows at once. Standard
/// input is not read, be it a terminal or not.
pub proof fn arguments_are_spoken_instead(options: Options, terminal: bool)
    requires
        !options.list_voices,
        options.text@.len() > 0,
    ensures
        ({
            let (after, deed) = course(
                options,
                Phase::Model,
                Happening::Loaded { has_voice: true, terminal },
            );
            &&& after == Phase::SpokenText
            &&& deed matches Deed::Push(text) && text == join(contents(options.text@), seq![' '])
        }),
        course(options, Phase::SpokenText, Happening::Spoken { interrupted: false }) == (
            Phase::SpokenRest,
            Deed::Finish,
        ),
        forall|phase: Phase, event: Happening|
            awaited(phase, event) && phase != Phase::SpokenLine ==> (
            #[trigger] course(options, phase, event)).1 != Deed::ReadLine,
{
}

/// Listing comes instead of speaking: the devices before anything else, whatever the other
/// options are, and the voices once the model is loaded, whatever voice was asked for. The
/// run ends well then.
pub proof fn listing_comes_instead_of_speaking(options: Options, has_voice: bool, terminal: bool)
    ensures
        options.list_devices ==> course(options, Phase::Start, Happening::Begin) == (
            Phase::Devices,
            Deed::ListDevices,
        ),
        options.list_voices ==> course(
            options,
            Phase::Model,
            Happening::Loaded { has_voice, terminal },
        ) == (Phase::Voices, Deed::ListVoices),
        !options.list_voices && !has_voice ==> course(
            options,
            Phase::Model,
            Happening::Loaded { has_voice, terminal },
        ) == (Phase::Over, Deed::Refuse(UsageError::UnknownVoice)),
        course(options, Phase::Devices, Happening::Listed) == (Phase::Over, Deed::Exit(0)),
        course(options, Phase::Voices, Happening::Listed) == (Phase::Over, Deed::Exit(0)),
        course(options, Phase::Files, Happening::FilesReady { interrupted: true }) == (
            Phase::Over,
            Deed::Exit(130),
        ),
{
}

/// The code of a run that exits at once is the one that was decided on, and two for options
/// that are refused.
pub proof fn exit_codes_are_told(error: UsageError, code: i32)
    ensures
        Deed::Refuse(error).exit_code() == Some(2i32),
        Deed::Exit(code).exit_code() == Some(code),
        forall|deed: Deed|
            !(deed is Refuse) && !(deed is Exit) ==> (#[trigger] deed.exit_code()) is None,
{
}

/// A run waits for something until it is over, and only for what it has asked to be done.
pub proof fn a_run_waits_for_what_it_asked_for(options: Options, phase: Phase, event: Happening)
    requires
        awaited(phase, event),
    ensures
        ({
            let (after, deed) = course(options, phase, event);
            forall|next: Happening| #[trigger]
                awaited(after, next) <==> match deed {
                    Deed::ListDevices => next == Happening::Listed,
                    Deed::ListVoices => next == Happening::Listed,
                    Deed::PrepareFiles => next is FilesReady,
                    Deed::LoadModel => next is Loaded,
                    Deed::ReadLine => next is Read,
                    Deed::Push(_) => next is Spoken,
                    Deed::Finish => next is Spoken,
                    _ => false,
                }
        }),
{
}

/// What happens is taken as it is, and what is to be done is told as it is: a line with all
/// that is in it, and an error with its code.
pub proof fn happenings_are_taken_as_they_are(
    text: String,
    interrupted: bool,
    has_voice: bool,
    terminal: bool,
    e: UsageError,
    code: i32,
)
    ensures
        Event::Begin@ == Happening::Begin,
        Event::Listed@ == Happening::Listed,
        (Event::FilesReady { interrupted })@ == (Happening::FilesReady { interrupted }),
        (Event::Loaded { has_voice, terminal })@ == (Happening::Loaded { has_voice, terminal }),
        Event::Read(Some(text))@ == Happening::Read(Some(text@)),
        Event::Read(None)@ == Happening::Read(None),
        (Event::Spoken { interrupted })@ == (Happening::Spoken { interrupted }),
        Action::ListDevices@ == Deed::ListDevices,
        Action::Refuse(e)@ == Deed::Refuse(e),
        Action::PrepareFiles@ == Deed::PrepareFiles,
        Action::LoadModel@ == Deed::LoadModel,
        Action::ListVoices@ == Deed::ListVoices,
        Action::ReadLine@ == Deed::ReadLine,
        Action::Push(text)@ == Deed::Push(text@),
        Action::Finish@ == Deed::Finish,
        Action::End@ == Deed::End,
        Action::Exit(code)@ == Deed::Exit(code),
{
}

} // verus!
