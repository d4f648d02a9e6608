//! Audio sinks: what each of them writes, and when.

use vstd::prelude::*;

use crate::chars::{lowercase, nchars, quote, quoted, to_chars, to_lowercase};
use crate::numbers::{decimal, parse_number, parsed, to_decimal};

pub mod playback;
pub mod wav;

verus! {

/// Where audio goes.
#[derive(Debug, Clone, Copy, PartialEq, Eq, Structural)]
pub enum SinkKind {
    Speakers,
    Stdout,
    File,
}

/// Where `output` sends audio: to the speakers where there is none, to stdout for
/// a dash, and else to the file of that name.
pub open spec fn kind_of(output: Option<Seq<char>>) -> SinkKind {
    match output {
        None => SinkKind::Speakers,
        Some(name) => if name == seq!['-'] {
            SinkKind::Stdout
        } else {
            SinkKind::File
        },
    }
}

/// Where `output` sends audio.
pub fn sink_kind(output: Option<&str>) -> (r: SinkKind)
    ensures
        r == kind_of(match output {
            Some(name) => Some(name@),
            None => None,
        }),
{
    match output {
        None => SinkKind::Speakers,
        Some(name) => {
            if nchars(name) == 1 && name.get_char(0) == '-' {
                assert(name@ =~= seq!['-']);
                SinkKind::Stdout
            } else {
                assert(name@ != seq!['-']) by {
                    assert(seq!['-'].len() == 1 && seq!['-'][0] == '-');
                }
                SinkKind::File
            }
        },
    }
}

/// Whether `s` is "wav", in capitals or not.
pub open spec fn is_wav(s: Seq<char>) -> bool {
    &&& s.len() == 3
    &&& s[0] == 'w' || s[0] == 'W'
    &&& s[1] == 'a' || s[1] == 'A'
    &&& s[2] == 'v' || s[2] == 'V'
}

/// What is said of a file that is not to be a WAV one.
pub open spec fn not_wav(path: Seq<char>) -> Seq<char> {
    "only WAV output is supported, but "@ + path + " was requested"@
}

/// Refuses a file whose name does not end in ".wav"; `path` is what it is called in
/// the message.
pub fn check_wav(extension: Option<&str>, path: &str) -> (r: Result<(), String>)
    ensures
        match r {
            Ok(_) => extension matches Some(e) && is_wav(e@),
            Err(message) => !(extension matches Some(e) && is_wav(e@)) && message@ == not_wav(
                path@,
            ),
        },
{
    if let Some(e) = extension {
        let s = to_chars(e);
        if s.len() == 3 && (s[0] == 'w' || s[0] == 'W') && (s[1] == 'a' || s[1] == 'A') && (s[2]
            == 'v' || s[2] == 'V') {
            return Ok(());
        }
    }
    let mut message = "only WAV output is supported, but ".to_owned();
    message.append(path);
    message.append(" was requested");
    Err(message)
}

/// Whether `part` occurs in `s` at `i`.
pub open spec fn occurs_at(s: Seq<char>, part: Seq<char>, i: int) -> bool {
    0 <= i && i + part.len() <= s.len() && s.subrange(i, i + part.len()) == part
}

/// Whether `part` occurs in `s`.
pub open spec fn occurs_in(s: Seq<char>, part: Seq<char>) -> bool {
    exists|i: int| #[trigger] occurs_at(s, part, i)
}

/// Whether `part` occurs in `s`.
pub fn has_part(s: &[char], part: &[char]) -> (r: bool)
    ensures
        r == occurs_in(s@, part@),
{
    let len = s.len();
    let size = part.len();
    if size > len {
        return false;
    }
    let mut i: usize = 0;
    while i <= len - size
        invariant
            size <= len,
            len == s@.len(),
            size == part@.len(),
            i <= len - size + 1,
            forall|k: int| 0 <= k < i ==> !#[trigger] occurs_at(s@, part@, k),
        decreases len - size + 1 - i,
    {
        let mut j: usize = 0;
        while j < size && s[i + j] == part[j]
            invariant
                size <= len,
                len == s@.len(),
                size == part@.len(),
                i <= len - size,
                j <= size,
                forall|k: int| 0 <= k < j ==> s@[i + k] == #[trigger] part@[k],
            decreases size - j,
        {
            j += 1;
        }
        if j == size {
            assert(s@.subrange(i as int, i + size) =~= part@);
            assert(occurs_at(s@, part@, i as int));
            return true;
        }
        assert(!occurs_at(s@, part@, i as int)) by {
            assert(s@.subrange(i as int, i + size)[j as int] == s@[i + j]);
        }
        if i == len - size {
            return false;
        }
        i += 1;
    }
    false
}

/// Why there is no output device.
#[derive(Debug, Clone, Copy, PartialEq, Eq, Structural)]
pub enum DeviceError {
    /// There is none with this index.
    NoIndex(usize),
    /// There is none whose name matches.
    NoMatch,
}

impl DeviceError {
    /// What the user, who asked for `spec_text`, is told.
    pub open spec fn text_of(self, spec_text: Seq<char>) -> Seq<char> {
        match self {
            DeviceError::NoIndex(index) => "no output device with index "@ + decimal(index as nat),
            DeviceError::NoMatch => "no output device matching "@ + quoted(spec_text),
        }
    }

    /// What the user, who asked for `spec_text`, is told.
    pub fn message(&self, spec_text: &str) -> (r: String)
        ensures
            r@ == self.text_of(spec_text@),
    {
        match self {
            DeviceError::NoIndex(index) => {
                let mut text = "no output device with index ".to_owned();
                text.append(&to_decimal(*index as u64));
                text
            },
            DeviceError::NoMatch => {
                let mut text = "no output device matching ".to_owned();
                text.append(&quote(spec_text));
                text
            },
        }
    }
}

/// Whether the name of a device matches, whatever its case.
pub open spec fn name_matches(name: Seq<char>, spec_text: Seq<char>) -> bool {
    occurs_in(lowercase(name), lowercase(spec_text))
}

/// The device that `spec_text` selects: a number selects the one with that index,
/// anything else the first one whose name it is part of.
pub open spec fn selects(
    names: Seq<String>,
    spec_text: Seq<char>,
    r: Result<usize, DeviceError>,
) -> bool {
    match parsed(spec_text, usize::MAX as nat) {
        Some(n) => r == if n < names.len() {
            Ok::<usize, DeviceError>(n as usize)
        } else {
            Err(DeviceError::NoIndex(n as usize))
        },
        None => match r {
            Ok(i) => {
                &&& i < names.len()
                &&& name_matches(names[i as int]@, spec_text)
                &&& forall|k: int| 0 <= k < i ==> !name_matches(#[trigger] names[k]@, spec_text)
            },
            Err(e) => {
                &&& e == DeviceError::NoMatch
                &&& forall|k: int|
                    0 <= k < names.len() ==> !name_matches(#[trigger] names[k]@, spec_text)
            },
        },
    }
}

/// The output device that `spec_text`, a name or an index, selects of those with
/// these names.
pub fn find_device(names: &Vec<String>, spec_text: &str) -> (r: Result<usize, DeviceError>)
    ensures
        selects(names@, spec_text@, r),
{
    if let Some(n) = parse_number(spec_text, usize::MAX as u64) {
        let index = n as usize;
        return if index < names.len() {
            Ok(index)
        } else {
            Err(DeviceError::NoIndex(index))
        };
    }
    let lowered = to_chars(&to_lowercase(spec_text));
    let mut i: usize = 0;
    while i < names.len()
        invariant
            i <= names@.len(),
            lowered@ == lowercase(spec_text@),
            parsed(spec_text@, usize::MAX as nat) is None,
            forall|k: int| 0 <= k < i ==> !name_matches(#[trigger] names@[k]@, spec_text@),
        decreases names@.len() - i,
    {
        let name = to_chars(&to_lowercase(&names[i]));
        if has_part(&name, &lowered) {
            return Ok(i);
        }
        i += 1;
    }
    Err(DeviceError::NoMatch)
}

/// One of the configurations that a device supports.
#[derive(Debug, Clone, Copy)]
pub struct ConfigRange {
    /// Whether its samples are floating-point ones.
    pub is_float: bool,
    pub min_rate: u32,
    pub max_rate: u32,
}

impl ConfigRange {
    /// Whether it takes floating-point samples at `rate`.
    pub open spec fn takes(self, rate: u32) -> bool {
        self.is_float && self.min_rate <= rate <= self.max_rate
    }
}

/// The first of a device's configurations that takes floating-point samples at
/// `rate`. Where there is none, the device's default one will have to do.
pub fn output_config(configs: &Vec<ConfigRange>, rate: u32) -> (r: Option<usize>)
    ensures
        match r {
            Some(i) => {
                &&& i < configs@.len()
                &&& configs@[i as int].takes(rate)
                &&& forall|k: int| 0 <= k < i ==> !(#[trigger] configs@[k]).takes(rate)
            },
            None => forall|k: int|
                0 <= k < configs@.len() ==> !(#[trigger] configs@[k]).takes(rate),
        },
{
    let mut i: usize = 0;
    while i < configs.len()
        invariant
            i <= configs@.len(),
            forall|k: int| 0 <= k < i ==> !(#[trigger] configs@[k]).takes(rate),
        decreases configs@.len() - i,
    {
        let c = configs[i];
        if c.is_float && c.min_rate <= rate && rate <= c.max_rate {
            return Some(i);
        }
        i += 1;
    }
    None
}

/// The line that a device has in a list of them: a star for the default one, its
/// index, its name and its sample rate, if it can be had.
pub open spec fn device_text(
    default: Option<Seq<char>>,
    index: nat,
    name: Seq<char>,
    rate: Option<u32>,
) -> Seq<char> {
    (if default == Some(name) {
        "*"@
    } else {
        " "@
    }) + " "@ + decimal(index) + "  "@ + name + "  ("@ + (match rate {
        Some(hz) => decimal(hz as nat) + " Hz"@,
        None => "unavailable"@,
    }) + ")"@
}

/// The line that a device has in a list of them.
pub fn device_line(default: Option<&str>, index: usize, name: &str, rate: Option<u32>) -> (r:
    String)
    ensures
        r@ == device_text(
            match default {
                Some(d) => Some(d@),
                None => None,
            },
            index as nat,
            name@,
            rate,
        ),
{
    let is_default = match default {
        Some(d) => same_text(d, name),
        None => false,
    };
    let mut line = if is_default {
        "*".to_owned()
    } else {
        " ".to_owned()
    };
    line.append(" ");
    line.append(&to_decimal(index as u64));
    line.append("  ");
    line.append(name);
    line.append("  (");
    match rate {
        Some(hz) => {
            let mut text = to_decimal(hz as u64);
            text.append(" Hz");
            line.append(&text);
        },
        None => {
            line.append("unavailable");
        },
    }
    line.append(")");
    line
}

/// Whether two texts are the same.
pub fn same_text(a: &str, b: &str) -> (r: bool)
    ensures
        r == (a@ == b@),
{
    let x = to_chars(a);
    let y = to_chars(b);
    if x.len() != y.len() {
        return false;
    }
    let mut i: usize = 0;
    while i < x.len()
        invariant
            i <= x@.len() == y@.len(),
            x@ == a@,
            y@ == b@,
            forall|k: int| 0 <= k < i ==> x@[k] == #[trigger] y@[k],
        decreases x@.len() - i,
    {
        if x[i] != y[i] {
            return false;
        }
        i += 1;
    }
    assert(x@ =~= y@);
    true
}

/// Audio goes to the speakers where nothing else is asked for, to standard output for a
/// single dash, and to a file for anything else.
pub proof fn the_output_decides_where_audio_goes(name: Seq<char>)
    ensures
        kind_of(None) == SinkKind::Speakers,
        kind_of(Some(name)) == SinkKind::Stdout <==> name.len() == 1 && name[0] == '-',
        kind_of(Some(name)) == SinkKind::File <==> name.len() != 1 || name[0] != '-',
{
    if name.len() == 1 && name[0] == '-' {
        assert(name =~= seq!['-']);
    } else {
        assert(seq!['-'].len() == 1 && seq!['-'][0] == '-');
    }
}

/// A file is taken for a WAV one exactly where its extension is "wav", in letters of either
/// case, of which the small ones come thirty-two after the capital ones.
pub proof fn extensions_match_in_either_case(s: Seq<char>)
    ensures
        is_wav(s) <==> {
            &&& s.len() == 3
            &&& s[0] as int == 'w' as int || s[0] as int + 32 == 'w' as int
            &&& s[1] as int == 'a' as int || s[1] as int + 32 == 'a' as int
            &&& s[2] as int == 'v' as int || s[2] as int + 32 == 'v' as int
        },
{
}

/// A text occurs wherever something may be put before it and after it.
pub proof fn parts_occur_in_the_whole(before: Seq<char>, part: Seq<char>, after: Seq<char>)
    ensures
        occurs_in(before + part + after, part),
{
    let s = before + part + after;
    assert(s.subrange(before.len() as int, (before.len() + part.len()) as int) =~= part);
    assert(occurs_at(s, part, before.len() as int));
}

/// A text that occurs in another is part of it.
pub proof fn what_occurs_is_a_part(s: Seq<char>, part: Seq<char>)
    requires
        occurs_in(s, part),
    ensures
        exists|before: Seq<char>, after: Seq<char>| s == #[trigger] (before + part + after),
{
    let i = choose|i: int| #[trigger] occurs_at(s, part, i);
    assert(s =~= s.take(i) + part + s.skip(i + part.len()));
}

/// A number selects the device with that index, and it is an error if there is none.
pub proof fn numbers_select_by_index(
    names: Seq<String>,
    n: nat,
    r: Result<usize, DeviceError>,
)
    requires
        n <= usize::MAX,
        selects(names, decimal(n), r),
    ensures
        n < names.len() ==> (r matches Ok(i) && i == n),
        n >= names.len() ==> (r matches Err(e) && e == DeviceError::NoIndex(n as usize)),
{
    crate::numbers::decimal_reads_back(n, usize::MAX as nat);
}

/// Anything but a number selects the first device in whose name it occurs, whatever the
/// case of either, and it is an error if there is none.
pub proof fn names_select_the_first_match(
    names: Seq<String>,
    wanted: Seq<char>,
    k: int,
    r: Result<usize, DeviceError>,
)
    requires
        parsed(wanted, usize::MAX as nat) is None,
        selects(names, wanted, r),
        0 <= k <= names.len(),
        k < names.len() ==> occurs_in(lowercase(names[k]@), lowercase(wanted)),
        forall|j: int|
            0 <= j < k ==> !occurs_in(lowercase((#[trigger] names[j])@), lowercase(wanted)),
    ensures
        k < names.len() ==> (r matches Ok(i) && i == k),
        k == names.len() ==> (r matches Err(e) && e == DeviceError::NoMatch),
{
    match r {
        Ok(i) => {
            assert(name_matches(names[i as int]@, wanted));
            if i < k {
                assert(!occurs_in(lowercase(names[i as int]@), lowercase(wanted)));
            }
            if k < i {
                assert(!name_matches(names[k]@, wanted));
            }
        },
        Err(_) => {
            if k < names.len() {
                assert(!name_matches(names[k]@, wanted));
            }
        },
    }
}

/// A configuration takes exactly the rates between its least and its greatest one, both
/// included, and only with floating-point samples.
pub proof fn configurations_take_the_rates_between(config: ConfigRange, rate: u32)
    ensures
        config.takes(rate) ==> config.is_float && config.min_rate <= rate && rate
            <= config.max_rate,
        !config.takes(rate) ==> !config.is_float || rate < config.min_rate || rate
            > config.max_rate,
{
}

/// The line of a device starts with a star exactly where it is the default one, and then
/// holds its index, its name and its rate, in this order.
pub proof fn device_lines_say_what_there_is(
    default: Option<Seq<char>>,
    index: nat,
    name: Seq<char>,
    rate: Option<u32>,
)
    ensures
        ({
            let line = device_text(default, index, name, rate);
            let number = decimal(index);
            let end = match rate {
                Some(hz) => "  ("@ + decimal(hz as nat) + " Hz)"@,
                None => "  (unavailable)"@,
            };
            &&& line[0] == '*' <==> default == Some(name)
            &&& default != Some(name) ==> line[0] == ' '
            &&& line.skip(1) == " "@ + number + "  "@ + name + end
        }),
{
    let line = device_text(default, index, name, rate);
    reveal_strlit("*");
    reveal_strlit(" ");
    reveal_strlit(")");
    reveal_strlit("  (");
    reveal_strlit(" Hz");
    reveal_strlit(" Hz)");
    reveal_strlit("unavailable");
    reveal_strlit("  (unavailable)");
    let head = " "@ + decimal(index) + "  "@ + name;
    match rate {
        Some(hz) => {
            assert(" Hz"@ + ")"@ =~= " Hz)"@);
            assert(line.skip(1) =~= head + ("  ("@ + decimal(hz as nat) + " Hz)"@));
        },
        None => {
            assert("  ("@ + "unavailable"@ + ")"@ =~= "  (unavailable)"@);
            assert(line.skip(1) =~= head + "  (unavailable)"@);
        },
    }
}

} // verus!
