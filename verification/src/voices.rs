//! The voice pack: one style matrix per voice.
//!
//! A voice is an array of style vectors. Its first axis is indexed by token count,
//! not time: a voice's style vector depends on how long the utterance is, which is
//! how the model paces a short phrase differently from a long one.

use vstd::prelude::*;

use crate::chars::{ends_with, has_suffix, substring, to_chars};
use crate::numbers::{decimal, to_decimal};

verus! {

/// Width of a style vector.
pub const STYLE_DIM: usize = 256;

/// The suffix that member names of a voice pack have.
pub const MEMBER_SUFFIX: &'static str = ".npy";

/// Where a text stands relative to another one in the order of their characters.
#[derive(Debug, Clone, Copy, PartialEq, Eq, Structural)]
pub enum Rank {
    Before,
    Same,
    After,
}

/// Whether `a` comes before `b` in the order of their characters.
pub open spec fn precedes(a: Seq<char>, b: Seq<char>) -> bool
    decreases a.len(),
{
    if a.len() == 0 || b.len() == 0 {
        a.len() == 0 && b.len() > 0
    } else {
        a[0] < b[0] || a[0] == b[0] && precedes(a.skip(1), b.skip(1))
    }
}

/// No two texts are without an order, and none comes before itself.
pub proof fn lemma_precedes(a: Seq<char>, b: Seq<char>)
    ensures
        precedes(a, b) || precedes(b, a) || a == b,
        !(precedes(a, b) && precedes(b, a)),
        a == b ==> !precedes(a, b),
    decreases a.len(),
{
    if a.len() > 0 && b.len() > 0 {
        lemma_precedes(a.skip(1), b.skip(1));
        if a[0] == b[0] && a.skip(1) == b.skip(1) {
            assert forall|i: int| 0 <= i < a.len() implies a[i] == b[i] by {
                if i > 0 {
                    assert(a[i] == a.skip(1)[i - 1]);
                    assert(b[i] == b.skip(1)[i - 1]);
                }
            }
            assert(a =~= b);
        }
    } else if a.len() == 0 && b.len() == 0 {
        assert(a =~= b);
    }
}

/// The order of texts carries over.
pub proof fn lemma_precedes_through(a: Seq<char>, b: Seq<char>, c: Seq<char>)
    requires
        precedes(a, b),
        precedes(b, c),
    ensures
        precedes(a, c),
    decreases a.len(),
{
    if a.len() > 0 && a[0] == b[0] && b[0] == c[0] {
        lemma_precedes_through(a.skip(1), b.skip(1), c.skip(1));
    }
}

/// Where `a` stands relative to `b`.
pub fn rank(a: &[char], b: &[char]) -> (r: Rank)
    ensures
        match r {
            Rank::Before => precedes(a@, b@),
            Rank::Same => a@ == b@,
            Rank::After => precedes(b@, a@),
        },
{
    let mut i: usize = 0;
    assert(a@.skip(0) =~= a@ && b@.skip(0) =~= b@);
    while i < a.len() && i < b.len() && a[i] == b[i]
        invariant
            i <= a@.len(),
            i <= b@.len(),
            a@.take(i as int) == b@.take(i as int),
            precedes(a@, b@) == precedes(a@.skip(i as int), b@.skip(i as int)),
            precedes(b@, a@) == precedes(b@.skip(i as int), a@.skip(i as int)),
        decreases a@.len() - i,
    {
        proof {
            assert(a@.take(i + 1) =~= a@.take(i as int).push(a@[i as int]));
            assert(b@.take(i + 1) =~= b@.take(i as int).push(b@[i as int]));
            assert(a@.skip(i as int).skip(1) =~= a@.skip(i + 1));
            assert(b@.skip(i as int).skip(1) =~= b@.skip(i + 1));
        }
        i += 1;
    }
    if i < a.len() && i < b.len() {
        if a[i] < b[i] {
            Rank::Before
        } else {
            Rank::After
        }
    } else if i < b.len() {
        Rank::Before
    } else if i < a.len() {
        Rank::After
    } else {
        assert(a@.take(i as int) =~= a@);
        assert(b@.take(i as int) =~= b@);
        Rank::Same
    }
}

/// The style vectors of a voice: an array of three axes, the last one fastest.
pub struct StyleArray<T> {
    pub rows: usize,
    pub depth: usize,
    pub width: usize,
    pub data: Vec<T>,
}

impl<T> StyleArray<T> {
    /// Whether the data fills the array.
    pub open spec fn wf(self) -> bool {
        self.data@.len() == self.rows * self.depth * self.width
    }

    /// The vector at `row` of the first axis and at the start of the second.
    pub open spec fn vector(self, row: int) -> Seq<T> {
        let start = row * self.depth * self.width;
        self.data@.subrange(start, start + self.width)
    }
}

/// Why a voice has no style vector to give.
#[derive(Debug, Clone, Copy, PartialEq, Eq, Structural)]
pub enum StyleError {
    /// There is no voice of that name.
    UnknownVoice,
    /// The voice's vectors are this wide, and not as wide as the model expects.
    Width(usize),
}

impl StyleError {
    /// What the user is told of the voice `name`.
    pub open spec fn text_of(self, name: Seq<char>) -> Seq<char> {
        match self {
            StyleError::UnknownVoice => "unknown voice "@ + name,
            StyleError::Width(width) => "voice "@ + name + " has style width "@ + decimal(
                width as nat,
            ) + ", expected "@ + decimal(STYLE_DIM as nat),
        }
    }

    /// What the user is told of the voice `name`.
    pub fn message(&self, name: &str) -> (r: String)
        ensures
            r@ == self.text_of(name@),
    {
        match self {
            StyleError::UnknownVoice => {
                let mut text = "unknown voice ".to_owned();
                text.append(name);
                text
            },
            StyleError::Width(width) => {
                let mut text = "voice ".to_owned();
                text.append(name);
                text.append(" has style width ");
                text.append(&to_decimal(*width as u64));
                text.append(", expected ");
                text.append(&to_decimal(STYLE_DIM as u64));
                text
            },
        }
    }
}

/// The voices of a pack, in the order of their names.
pub struct Voices<T> {
    styles: Vec<(String, StyleArray<T>)>,
}

/// A member's name without the suffix.
pub open spec fn voice_name(member: Seq<char>) -> Seq<char> {
    if ends_with(member, MEMBER_SUFFIX@) {
        member.take(member.len() - MEMBER_SUFFIX@.len())
    } else {
        member
    }
}

/// The voices that the members of a pack come to. Of two by one name the later
/// one stands.
pub open spec fn voices_of<T>(members: Seq<(String, StyleArray<T>)>) -> Map<
    Seq<char>,
    StyleArray<T>,
>
    decreases members.len(),
{
    if members.len() == 0 {
        Map::empty()
    } else {
        voices_of(members.drop_last()).insert(voice_name(members.last().0@), members.last().1)
    }
}

/// The style vector of the voice `name` for an utterance of `count` tokens.
pub open spec fn style_of<T>(
    voices: Map<Seq<char>, StyleArray<T>>,
    name: Seq<char>,
    count: int,
) -> Result<Seq<T>, StyleError> {
    if !voices.contains_key(name) {
        Err(StyleError::UnknownVoice)
    } else if voices[name].width != STYLE_DIM {
        Err(StyleError::Width(voices[name].width))
    } else if count < voices[name].rows - 1 {
        Ok(voices[name].vector(count))
    } else {
        Ok(voices[name].vector(voices[name].rows - 1))
    }
}

/// What looking up a style vector came to.
pub open spec fn style_heard<T>(r: Result<Vec<T>, StyleError>) -> Result<Seq<T>, StyleError> {
    match r {
        Ok(style) => Ok(style@),
        Err(e) => Err(e),
    }
}

/// Whether the voice `name`, where there is one and its vectors have the right width, has a
/// vector to give.
pub open spec fn has_vector<T>(voices: Map<Seq<char>, StyleArray<T>>, name: Seq<char>) -> bool {
    voices.contains_key(name) && voices[name].width == STYLE_DIM ==> voices[name].rows > 0
        && voices[name].depth > 0
}

impl<T> View for Voices<T> {
    type V = Map<Seq<char>, StyleArray<T>>;

    closed spec fn view(&self) -> Map<Seq<char>, StyleArray<T>> {
        Map::new(
            |name: Seq<char>| self.has(name, self.styles@.len() as int),
            |name: Seq<char>| self.styles@[self.index_of(name)].1,
        )
    }
}

impl<T> Voices<T> {
    /// Whether one of the first `n` voices has this name.
    spec fn has(&self, name: Seq<char>, n: int) -> bool {
        exists|i: int| 0 <= i < n && #[trigger] self.styles@[i].0@ == name
    }

    /// The place of the voice `name`.
    spec fn index_of(&self, name: Seq<char>) -> int {
        choose|i: int| 0 <= i < self.styles@.len() && #[trigger] self.styles@[i].0@ == name
    }

    /// Whether the voices are in the order of their names, no two by the same one.
    spec fn ordered(&self) -> bool {
        forall|i: int, j: int|
            0 <= i < j < self.styles@.len() ==> precedes(
                #[trigger] self.styles@[i].0@,
                #[trigger] self.styles@[j].0@,
            )
    }

    /// Whether the voices are in order and their data fills their arrays.
    pub closed spec fn wf(&self) -> bool {
        &&& self.ordered()
        &&& forall|i: int| 0 <= i < self.styles@.len() ==> (#[trigger] self.styles@[i]).1.wf()
    }

    /// The voice in a place is the one of its name.
    proof fn lemma_at(&self, i: int)
        requires
            self.ordered(),
            0 <= i < self.styles@.len(),
        ensures
            self@.contains_key(self.styles@[i].0@),
            self@[self.styles@[i].0@] == self.styles@[i].1,
    {
        let name = self.styles@[i].0@;
        assert(self.has(name, self.styles@.len() as int));
        let at = self.index_of(name);
        lemma_precedes(self.styles@[i].0@, self.styles@[at].0@);
        if at < i {
            assert(precedes(self.styles@[at].0@, self.styles@[i].0@));
        } else if i < at {
            assert(precedes(self.styles@[i].0@, self.styles@[at].0@));
        }
    }

    /// The place of the first voice that does not come before `name`, and whether
    /// it is the voice of that name.
    fn find(&self, name: &str) -> (r: (usize, bool))
        requires
            self.ordered(),
        ensures
            r.0 <= self.styles@.len(),
            forall|i: int| 0 <= i < r.0 ==> precedes(#[trigger] self.styles@[i].0@, name@),
            r.1 ==> r.0 < self.styles@.len() && self.styles@[r.0 as int].0@ == name@,
            !r.1 ==> forall|i: int|
                r.0 <= i < self.styles@.len() ==> precedes(name@, #[trigger] self.styles@[i].0@),
            r.1 == self@.contains_key(name@),
    {
        let wanted = to_chars(name);
        let mut i: usize = 0;
        while i < self.styles.len()
            invariant
                i <= self.styles@.len(),
                wanted@ == name@,
                self.ordered(),
                forall|k: int| 0 <= k < i ==> precedes(#[trigger] self.styles@[k].0@, name@),
            decreases self.styles@.len() - i,
        {
            let here = to_chars(&self.styles[i].0);
            match rank(&here, &wanted) {
                Rank::Before => {},
                Rank::Same => {
                    proof {
                        self.lemma_at(i as int);
                    }
                    return (i, true);
                },
                Rank::After => {
                    proof {
                        assert forall|k: int| i <= k < self.styles@.len() implies precedes(
                            name@,
                            #[trigger] self.styles@[k].0@,
                        ) by {
                            if k > i {
                                lemma_precedes_through(
                                    name@,
                                    self.styles@[i as int].0@,
                                    self.styles@[k].0@,
                                );
                            }
                        }
                        self.lemma_absent(name@, i as int);
                    }
                    return (i, false);
                },
            }
            i += 1;
        }
        proof {
            self.lemma_absent(name@, i as int);
        }
        (i, false)
    }

    /// A name with all voices on either side of it is not there.
    proof fn lemma_absent(&self, name: Seq<char>, at: int)
        requires
            forall|i: int| 0 <= i < at ==> precedes(#[trigger] self.styles@[i].0@, name),
            forall|i: int|
                at <= i < self.styles@.len() ==> precedes(name, #[trigger] self.styles@[i].0@),
        ensures
            !self@.contains_key(name),
    {
        if self.has(name, self.styles@.len() as int) {
            let i = choose|i: int|
                0 <= i < self.styles@.len() && #[trigger] self.styles@[i].0@ == name;
            lemma_precedes(name, name);
        }
    }

    /// No voices.
    fn none() -> (r: Self)
        ensures
            r.wf(),
            r@ == Map::<Seq<char>, StyleArray<T>>::empty(),
            r.styles@.len() == 0,
    {
        let r = Voices { styles: Vec::new() };
        assert(r@ =~= Map::empty());
        r
    }

    /// Adds a voice, in place of the one by the same name if there is one.
    fn insert(&mut self, name: String, array: StyleArray<T>)
        requires
            old(self).wf(),
            array.wf(),
        ensures
            final(self).wf(),
            final(self)@ == old(self)@.insert(name@, array),
            final(self).styles@.len() > 0,
    {
        let ghost before = *self;
        let ghost key = name@;
        let (at, there) = self.find(&name);
        if there {
            self.styles.set(at, (name, array));
        } else {
            self.styles.insert(at, (name, array));
        }
        proof {
            let list = self.styles@;
            let was = before.styles@;
            // The new voice is at `at`; the others have moved by one or not at all.
            let step: int = if there {
                0
            } else {
                1
            };
            assert(list[at as int].0@ == key && list[at as int].1 == array);
            assert forall|i: int| 0 <= i < list.len() && i != at implies list[i] == was[if i < at {
                i
            } else {
                i - step
            }] by {}
            assert forall|i: int, j: int| 0 <= i < j < list.len() implies precedes(
                #[trigger] list[i].0@,
                #[trigger] list[j].0@,
            ) by {
                let from = if i < at {
                    i
                } else {
                    i - step
                };
                let to = if j < at {
                    j
                } else {
                    j - step
                };
                if i == at {
                    assert(list[j] == was[to]);
                    if there {
                        assert(precedes(was[at as int].0@, was[j].0@));
                    }
                } else if j == at {
                    assert(list[i] == was[from]);
                } else {
                    assert(list[i] == was[from] && list[j] == was[to]);
                }
            }
            assert forall|i: int| 0 <= i < list.len() implies (#[trigger] list[i]).1.wf() by {
                if i != at {
                    assert(list[i] == was[if i < at {
                        i
                    } else {
                        i - step
                    }]);
                }
            }
            self.lemma_at(at as int);
            assert forall|other: Seq<char>| #[trigger]
                self@.contains_key(other) == before@.insert(key, array).contains_key(other) by {
                if other != key {
                    if self.has(other, list.len() as int) {
                        let i = choose|i: int|
                            0 <= i < list.len() && #[trigger] list[i].0@ == other;
                        let from = if i < at {
                            i
                        } else {
                            i - step
                        };
                        assert(was[from].0@ == other);
                        assert(before.has(other, was.len() as int));
                    }
                    if before.has(other, was.len() as int) {
                        let i = choose|i: int| 0 <= i < was.len() && #[trigger] was[i].0@ == other;
                        let to = if i < at {
                            i
                        } else {
                            i + step
                        };
                        assert(to != at);
                        assert(list[to] == was[i]);
                        assert(list[to].0@ == other);
                        assert(self.has(other, list.len() as int));
                    }
                }
            }
            assert forall|other: Seq<char>| #[trigger] self@.contains_key(other) implies self@[other]
                == before@.insert(key, array)[other] by {
                if other != key {
                    let i = choose|i: int| 0 <= i < list.len() && #[trigger] list[i].0@ == other;
                    assert(self.has(other, list.len() as int));
                    let from = if i < at {
                        i
                    } else {
                        i - step
                    };
                    assert(list[i] == was[from]);
                    self.lemma_at(i);
                    before.lemma_at(from);
                }
            }
            assert(self@ =~= before@.insert(key, array));
        }
    }

    /// The voices that the members of a pack hold, by name. There are none in a
    /// pack without members, which is refused.
    pub fn from_members(members: Vec<(String, StyleArray<T>)>) -> (r: Option<Self>)
        requires
            forall|i: int| 0 <= i < members@.len() ==> (#[trigger] members@[i]).1.wf(),
        ensures
            r is None <==> members@.len() == 0,
            r matches Some(voices) ==> voices.wf() && voices@ == voices_of(members@),
    {
        let ghost all = members@;
        let mut members = members;
        if members.len() == 0 {
            return None;
        }
        let mut rest: Vec<(String, StyleArray<T>)> = Vec::new();
        // The last member first, so that each can be taken off the end.
        while members.len() > 0
            invariant
                members@ + rest@.reverse() == all,
                forall|i: int| 0 <= i < all.len() ==> (#[trigger] all[i]).1.wf(),
            decreases members@.len(),
        {
            let ghost before = members@;
            let ghost later = rest@;
            let member = members.pop().unwrap();
            rest.push(member);
            proof {
                assert(rest@.reverse() =~= seq![member] + later.reverse());
                assert(before =~= members@.push(member));
                assert(members@ + rest@.reverse() =~= before + later.reverse());
            }
        }
        let mut voices = Voices::none();
        assert(rest@.reverse() =~= all);
        assert(all.take(0) =~= Seq::empty());
        let ghost mut n: int = 0;
        while rest.len() > 0
            invariant
                0 <= n <= all.len(),
                rest@.len() == all.len() - n,
                rest@.reverse() == all.skip(n),
                forall|i: int| 0 <= i < all.len() ==> (#[trigger] all[i]).1.wf(),
                voices.wf(),
                voices@ == voices_of(all.take(n)),
            decreases rest@.len(),
        {
            let ghost before = rest@;
            let (member, array) = rest.pop().unwrap();
            proof {
                assert(before.reverse()[0] == before.last());
                assert(all.skip(n)[0] == all[n]);
                assert(all[n].1.wf());
                assert(rest@.reverse() =~= before.reverse().skip(1));
                assert(all.skip(n).skip(1) =~= all.skip(n + 1));
                assert(all.take(n + 1).drop_last() =~= all.take(n));
                assert(all.take(n + 1).last() == all[n]);
            }
            voices.insert(strip(&member), array);
            proof {
                n = n + 1;
            }
        }
        assert(all.take(n) =~= all);
        Some(voices)
    }

    /// The names of the voices, in their order.
    pub fn names(&self) -> (r: Vec<String>)
        requires
            self.wf(),
        ensures
            forall|i: int, j: int|
                0 <= i < j < r@.len() ==> precedes(#[trigger] r@[i]@, #[trigger] r@[j]@),
            forall|name: Seq<char>| #[trigger]
                self@.contains_key(name) <==> exists|i: int|
                    0 <= i < r@.len() && #[trigger] r@[i]@ == name,
    {
        let mut names: Vec<String> = Vec::new();
        let mut i: usize = 0;
        while i < self.styles.len()
            invariant
                i <= self.styles@.len(),
                names@.len() == i,
                forall|k: int| 0 <= k < i ==> #[trigger] names@[k]@ == self.styles@[k].0@,
            decreases self.styles@.len() - i,
        {
            names.push(self.styles[i].0.clone());
            i += 1;
        }
        proof {
            assert forall|name: Seq<char>| #[trigger]
                self@.contains_key(name) <==> exists|i: int|
                    0 <= i < names@.len() && #[trigger] names@[i]@ == name by {
                if self.has(name, self.styles@.len() as int) {
                    let k = choose|k: int|
                        0 <= k < self.styles@.len() && #[trigger] self.styles@[k].0@ == name;
                    assert(names@[k]@ == name);
                }
                if exists|i: int| 0 <= i < names@.len() && #[trigger] names@[i]@ == name {
                    let k = choose|i: int| 0 <= i < names@.len() && #[trigger] names@[i]@ == name;
                    assert(self.styles@[k].0@ == name);
                    assert(self.has(name, self.styles@.len() as int));
                }
            }
        }
        names
    }

    /// Whether there is a voice of this name.
    pub fn contains(&self, name: &str) -> (r: bool)
        requires
            self.wf(),
        ensures
            r == self@.contains_key(name@),
    {
        self.find(name).1
    }

    /// Whether the voice `name`, where there is one and its vectors have the right width,
    /// has a vector to give.
    pub fn is_usable(&self, name: &str) -> (r: bool)
        requires
            self.wf(),
        ensures
            r == has_vector(self@, name@),
    {
        let (at, there) = self.find(name);
        if !there {
            return true;
        }
        proof {
            self.lemma_at(at as int);
        }
        let array = &self.styles[at].1;
        array.width != STYLE_DIM || array.rows > 0 && array.depth > 0
    }
}

impl<T: Copy> Voices<T> {
    /// The style vector for `name` at an utterance of `token_count` tokens, which is
    /// clamped to the rows that the voice has.
    pub fn style(&self, name: &str, token_count: usize) -> (r: Result<Vec<T>, StyleError>)
        requires
            self.wf(),
            has_vector(self@, name@),
        ensures
            style_heard(r) == style_of(self@, name@, token_count as int),
    {
        let (at, there) = self.find(name);
        if !there {
            return Err(StyleError::UnknownVoice);
        }
        proof {
            self.lemma_at(at as int);
        }
        let array = &self.styles[at].1;
        if array.width != STYLE_DIM {
            return Err(StyleError::Width(array.width));
        }
        let row = if token_count < array.rows - 1 {
            token_count
        } else {
            array.rows - 1
        };
        let len = array.data.len();
        proof {
            assert(array.wf());
            lemma_row_fits(
                array.rows as int,
                array.depth as int,
                array.width as int,
                row as int,
            );
        }
        let first = row * array.depth;
        let from = first * array.width;
        let mut style: Vec<T> = Vec::new();
        let mut k: usize = 0;
        while k < array.width
            invariant
                k <= array.width,
                from + array.width <= len == array.data@.len(),
                style@ == array.data@.subrange(from as int, from + k),
            decreases array.width - k,
        {
            style.push(array.data[from + k]);
            assert(style@ =~= array.data@.subrange(from as int, from + k + 1));
            k += 1;
        }
        Ok(style)
    }
}

/// A row of an array lies inside it.
proof fn lemma_row_fits(rows: int, depth: int, width: int, row: int)
    by (nonlinear_arith)
    requires
        0 <= row < rows,
        0 < depth,
        0 <= width,
    ensures
        0 <= row * depth <= row * depth * width || width == 0,
        0 <= row * depth * width,
        row * depth * width + width <= rows * depth * width,
        row * depth <= rows * depth,
{
}

/// A member's name without the suffix.
fn strip(member: &str) -> (r: String)
    ensures
        r@ == voice_name(member@),
{
    let chars = to_chars(member);
    let suffix = to_chars(MEMBER_SUFFIX);
    if has_suffix(&chars, &suffix) {
        assert(chars@.subrange(0, chars@.len() - suffix@.len()) =~= chars@.take(
            chars@.len() - suffix@.len(),
        ));
        substring(&chars, 0, chars.len() - suffix.len())
    } else {
        member.to_owned()
    }
}

/// A voice has a vector for every token count: the one in the row of that number, and for a
/// count that has no row the one in the last.
pub proof fn styles_go_by_token_count<T>(
    voices: Map<Seq<char>, StyleArray<T>>,
    name: Seq<char>,
    count: int,
    row: int,
    j: int,
)
    requires
        voices.contains_key(name),
        voices[name].width == 256,
        voices[name].wf(),
        voices[name].depth > 0,
        0 <= count,
        0 <= row < voices[name].rows,
        row == count || count >= voices[name].rows && row == voices[name].rows - 1,
        0 <= j < 256,
    ensures
        style_of(voices, name, count) matches Ok(style) && style.len() == 256 && style[j]
            == voices[name].data@[256 * (voices[name].depth * row) + j],
{
    let array = voices[name];
    let rows = array.rows as int;
    let depth = array.depth as int;
    lemma_row_fits(rows, depth, 256, row);
    assert(row * depth * 256 == 256 * (depth * row)) by (nonlinear_arith);
    assert(rows * depth * 256 == array.data@.len());
}

/// There is no vector exactly where there is no such voice, or where its vectors do not
/// have the width that the model expects, and the error says which.
pub proof fn styles_fail_for_a_reason<T>(
    voices: Map<Seq<char>, StyleArray<T>>,
    name: Seq<char>,
    count: int,
)
    ensures
        !voices.contains_key(name) <==> style_of(voices, name, count) == Err::<Seq<T>, _>(
            StyleError::UnknownVoice,
        ),
        voices.contains_key(name) && voices[name].width != 256 ==> style_of(voices, name, count)
            == Err::<Seq<T>, _>(StyleError::Width(voices[name].width)),
        voices.contains_key(name) && voices[name].width == 256 ==> style_of(
            voices,
            name,
            count,
        ) is Ok,
{
}

/// A pack has a voice for every member, by its name without the suffix, and no other; of
/// several by one name the last one stands.
pub proof fn the_last_member_of_a_name_is_its_voice<T>(
    members: Seq<(String, StyleArray<T>)>,
    name: Seq<char>,
    k: int,
)
    requires
        0 <= k < members.len(),
        name == members[k].0@ && !ends_with(name, ".npy"@) || name + ".npy"@ == members[k].0@,
        forall|j: int|
            k < j < members.len() ==> name + ".npy"@ != (#[trigger] members[j]).0@ && (name
                != members[j].0@ || ends_with(name, ".npy"@)),
    ensures
        voices_of(members).contains_key(name),
        voices_of(members)[name] == members[k].1,
    decreases members.len(),
{
    let last = members.len() - 1;
    lemma_voice_name(members[last].0@, name);
    if k < last {
        let less = members.drop_last();
        assert forall|j: int| k < j < less.len() implies name + ".npy"@ != (
        #[trigger] less[j]).0@ && (name != less[j].0@ || ends_with(name, ".npy"@)) by {
            assert(less[j] == members[j]);
        }
        assert(less[k] == members[k]);
        the_last_member_of_a_name_is_its_voice(less, name, k);
        assert(members[last].0@ != name || ends_with(name, ".npy"@));
    }
}

/// A pack has no voice that no member is.
pub proof fn every_voice_is_a_member<T>(members: Seq<(String, StyleArray<T>)>, name: Seq<char>)
    requires
        voices_of(members).contains_key(name),
    ensures
        exists|k: int|
            0 <= k < members.len() && (name == (#[trigger] members[k]).0@ || name + ".npy"@
                == members[k].0@),
    decreases members.len(),
{
    let last = members.len() - 1;
    if members.len() > 0 {
        lemma_voice_name(members[last].0@, name);
        if voice_name(members[last].0@) == name {
            assert(name == members[last].0@ || name + ".npy"@ == members[last].0@);
        } else {
            let less = members.drop_last();
            every_voice_is_a_member(less, name);
            let k = choose|k: int|
                0 <= k < less.len() && (name == (#[trigger] less[k]).0@ || name + ".npy"@
                    == less[k].0@);
            assert(less[k] == members[k]);
        }
    }
}

proof fn lemma_voice_name(member: Seq<char>, name: Seq<char>)
    ensures
        voice_name(member) == name <==> (name == member && !ends_with(name, ".npy"@) || name
            + ".npy"@ == member),
{
    let suffix = ".npy"@;
    if ends_with(member, suffix) {
        let head = member.take(member.len() - suffix.len());
        assert(head + suffix =~= member);
        if name + suffix == member {
            assert(name =~= head);
        }
    } else if name + suffix == member {
        assert(member.subrange(member.len() - suffix.len(), member.len() as int) =~= suffix);
    }
}

/// Texts are in the order of the first character in which they differ, and one that another
/// goes on from comes before it.
pub proof fn the_first_difference_decides(a: Seq<char>, b: Seq<char>, k: int)
    requires
        0 <= k <= a.len(),
        k < b.len(),
        forall|i: int| 0 <= i < k ==> #[trigger] a[i] == b[i],
        k < a.len() ==> a[k] != b[k],
    ensures
        precedes(a, b) <==> k == a.len() || a[k] < b[k],
        precedes(b, a) <==> k < a.len() && b[k] < a[k],
    decreases k,
{
    if k > 0 {
        assert(a[0] == b[0]);
        assert forall|i: int| 0 <= i < k - 1 implies #[trigger] a.skip(1)[i] == b.skip(1)[i] by {
            assert(a[i + 1] == b[i + 1]);
        }
        the_first_difference_decides(a.skip(1), b.skip(1), k - 1);
    }
}

} // verus!
